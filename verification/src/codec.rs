use vstd::prelude::*;

verus! {

// The canonical, deterministic binary encoding used for every on-wire value:
// integers as eight big-endian bytes, byte strings length-prefixed, flags as
// one byte, and structures as the plain concatenation of their fields. The
// same input always yields the same byte sequence, which is what record
// signing requires.

/// Big-endian bytes of a 64-bit integer.
pub open spec fn spec_enc_u64(n: u64) -> Seq<u8> {
    seq![
        ((n >> 56) & 0xff) as u8,
        ((n >> 48) & 0xff) as u8,
        ((n >> 40) & 0xff) as u8,
        ((n >> 32) & 0xff) as u8,
        ((n >> 24) & 0xff) as u8,
        ((n >> 16) & 0xff) as u8,
        ((n >> 8) & 0xff) as u8,
        (n & 0xff) as u8,
    ]
}

/// The integer whose big-endian bytes are the eight arguments.
pub open spec fn spec_recon_u64(
    b0: u8,
    b1: u8,
    b2: u8,
    b3: u8,
    b4: u8,
    b5: u8,
    b6: u8,
    b7: u8,
) -> u64 {
    ((b0 as u64) << 56) | ((b1 as u64) << 48) | ((b2 as u64) << 40) | ((b3 as u64) << 32) | (
    (b4 as u64) << 24) | ((b5 as u64) << 16) | ((b6 as u64) << 8) | (b7 as u64)
}

proof fn lemma_recon_enc_u64(n: u64)
    ensures
        spec_recon_u64(
            ((n >> 56) & 0xff) as u8,
            ((n >> 48) & 0xff) as u8,
            ((n >> 40) & 0xff) as u8,
            ((n >> 32) & 0xff) as u8,
            ((n >> 24) & 0xff) as u8,
            ((n >> 16) & 0xff) as u8,
            ((n >> 8) & 0xff) as u8,
            (n & 0xff) as u8,
        ) == n,
{
    assert((((((n >> 56) & 0xff) as u8) as u64) << 56) | (((((n >> 48) & 0xff) as u8) as u64)
        << 48) | (((((n >> 40) & 0xff) as u8) as u64) << 40) | (((((n >> 32) & 0xff) as u8) as u64)
        << 32) | (((((n >> 24) & 0xff) as u8) as u64) << 24) | (((((n >> 16) & 0xff) as u8) as u64)
        << 16) | (((((n >> 8) & 0xff) as u8) as u64) << 8) | (((n & 0xff) as u8) as u64) == n)
        by (bit_vector);
}

/// Appends the eight big-endian bytes of `n`.
pub fn enc_u64(out: &mut Vec<u8>, n: u64)
    ensures
        final(out)@ == old(out)@ + spec_enc_u64(n),
{
    proof {
        assert((n >> 56) & 0xff <= 0xff && (n >> 48) & 0xff <= 0xff && (n >> 40) & 0xff <= 0xff && (
        n >> 32) & 0xff <= 0xff && (n >> 24) & 0xff <= 0xff && (n >> 16) & 0xff <= 0xff && (n >> 8)
            & 0xff <= 0xff && n & 0xff <= 0xff) by (bit_vector);
    }
    out.push(((n >> 56) & 0xff) as u8);
    out.push(((n >> 48) & 0xff) as u8);
    out.push(((n >> 40) & 0xff) as u8);
    out.push(((n >> 32) & 0xff) as u8);
    out.push(((n >> 24) & 0xff) as u8);
    out.push(((n >> 16) & 0xff) as u8);
    out.push(((n >> 8) & 0xff) as u8);
    out.push((n & 0xff) as u8);
    proof {
        assert(out@ =~= old(out)@ + spec_enc_u64(n));
    }
}

/// What reading an integer at position `i` yields: the value and the
/// position after it.
pub open spec fn spec_dec_u64(s: Seq<u8>, i: int) -> Option<(u64, int)> {
    if 0 <= i && i + 8 <= s.len() {
        Some(
            (
                spec_recon_u64(
                    s[i],
                    s[i + 1],
                    s[i + 2],
                    s[i + 3],
                    s[i + 4],
                    s[i + 5],
                    s[i + 6],
                    s[i + 7],
                ),
                i + 8,
            ),
        )
    } else {
        None
    }
}

/// Reads an integer at position `pos`.
pub fn dec_u64(buf: &Vec<u8>, pos: usize) -> (r: Option<(u64, usize)>)
    ensures
        match r {
            Some((n, j)) => spec_dec_u64(buf@, pos as int) == Some((n, j as int)),
            None => spec_dec_u64(buf@, pos as int) is None,
        },
{
    if buf.len() < 8 || pos > buf.len() - 8 {
        return None;
    }
    let n = ((buf[pos] as u64) << 56) | ((buf[pos + 1] as u64) << 48) | ((buf[pos + 2] as u64)
        << 40) | ((buf[pos + 3] as u64) << 32) | ((buf[pos + 4] as u64) << 24) | ((buf[pos
        + 5] as u64) << 16) | ((buf[pos + 6] as u64) << 8) | (buf[pos + 7] as u64);
    Some((n, pos + 8))
}

/// Round trip: decoding reads back exactly the integer that was encoded.
pub proof fn lemma_dec_enc_u64(s: Seq<u8>, i: int, n: u64)
    requires
        0 <= i,
        i + 8 <= s.len(),
        s.subrange(i, i + 8) == spec_enc_u64(n),
    ensures
        spec_dec_u64(s, i) == Some((n, i + 8)),
{
    let e = spec_enc_u64(n);
    assert forall|k: int| 0 <= k < 8 implies s[i + k] == e[k] by {
        assert(s.subrange(i, i + 8)[k] == s[i + k]);
    }
    lemma_recon_enc_u64(n);
}

/// A length-prefixed byte string.
pub open spec fn spec_enc_bytes(b: Seq<u8>) -> Seq<u8> {
    spec_enc_u64(b.len() as u64) + b
}

/// Appends the length-prefixed bytes of `b`.
pub fn enc_bytes(out: &mut Vec<u8>, b: &Vec<u8>)
    ensures
        final(out)@ == old(out)@ + spec_enc_bytes(b@),
{
    enc_u64(out, b.len() as u64);
    out.extend_from_slice(b.as_slice());
    proof {
        assert(out@ =~= old(out)@ + spec_enc_bytes(b@));
    }
}

/// What reading a length-prefixed byte string at position `i` yields.
pub open spec fn spec_dec_bytes(s: Seq<u8>, i: int) -> Option<(Seq<u8>, int)> {
    match spec_dec_u64(s, i) {
        Some((len, j)) => {
            if j + len <= s.len() {
                Some((s.subrange(j, j + len), j + len))
            } else {
                None
            }
        },
        None => None,
    }
}

/// Reads a length-prefixed byte string at position `pos`.
pub fn dec_bytes(buf: &Vec<u8>, pos: usize) -> (r: Option<(Vec<u8>, usize)>)
    ensures
        match r {
            Some((b, j)) => spec_dec_bytes(buf@, pos as int) == Some((b@, j as int)),
            None => spec_dec_bytes(buf@, pos as int) is None,
        },
{
    match dec_u64(buf, pos) {
        Some((len, j)) => {
            if len > (buf.len() - j) as u64 {
                return None;
            }
            let end = j + (len as usize);
            let b = vstd::slice::slice_to_vec(vstd::slice::slice_subrange(buf.as_slice(), j, end));
            Some((b, end))
        },
        None => None,
    }
}

/// Round trip: decoding reads back exactly the byte string that was encoded.
pub proof fn lemma_dec_enc_bytes(s: Seq<u8>, i: int, b: Seq<u8>)
    requires
        0 <= i,
        b.len() <= u64::MAX,
        i + 8 + b.len() <= s.len(),
        s.subrange(i, i + 8 + b.len()) == spec_enc_bytes(b),
    ensures
        spec_dec_bytes(s, i) == Some((b, i + 8 + b.len())),
{
    let n = b.len() as u64;
    lemma_subrange_concat(s, i, spec_enc_u64(n), b);
    lemma_dec_enc_u64(s, i, n);
}

/// A flag as one byte.
pub open spec fn spec_enc_bool(v: bool) -> Seq<u8> {
    seq![if v { 1u8 } else { 0u8 }]
}

/// Appends the byte form of a flag.
pub fn enc_bool(out: &mut Vec<u8>, v: bool)
    ensures
        final(out)@ == old(out)@ + spec_enc_bool(v),
{
    out.push(if v { 1u8 } else { 0u8 });
    proof {
        assert(out@ =~= old(out)@ + spec_enc_bool(v));
    }
}

/// What reading a flag at position `i` yields. Anything but 0 or 1 is refused.
pub open spec fn spec_dec_bool(s: Seq<u8>, i: int) -> Option<(bool, int)> {
    if 0 <= i && i + 1 <= s.len() {
        if s[i] == 1u8 {
            Some((true, i + 1))
        } else if s[i] == 0u8 {
            Some((false, i + 1))
        } else {
            None
        }
    } else {
        None
    }
}

/// Reads a flag at position `pos`.
pub fn dec_bool(buf: &Vec<u8>, pos: usize) -> (r: Option<(bool, usize)>)
    ensures
        match r {
            Some((v, j)) => spec_dec_bool(buf@, pos as int) == Some((v, j as int)),
            None => spec_dec_bool(buf@, pos as int) is None,
        },
{
    if pos >= buf.len() {
        return None;
    }
    if buf[pos] == 1u8 {
        Some((true, pos + 1))
    } else if buf[pos] == 0u8 {
        Some((false, pos + 1))
    } else {
        None
    }
}

/// Round trip for flags.
pub proof fn lemma_dec_enc_bool(s: Seq<u8>, i: int, v: bool)
    requires
        0 <= i,
        i + 1 <= s.len(),
        s.subrange(i, i + 1) == spec_enc_bool(v),
    ensures
        spec_dec_bool(s, i) == Some((v, i + 1)),
{
    assert(s[i] == spec_enc_bool(v)[0]);
}

/// Splitting a decoded buffer: when a stretch of `s` is the concatenation of
/// two encodings, each stands at its own place.
pub proof fn lemma_subrange_concat(s: Seq<u8>, i: int, a: Seq<u8>, b: Seq<u8>)
    requires
        0 <= i,
        i + a.len() + b.len() <= s.len(),
        s.subrange(i, i + a.len() + b.len()) == a + b,
    ensures
        s.subrange(i, i + a.len()) == a,
        s.subrange(i + a.len(), i + a.len() + b.len()) == b,
{
    let whole = s.subrange(i, i + a.len() + b.len());
    assert forall|k: int| 0 <= k < a.len() implies s.subrange(i, i + a.len())[k] == a[k] by {
        assert(whole[k] == (a + b)[k]);
    }
    assert(s.subrange(i, i + a.len()) =~= a);
    assert forall|k: int| 0 <= k < b.len() implies s.subrange(
        i + a.len(),
        i + a.len() + b.len(),
    )[k] == b[k] by {
        assert(whole[a.len() + k] == (a + b)[a.len() + k]);
    }
    assert(s.subrange(i + a.len(), i + a.len() + b.len()) =~= b);
}

} // verus!
