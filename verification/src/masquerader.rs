use vstd::prelude::*;

verus! {

// The stream-obfuscation transformation: a ciphered payload is wrapped in a
// self-delimiting textual envelope ({"bodyCBOR":"<hex>"}), so that an
// observer cannot distinguish payloads by shape, and a receiver can carve
// one envelope off the front of a stream and keep the rest.

/// One hex digit character (as its ASCII byte).
pub open spec fn hex_digit(d: u8) -> u8 {
    if d < 10 {
        (48 + d) as u8
    } else {
        (87 + d) as u8
    }
}

/// Whether a byte is a lower-case hex digit character.
pub open spec fn is_hex_digit(b: u8) -> bool {
    (48 <= b && b <= 57) || (97 <= b && b <= 102)
}

/// The value of a hex digit character.
pub open spec fn hex_val(b: u8) -> u8 {
    if 48 <= b && b <= 57 {
        (b - 48) as u8
    } else {
        (b - 87) as u8
    }
}

/// The hex rendering of a byte sequence, two digits per byte.
pub open spec fn hex_of(bytes: Seq<u8>) -> Seq<u8>
    decreases bytes.len(),
{
    if bytes.len() == 0 {
        Seq::empty()
    } else {
        seq![hex_digit(bytes[0] / 16), hex_digit((bytes[0] % 16) as u8)] + hex_of(
            bytes.drop_first(),
        )
    }
}

pub proof fn lemma_hex_of_push(bytes: Seq<u8>, b: u8)
    ensures
        hex_of(bytes.push(b)) == hex_of(bytes) + seq![
            hex_digit(b / 16),
            hex_digit((b % 16) as u8),
        ],
    decreases bytes.len(),
{
    let s = bytes.push(b);
    assert(s[0] == if bytes.len() == 0 {
        b
    } else {
        bytes[0]
    });
    if bytes.len() == 0 {
        assert(s.drop_first() =~= Seq::<u8>::empty());
        assert(hex_of(Seq::<u8>::empty()) == Seq::<u8>::empty());
        assert(hex_of(s) == seq![hex_digit(b / 16), hex_digit((b % 16) as u8)] + hex_of(
            s.drop_first(),
        ));
        assert(hex_of(s) =~= hex_of(bytes) + seq![hex_digit(b / 16), hex_digit((b % 16) as u8)]);
    } else {
        assert(s.drop_first() =~= bytes.drop_first().push(b));
        lemma_hex_of_push(bytes.drop_first(), b);
        assert(hex_of(s) =~= hex_of(bytes) + seq![hex_digit(b / 16), hex_digit((b % 16) as u8)]);
    }
}

/// What a hex region decodes to, if it is well formed.
pub open spec fn unhex(s: Seq<u8>) -> Option<Seq<u8>>
    decreases s.len(),
{
    if s.len() == 0 {
        Some(Seq::empty())
    } else if s.len() == 1 {
        None
    } else if is_hex_digit(s[0]) && is_hex_digit(s[1]) {
        match unhex(s.skip(2)) {
            Some(rest) => Some(seq![(hex_val(s[0]) * 16 + hex_val(s[1])) as u8] + rest),
            None => None,
        }
    } else {
        None
    }
}

/// Decoding inverts encoding.
pub proof fn lemma_unhex_hex(bytes: Seq<u8>)
    ensures
        unhex(hex_of(bytes)) == Some(bytes),
    decreases bytes.len(),
{
    if bytes.len() > 0 {
        let h = hex_of(bytes);
        let b0 = bytes[0];
        assert(h[0] == hex_digit(b0 / 16));
        assert(h[1] == hex_digit((b0 % 16) as u8));
        assert(is_hex_digit(hex_digit(b0 / 16)));
        assert(is_hex_digit(hex_digit((b0 % 16) as u8)));
        assert(hex_val(hex_digit(b0 / 16)) == b0 / 16);
        assert(hex_val(hex_digit((b0 % 16) as u8)) == b0 % 16);
        assert(h.skip(2) =~= hex_of(bytes.drop_first()));
        lemma_unhex_hex(bytes.drop_first());
        assert((hex_val(h[0]) * 16 + hex_val(h[1])) as u8 == b0);
        assert(seq![b0] + bytes.drop_first() =~= bytes);
    }
}

/// The envelope's opening bytes: `{"bodyCBOR":"`.
pub open spec fn mask_prefix() -> Seq<u8> {
    seq![123u8, 34u8, 98u8, 111u8, 100u8, 121u8, 67u8, 66u8, 79u8, 82u8, 34u8, 58u8, 34u8]
}

/// The envelope's closing bytes: `"}`.
pub open spec fn mask_suffix() -> Seq<u8> {
    seq![34u8, 125u8]
}

/// The masked form of a payload.
pub open spec fn spec_mask(data: Seq<u8>) -> Seq<u8> {
    mask_prefix() + hex_of(data) + mask_suffix()
}

/// The first quote at or after position `i`, or -1.
pub open spec fn find_quote(s: Seq<u8>, i: int) -> int
    decreases s.len() - i,
{
    if i < 0 || i >= s.len() {
        -1
    } else if s[i] == 34 {
        i
    } else {
        find_quote(s, i + 1)
    }
}

/// What unmasking the front of a stream yields: the payload of the first
/// complete envelope and the remaining bytes.
pub open spec fn spec_unmask(s: Seq<u8>) -> Option<(Seq<u8>, Seq<u8>)> {
    if s.len() < 13 || s.subrange(0, 13) != mask_prefix() {
        None
    } else {
        let j = find_quote(s, 13);
        if j < 0 || j + 1 >= s.len() || s[j + 1] != 125 {
            None
        } else {
            match unhex(s.subrange(13, j)) {
                Some(d) => Some((d, s.skip(j + 2))),
                None => None,
            }
        }
    }
}

/// Wraps cipher bytes in the self-delimiting textual envelope.
pub struct JsonMasquerader {}

impl JsonMasquerader {
    pub fn new() -> (r: JsonMasquerader) {
        JsonMasquerader {  }
    }

    /// Masks a payload for the wire.
    pub fn mask(&self, data: &Vec<u8>) -> (r: Vec<u8>)
        ensures
            r@ == spec_mask(data@),
    {
        let mut out: Vec<u8> = Vec::new();
        out.push(123u8);
        out.push(34u8);
        out.push(98u8);
        out.push(111u8);
        out.push(100u8);
        out.push(121u8);
        out.push(67u8);
        out.push(66u8);
        out.push(79u8);
        out.push(82u8);
        out.push(34u8);
        out.push(58u8);
        out.push(34u8);
        proof {
            assert(out@ =~= mask_prefix());
            assert(hex_of(data@.take(0int)) =~= Seq::<u8>::empty());
            assert(out@ =~= mask_prefix() + hex_of(data@.take(0int)));
        }
        let n = data.len();
        let mut i: usize = 0;
        while i < n
            invariant
                n == data@.len(),
                0 <= i <= n,
                out@ == mask_prefix() + hex_of(data@.take(i as int)),
            decreases n - i,
        {
            let b = data[i];
            out.push(hex_digit_exec(b / 16));
            out.push(hex_digit_exec(b % 16));
            proof {
                lemma_hex_of_push(data@.take(i as int), b);
                assert(data@.take(i as int).push(b) =~= data@.take(i + 1));
                assert(out@ =~= mask_prefix() + hex_of(data@.take(i + 1)));
            }
            i = i + 1;
        }
        out.push(34u8);
        out.push(125u8);
        proof {
            assert(data@.take(n as int) =~= data@);
            assert(out@ =~= spec_mask(data@));
        }
        out
    }

    /// Carves the first complete envelope off the front of a stream,
    /// yielding its payload and the remaining bytes. A stream that does not
    /// begin with a complete well-formed envelope yields nothing; the caller
    /// keeps accumulating.
    pub fn try_unmask(&self, data: &Vec<u8>) -> (r: Option<(Vec<u8>, Vec<u8>)>)
        ensures
            match r {
                Some((chunk, remaining)) => spec_unmask(data@) == Some((chunk@, remaining@)),
                None => spec_unmask(data@) is None,
            },
    {
        if data.len() < 13 {
            return None;
        }
        let prefix = [
            123u8,
            34u8,
            98u8,
            111u8,
            100u8,
            121u8,
            67u8,
            66u8,
            79u8,
            82u8,
            34u8,
            58u8,
            34u8,
        ];
        let mut p: usize = 0;
        while p < 13
            invariant
                0 <= p <= 13,
                13 <= data@.len(),
                prefix@ == mask_prefix(),
                forall|q: int| 0 <= q < p ==> data@[q] == mask_prefix()[q],
            decreases 13 - p,
        {
            if data[p] != prefix[p] {
                proof {
                    assert(data@.subrange(0, 13)[p as int] != mask_prefix()[p as int]);
                }
                return None;
            }
            p = p + 1;
        }
        proof {
            assert(data@.subrange(0, 13) =~= mask_prefix());
        }
        // find the closing quote
        let n = data.len();
        let mut j: usize = 13;
        while j < n && data[j] != 34u8
            invariant
                13 <= j <= n,
                n == data@.len(),
                forall|q: int| 13 <= q < j ==> data@[q] != 34u8,
            decreases n - j,
        {
            j = j + 1;
        }
        proof {
            lemma_find_quote_from(data@, 13, j as int);
        }
        if j >= n {
            return None;
        }
        if j + 1 >= n || data[j + 1] != 125u8 {
            return None;
        }
        // decode the hex region
        let mut chunk: Vec<u8> = Vec::new();
        let mut k: usize = 13;
        while k < j
            invariant
                13 <= k <= j,
                j < n,
                n == data@.len(),
                data@.subrange(0, 13) == mask_prefix(),
                find_quote(data@, 13) == j as int,
                j + 1 < n,
                data@[j as int + 1] == 125u8,
                forall|q: int| 13 <= q < j ==> data@[q] != 34u8,
                match unhex(data@.subrange(k as int, j as int)) {
                    Some(rest) => unhex(data@.subrange(13, j as int)) == Some(chunk@ + rest),
                    None => unhex(data@.subrange(13, j as int)) is None,
                },
            decreases j - k,
        {
            if k + 1 >= j {
                proof {
                    assert(data@.subrange(k as int, j as int).len() == 1);
                }
                return None;
            }
            let hi = data[k];
            let lo = data[k + 1];
            let hi_ok = (48 <= hi && hi <= 57) || (97 <= hi && hi <= 102);
            let lo_ok = (48 <= lo && lo <= 57) || (97 <= lo && lo <= 102);
            proof {
                assert(data@.subrange(k as int, j as int)[0] == hi);
                assert(data@.subrange(k as int, j as int)[1] == lo);
            }
            if !(hi_ok && lo_ok) {
                return None;
            }
            let hv: u8 = if hi <= 57 {
                hi - 48
            } else {
                hi - 87
            };
            let lv: u8 = if lo <= 57 {
                lo - 48
            } else {
                lo - 87
            };
            let ghost prev = chunk@;
            chunk.push(hv * 16 + lv);
            proof {
                assert(hv == hex_val(hi) && lv == hex_val(lo));
                assert(hv < 16 && lv < 16);
                assert(data@.subrange(k as int, j as int).skip(2) =~= data@.subrange(
                    k + 2,
                    j as int,
                ));
                if unhex(data@.subrange(k + 2, j as int)) is Some {
                    let rest = unhex(data@.subrange(k + 2, j as int))->0;
                    assert(prev + (seq![(hex_val(hi) * 16 + hex_val(lo)) as u8] + rest) =~= chunk@
                        + rest);
                }
            }
            k = k + 2;
        }
        proof {
            assert(data@.subrange(j as int, j as int).len() == 0);
            assert(unhex(data@.subrange(j as int, j as int)) == Some(Seq::<u8>::empty()));
            assert(chunk@ + Seq::<u8>::empty() =~= chunk@);
        }
        let remaining = vstd::slice::slice_to_vec(
            vstd::slice::slice_subrange(data.as_slice(), j + 2, data.len()),
        );
        proof {
            assert(remaining@ =~= data@.skip(j + 2));
        }
        Some((chunk, remaining))
    }
}

/// The scan that stops at the first quote computes `find_quote`.
proof fn lemma_find_quote_from(s: Seq<u8>, start: int, j: int)
    requires
        0 <= start <= j <= s.len(),
        forall|q: int| start <= q < j ==> s[q] != 34u8,
        j < s.len() ==> s[j] == 34u8,
    ensures
        j < s.len() ==> find_quote(s, start) == j,
        j == s.len() ==> find_quote(s, start) == -1,
    decreases j - start,
{
    if start < j {
        lemma_find_quote_from(s, start + 1, j);
    } else if j == s.len() {
        lemma_find_quote_none(s, start);
    }
}

/// Past the end there is no quote.
proof fn lemma_find_quote_none(s: Seq<u8>, i: int)
    requires
        forall|q: int| i <= q < s.len() ==> s[q] != 34u8,
    ensures
        find_quote(s, i) == -1,
    decreases s.len() - i,
{
    if 0 <= i && i < s.len() {
        lemma_find_quote_none(s, i + 1);
    }
}

/// Computes one hex digit character.
fn hex_digit_exec(d: u8) -> (r: u8)
    requires
        d < 16,
    ensures
        r == hex_digit(d),
{
    if d < 10 {
        48 + d
    } else {
        87 + d
    }
}

/// Law: unmasking a masked payload at the front of any stream yields the
/// payload and exactly the bytes that followed the envelope.
pub proof fn lemma_mask_round_trip(data: Seq<u8>, rest: Seq<u8>)
    ensures
        spec_unmask(spec_mask(data) + rest) == Some((data, rest)),
{
    let s = spec_mask(data) + rest;
    let h = hex_of(data);
    lemma_hex_len_and_digits(data);
    assert(s.subrange(0, 13) =~= mask_prefix());
    let close = 13 + h.len() as int;
    assert(forall|q: int| 13 <= q < close ==> s[q] == h[q - 13] && s[q] != 34u8);
    assert(s[close] == 34u8);
    lemma_find_quote_from(s, 13, close);
    assert(find_quote(s, 13) == close);
    assert(s[close + 1] == 125u8);
    assert(s.subrange(13, close) =~= h);
    lemma_unhex_hex(data);
    assert(s.skip(close + 2) =~= rest);
}

/// Hex renderings hold only hex-digit characters, never a quote.
proof fn lemma_hex_len_and_digits(data: Seq<u8>)
    ensures
        hex_of(data).len() == 2 * data.len(),
        forall|q: int|
            0 <= q < hex_of(data).len() ==> is_hex_digit(#[trigger] hex_of(data)[q]) && hex_of(
                data,
            )[q] != 34u8,
    decreases data.len(),
{
    if data.len() > 0 {
        lemma_hex_len_and_digits(data.drop_first());
        let h = hex_of(data);
        let hrest = hex_of(data.drop_first());
        assert forall|q: int| 0 <= q < h.len() implies is_hex_digit(#[trigger] h[q]) && h[q]
            != 34u8 by {
            if q >= 2 {
                assert(h[q] == hrest[q - 2]);
            } else {
                assert(is_hex_digit(hex_digit(data[0] / 16)));
                assert(is_hex_digit(hex_digit((data[0] % 16) as u8)));
            }
        }
    }
}

} // verus!
