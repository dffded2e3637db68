use vstd::prelude::*;
use crate::codec::spec_enc_u64;
use crate::codec::spec_enc_bytes;
use crate::codec::spec_enc_bool;
use crate::codec::spec_dec_u64;
use crate::codec::spec_dec_bytes;
use crate::codec::spec_dec_bool;
use crate::codec::enc_u64;
use crate::codec::enc_bytes;
use crate::codec::enc_bool;
use crate::codec::dec_u64;
use crate::codec::dec_bytes;
use crate::codec::dec_bool;
use crate::codec::lemma_dec_enc_u64;
use crate::codec::lemma_dec_enc_bytes;
use crate::codec::lemma_dec_enc_bool;
use crate::codec::lemma_subrange_concat;
use crate::cryptde::Key;
use crate::cryptde::CryptData;
use crate::node_addr::IpAddr;
use crate::node_addr::NodeAddr;
use crate::node_addr::NodeAddrV;
use crate::neighborhood_database::NodeRecordInner;
use crate::neighborhood_database::InnerV;
use crate::neighborhood_database::NodeSignatures;
use crate::neighborhood_database::SignaturesV;

verus! {

// Canonical encoding of node records and their signature pairs, the unit
// every signature covers and every gossip message carries.

/// The ports of an address, each as eight big-endian bytes.
pub open spec fn spec_enc_ports(ports: Seq<u16>) -> Seq<u8>
    decreases ports.len(),
{
    if ports.len() == 0 {
        Seq::empty()
    } else {
        spec_enc_u64(ports[0] as u64) + spec_enc_ports(ports.drop_first())
    }
}

pub proof fn lemma_enc_ports_push(ports: Seq<u16>, p: u16)
    ensures
        spec_enc_ports(ports.push(p)) == spec_enc_ports(ports) + spec_enc_u64(p as u64),
    decreases ports.len(),
{
    let s = ports.push(p);
    assert(s.len() == ports.len() + 1);
    assert(s[0] == if ports.len() == 0 { p } else { ports[0] });
    if ports.len() == 0 {
        assert(s.drop_first() =~= Seq::<u16>::empty());
        assert(spec_enc_ports(s) == spec_enc_u64(p as u64) + spec_enc_ports(Seq::<u16>::empty()));
        assert(spec_enc_ports(s) =~= spec_enc_ports(ports) + spec_enc_u64(p as u64));
    } else {
        assert(s.drop_first() =~= ports.drop_first().push(p));
        lemma_enc_ports_push(ports.drop_first(), p);
        assert(spec_enc_ports(s) == spec_enc_u64(ports[0] as u64) + (spec_enc_ports(
            ports.drop_first(),
        ) + spec_enc_u64(p as u64)));
        assert(spec_enc_ports(s) =~= spec_enc_ports(ports) + spec_enc_u64(p as u64));
    }
}

/// A node address: four IP octets, then the port count, then the ports.
pub open spec fn spec_enc_addr(a: NodeAddrV) -> Seq<u8> {
    seq![a.ip.a, a.ip.b, a.ip.c, a.ip.d] + spec_enc_u64(a.ports.len() as u64) + spec_enc_ports(
        a.ports,
    )
}

/// An optional address: a presence flag, then the address if present.
pub open spec fn spec_enc_opt_addr(a: Option<NodeAddrV>) -> Seq<u8> {
    match a {
        Some(v) => spec_enc_bool(true) + spec_enc_addr(v),
        None => spec_enc_bool(false),
    }
}

/// A key list: the count, then each key length-prefixed.
pub open spec fn spec_enc_keys_list(ks: Seq<Seq<u8>>) -> Seq<u8>
    decreases ks.len(),
{
    if ks.len() == 0 {
        Seq::empty()
    } else {
        spec_enc_bytes(ks[0]) + spec_enc_keys_list(ks.drop_first())
    }
}

pub proof fn lemma_enc_keys_list_push(ks: Seq<Seq<u8>>, k: Seq<u8>)
    ensures
        spec_enc_keys_list(ks.push(k)) == spec_enc_keys_list(ks) + spec_enc_bytes(k),
    decreases ks.len(),
{
    let s = ks.push(k);
    assert(s.len() == ks.len() + 1);
    assert(s[0] == if ks.len() == 0 { k } else { ks[0] });
    if ks.len() == 0 {
        assert(s.drop_first() =~= Seq::<Seq<u8>>::empty());
        assert(spec_enc_keys_list(s) == spec_enc_bytes(k) + spec_enc_keys_list(
            Seq::<Seq<u8>>::empty(),
        ));
        assert(spec_enc_keys_list(s) =~= spec_enc_keys_list(ks) + spec_enc_bytes(k));
    } else {
        assert(s.drop_first() =~= ks.drop_first().push(k));
        lemma_enc_keys_list_push(ks.drop_first(), k);
        assert(spec_enc_keys_list(s) == spec_enc_bytes(ks[0]) + (spec_enc_keys_list(
            ks.drop_first(),
        ) + spec_enc_bytes(k)));
        assert(spec_enc_keys_list(s) =~= spec_enc_keys_list(ks) + spec_enc_bytes(k));
    }
}

/// The canonical bytes of an inner node record: key, optional address,
/// bootstrap flag, neighbor count and neighbors, version.
pub open spec fn spec_enc_inner(v: InnerV) -> Seq<u8> {
    spec_enc_bytes(v.public_key) + spec_enc_opt_addr(v.node_addr_opt) + spec_enc_bool(
        v.is_bootstrap_node,
    ) + spec_enc_u64(v.neighbors.len() as u64) + spec_enc_keys_list(v.neighbors) + spec_enc_u64(
        v.version as u64,
    )
}

/// The canonical bytes of a signature pair.
pub open spec fn spec_enc_signatures(v: SignaturesV) -> Seq<u8> {
    spec_enc_bytes(v.complete) + spec_enc_bytes(v.obscured)
}

/// Appends the encoding of a node address.
pub fn enc_addr(out: &mut Vec<u8>, a: &NodeAddr)
    ensures
        final(out)@ == old(out)@ + spec_enc_addr(a@),
{
    out.push(a.ip_addr.a);
    out.push(a.ip_addr.b);
    out.push(a.ip_addr.c);
    out.push(a.ip_addr.d);
    proof {
        assert(out@ =~= old(out)@ + seq![a@.ip.a, a@.ip.b, a@.ip.c, a@.ip.d]);
    }
    enc_u64(out, a.ports.len() as u64);
    let ghost mid = out@;
    let n = a.ports.len();
    let mut i: usize = 0;
    while i < n
        invariant
            n == a.ports.len(),
            0 <= i <= n,
            out@ == mid + spec_enc_ports(a@.ports.take(i as int)),
        decreases n - i,
    {
        proof {
            assert(spec_enc_ports(a@.ports.take(0int)) =~= Seq::<u8>::empty());
        }
        enc_u64(out, a.ports[i] as u64);
        proof {
            lemma_enc_ports_push(a@.ports.take(i as int), a@.ports[i as int]);
            assert(a@.ports.take(i as int).push(a@.ports[i as int]) =~= a@.ports.take(i + 1));
            assert(out@ =~= mid + spec_enc_ports(a@.ports.take(i + 1)));
        }
        i = i + 1;
    }
    proof {
        assert(a@.ports.take(n as int) =~= a@.ports);
        assert(out@ =~= old(out)@ + spec_enc_addr(a@));
    }
}

/// Appends the encoding of an optional node address.
pub fn enc_opt_addr(out: &mut Vec<u8>, a: &Option<NodeAddr>)
    ensures
        final(out)@ == old(out)@ + spec_enc_opt_addr(match a {
            Some(v) => Some(v@),
            None => None,
        }),
{
    match a {
        Some(v) => {
            enc_bool(out, true);
            enc_addr(out, v);
            proof {
                assert(out@ =~= old(out)@ + (spec_enc_bool(true) + spec_enc_addr(v@)));
            }
        },
        None => {
            enc_bool(out, false);
        },
    }
}

/// Appends the encoding of a key list (count, then keys).
pub fn enc_keys(out: &mut Vec<u8>, ks: &Vec<Key>)
    ensures
        final(out)@ == old(out)@ + spec_enc_u64(ks@.len() as u64) + spec_enc_keys_list(
            ks.deep_view(),
        ),
{
    enc_u64(out, ks.len() as u64);
    let ghost mid = out@;
    let n = ks.len();
    let mut i: usize = 0;
    while i < n
        invariant
            n == ks.len(),
            0 <= i <= n,
            out@ == mid + spec_enc_keys_list(ks.deep_view().take(i as int)),
        decreases n - i,
    {
        proof {
            assert(spec_enc_keys_list(ks.deep_view().take(0int)) =~= Seq::<u8>::empty());
        }
        enc_bytes(out, &ks[i].data);
        proof {
            lemma_enc_keys_list_push(ks.deep_view().take(i as int), ks.deep_view()[i as int]);
            assert(ks.deep_view().take(i as int).push(ks.deep_view()[i as int]) =~= ks.deep_view()
                .take(i + 1));
            assert(out@ =~= mid + spec_enc_keys_list(ks.deep_view().take(i + 1)));
        }
        i = i + 1;
    }
    proof {
        assert(ks.deep_view().take(n as int) =~= ks.deep_view());
        assert(out@ =~= old(out)@ + spec_enc_u64(ks@.len() as u64) + spec_enc_keys_list(
            ks.deep_view(),
        ));
    }
}

/// Appends the canonical encoding of an inner node record.
pub fn enc_inner(out: &mut Vec<u8>, v: &NodeRecordInner)
    ensures
        final(out)@ == old(out)@ + spec_enc_inner(v@),
{
    enc_bytes(out, &v.public_key.data);
    enc_opt_addr(out, &v.node_addr_opt);
    enc_bool(out, v.is_bootstrap_node);
    enc_keys(out, &v.neighbors);
    enc_u64(out, v.version as u64);
    proof {
        assert(out@ =~= old(out)@ + spec_enc_inner(v@));
    }
}

/// Appends the canonical encoding of a signature pair.
pub fn enc_signatures(out: &mut Vec<u8>, v: &NodeSignatures)
    ensures
        final(out)@ == old(out)@ + spec_enc_signatures(v@),
{
    enc_bytes(out, &v.complete().data);
    let ob = &v.obscured().data;
    enc_bytes(out, ob);
    proof {
        assert(out@ =~= old(out)@ + spec_enc_signatures(v@));
    }
}

/// Prepends already-decoded ports to a decoder outcome.
pub open spec fn opt_prepend_ports(prefix: Seq<u16>, r: Option<(Seq<u16>, int)>) -> Option<
    (Seq<u16>, int),
> {
    match r {
        Some((v, j)) => Some((prefix + v, j)),
        None => None,
    }
}

/// What reading `count` ports at position `i` yields.
pub open spec fn spec_dec_ports(s: Seq<u8>, i: int, count: nat) -> Option<(Seq<u16>, int)>
    decreases count,
{
    if count == 0 {
        Some((Seq::empty(), i))
    } else {
        match spec_dec_u64(s, i) {
            Some((n, j)) => {
                if n <= 0xffff {
                    opt_prepend_ports(seq![n as u16], spec_dec_ports(s, j, (count - 1) as nat))
                } else {
                    None
                }
            },
            None => None,
        }
    }
}

/// Reads `count` ports at position `pos`.
pub fn dec_ports(buf: &Vec<u8>, pos: usize, count: u64) -> (r: Option<(Vec<u16>, usize)>)
    ensures
        match r {
            Some((v, j)) => spec_dec_ports(buf@, pos as int, count as nat) == Some(
                (v@, j as int),
            ),
            None => spec_dec_ports(buf@, pos as int, count as nat) is None,
        },
{
    let mut acc: Vec<u16> = Vec::new();
    let mut cur = pos;
    let mut done: u64 = 0;
    while done < count
        invariant
            0 <= done <= count,
            spec_dec_ports(buf@, pos as int, count as nat) == opt_prepend_ports(
                acc@,
                spec_dec_ports(buf@, cur as int, (count - done) as nat),
            ),
        decreases count - done,
    {
        match dec_u64(buf, cur) {
            Some((n, j)) => {
                if n > 0xffff {
                    return None;
                }
                let ghost rest_r = spec_dec_ports(buf@, j as int, (count - done - 1) as nat);
                acc.push(n as u16);
                proof {
                    if rest_r is Some {
                        let (rest, k) = rest_r->0;
                        assert(acc@ + rest =~= acc@.drop_last() + (seq![n as u16] + rest));
                    }
                }
                cur = j;
            },
            None => {
                return None;
            },
        }
        done = done + 1;
    }
    proof {
        assert(acc@ + Seq::<u16>::empty() =~= acc@);
    }
    Some((acc, cur))
}

/// Round trip for port lists.
pub proof fn lemma_dec_enc_ports(s: Seq<u8>, i: int, ports: Seq<u16>)
    requires
        0 <= i,
        i + spec_enc_ports(ports).len() <= s.len(),
        s.subrange(i, i + spec_enc_ports(ports).len()) == spec_enc_ports(ports),
    ensures
        spec_dec_ports(s, i, ports.len()) == Some((ports, i + spec_enc_ports(ports).len())),
    decreases ports.len(),
{
    if ports.len() == 0 {
        assert(spec_dec_ports(s, i, 0) == Some((Seq::<u16>::empty(), i)));
        assert(ports =~= Seq::<u16>::empty());
    } else {
        let e0 = spec_enc_u64(ports[0] as u64);
        let erest = spec_enc_ports(ports.drop_first());
        assert(spec_enc_ports(ports) == e0 + erest);
        lemma_subrange_concat(s, i, e0, erest);
        lemma_dec_enc_u64(s, i, ports[0] as u64);
        lemma_dec_enc_ports(s, i + 8, ports.drop_first());
        assert(seq![ports[0]] + ports.drop_first() =~= ports);
    }
}

/// Prepends already-decoded keys to a decoder outcome.
pub open spec fn opt_prepend_keys(prefix: Seq<Seq<u8>>, r: Option<(Seq<Seq<u8>>, int)>) -> Option<
    (Seq<Seq<u8>>, int),
> {
    match r {
        Some((v, j)) => Some((prefix + v, j)),
        None => None,
    }
}

/// What reading `count` length-prefixed keys at position `i` yields.
pub open spec fn spec_dec_keys_list(s: Seq<u8>, i: int, count: nat) -> Option<(Seq<Seq<u8>>, int)>
    decreases count,
{
    if count == 0 {
        Some((Seq::empty(), i))
    } else {
        match spec_dec_bytes(s, i) {
            Some((b, j)) => opt_prepend_keys(seq![b], spec_dec_keys_list(s, j, (count - 1) as nat)),
            None => None,
        }
    }
}

/// Reads `count` keys at position `pos`.
pub fn dec_keys(buf: &Vec<u8>, pos: usize, count: u64) -> (r: Option<(Vec<Key>, usize)>)
    ensures
        match r {
            Some((v, j)) => spec_dec_keys_list(buf@, pos as int, count as nat) == Some(
                (v.deep_view(), j as int),
            ),
            None => spec_dec_keys_list(buf@, pos as int, count as nat) is None,
        },
{
    let mut acc: Vec<Key> = Vec::new();
    let mut cur = pos;
    let mut done: u64 = 0;
    while done < count
        invariant
            0 <= done <= count,
            spec_dec_keys_list(buf@, pos as int, count as nat) == opt_prepend_keys(
                acc.deep_view(),
                spec_dec_keys_list(buf@, cur as int, (count - done) as nat),
            ),
        decreases count - done,
    {
        match dec_bytes(buf, cur) {
            Some((b, j)) => {
                let ghost bv = b@;
                let ghost rest_r = spec_dec_keys_list(buf@, j as int, (count - done - 1) as nat);
                let ghost prev = acc.deep_view();
                acc.push(Key { data: b });
                proof {
                    assert(acc.deep_view() =~= prev.push(bv));
                    if rest_r is Some {
                        let (rest, k) = rest_r->0;
                        assert(prev.push(bv) + rest =~= prev + (seq![bv] + rest));
                    }
                }
                cur = j;
            },
            None => {
                return None;
            },
        }
        done = done + 1;
    }
    proof {
        assert(acc.deep_view() + Seq::<Seq<u8>>::empty() =~= acc.deep_view());
    }
    Some((acc, cur))
}

/// Round trip for key lists.
pub proof fn lemma_dec_enc_keys_list(s: Seq<u8>, i: int, ks: Seq<Seq<u8>>)
    requires
        0 <= i,
        forall|j: int| 0 <= j < ks.len() ==> #[trigger] ks[j].len() <= u64::MAX,
        i + spec_enc_keys_list(ks).len() <= s.len(),
        s.subrange(i, i + spec_enc_keys_list(ks).len()) == spec_enc_keys_list(ks),
    ensures
        spec_dec_keys_list(s, i, ks.len()) == Some((ks, i + spec_enc_keys_list(ks).len())),
    decreases ks.len(),
{
    if ks.len() == 0 {
        assert(ks =~= Seq::<Seq<u8>>::empty());
    } else {
        let e0 = spec_enc_bytes(ks[0]);
        let erest = spec_enc_keys_list(ks.drop_first());
        assert(spec_enc_keys_list(ks) == e0 + erest);
        lemma_subrange_concat(s, i, e0, erest);
        lemma_dec_enc_bytes(s, i, ks[0]);
        lemma_dec_enc_keys_list(s, i + 8 + ks[0].len(), ks.drop_first());
        assert(seq![ks[0]] + ks.drop_first() =~= ks);
    }
}

/// What reading a node address at position `i` yields.
pub open spec fn spec_dec_addr(s: Seq<u8>, i: int) -> Option<(NodeAddrV, int)> {
    if 0 <= i && i + 4 <= s.len() {
        let ip = IpAddr { a: s[i], b: s[i + 1], c: s[i + 2], d: s[i + 3] };
        match spec_dec_u64(s, i + 4) {
            Some((count, j)) => {
                match spec_dec_ports(s, j, count as nat) {
                    Some((ports, k)) => Some((NodeAddrV { ip, ports }, k)),
                    None => None,
                }
            },
            None => None,
        }
    } else {
        None
    }
}

/// Reads a node address at position `pos`.
pub fn dec_addr(buf: &Vec<u8>, pos: usize) -> (r: Option<(NodeAddr, usize)>)
    ensures
        match r {
            Some((v, j)) => spec_dec_addr(buf@, pos as int) == Some((v@, j as int)),
            None => spec_dec_addr(buf@, pos as int) is None,
        },
{
    if buf.len() < 4 || pos > buf.len() - 4 {
        return None;
    }
    let ip = IpAddr::new(buf[pos], buf[pos + 1], buf[pos + 2], buf[pos + 3]);
    match dec_u64(buf, pos + 4) {
        Some((count, j)) => {
            match dec_ports(buf, j, count) {
                Some((ports, k)) => Some((NodeAddr { ip_addr: ip, ports }, k)),
                None => None,
            }
        },
        None => None,
    }
}

/// Round trip for node addresses.
pub proof fn lemma_dec_enc_addr(s: Seq<u8>, i: int, a: NodeAddrV)
    requires
        0 <= i,
        a.ports.len() <= u64::MAX,
        i + spec_enc_addr(a).len() <= s.len(),
        s.subrange(i, i + spec_enc_addr(a).len()) == spec_enc_addr(a),
    ensures
        spec_dec_addr(s, i) == Some((a, i + spec_enc_addr(a).len())),
{
    let e_ip = seq![a.ip.a, a.ip.b, a.ip.c, a.ip.d];
    let e_count = spec_enc_u64(a.ports.len() as u64);
    let e_ports = spec_enc_ports(a.ports);
    assert(spec_enc_addr(a) =~= e_ip + (e_count + e_ports));
    lemma_subrange_concat(s, i, e_ip, e_count + e_ports);
    lemma_subrange_concat(s, i + 4, e_count, e_ports);
    assert(s[i] == a.ip.a && s[i + 1] == a.ip.b && s[i + 2] == a.ip.c && s[i + 3] == a.ip.d) by {
        assert(s.subrange(i, i + 4)[0] == a.ip.a);
        assert(s.subrange(i, i + 4)[1] == a.ip.b);
        assert(s.subrange(i, i + 4)[2] == a.ip.c);
        assert(s.subrange(i, i + 4)[3] == a.ip.d);
    }
    lemma_dec_enc_u64(s, i + 4, a.ports.len() as u64);
    lemma_dec_enc_ports(s, i + 12, a.ports);
}

/// What reading an optional node address at position `i` yields.
pub open spec fn spec_dec_opt_addr(s: Seq<u8>, i: int) -> Option<(Option<NodeAddrV>, int)> {
    match spec_dec_bool(s, i) {
        Some((true, j)) => {
            match spec_dec_addr(s, j) {
                Some((a, k)) => Some((Some(a), k)),
                None => None,
            }
        },
        Some((false, j)) => Some((None, j)),
        None => None,
    }
}

/// Reads an optional node address at position `pos`.
pub fn dec_opt_addr(buf: &Vec<u8>, pos: usize) -> (r: Option<(Option<NodeAddr>, usize)>)
    ensures
        match r {
            Some((v, j)) => spec_dec_opt_addr(buf@, pos as int) == Some(
                (
                    match v {
                        Some(a) => Some(a@),
                        None => None,
                    },
                    j as int,
                ),
            ),
            None => spec_dec_opt_addr(buf@, pos as int) is None,
        },
{
    match dec_bool(buf, pos) {
        Some((true, j)) => {
            match dec_addr(buf, j) {
                Some((a, k)) => Some((Some(a), k)),
                None => None,
            }
        },
        Some((false, j)) => Some((None, j)),
        None => None,
    }
}

/// Round trip for optional node addresses.
pub proof fn lemma_dec_enc_opt_addr(s: Seq<u8>, i: int, a: Option<NodeAddrV>)
    requires
        0 <= i,
        a is Some ==> a->0.ports.len() <= u64::MAX,
        i + spec_enc_opt_addr(a).len() <= s.len(),
        s.subrange(i, i + spec_enc_opt_addr(a).len()) == spec_enc_opt_addr(a),
    ensures
        spec_dec_opt_addr(s, i) == Some((a, i + spec_enc_opt_addr(a).len())),
{
    match a {
        Some(v) => {
            lemma_subrange_concat(s, i, spec_enc_bool(true), spec_enc_addr(v));
            lemma_dec_enc_bool(s, i, true);
            lemma_dec_enc_addr(s, i + 1, v);
        },
        None => {
            lemma_dec_enc_bool(s, i, false);
        },
    }
}

/// What reading an inner node record at position `i` yields.
pub open spec fn spec_dec_inner(s: Seq<u8>, i: int) -> Option<(InnerV, int)> {
    match spec_dec_bytes(s, i) {
        Some((pk, j1)) => {
            match spec_dec_opt_addr(s, j1) {
                Some((addr, j2)) => {
                    match spec_dec_bool(s, j2) {
                        Some((boot, j3)) => {
                            match spec_dec_u64(s, j3) {
                                Some((count, j4)) => {
                                    match spec_dec_keys_list(s, j4, count as nat) {
                                        Some((ks, j5)) => {
                                            match spec_dec_u64(s, j5) {
                                                Some((ver, j6)) => {
                                                    if ver <= u32::MAX {
                                                        Some(
                                                            (
                                                                InnerV {
                                                                    public_key: pk,
                                                                    node_addr_opt: addr,
                                                                    is_bootstrap_node: boot,
                                                                    neighbors: ks,
                                                                    version: ver as u32,
                                                                },
                                                                j6,
                                                            ),
                                                        )
                                                    } else {
                                                        None
                                                    }
                                                },
                                                None => None,
                                            }
                                        },
                                        None => None,
                                    }
                                },
                                None => None,
                            }
                        },
                        None => None,
                    }
                },
                None => None,
            }
        },
        None => None,
    }
}

/// Reads an inner node record at position `pos`.
pub fn dec_inner(buf: &Vec<u8>, pos: usize) -> (r: Option<(NodeRecordInner, usize)>)
    ensures
        match r {
            Some((v, j)) => spec_dec_inner(buf@, pos as int) == Some((v@, j as int)),
            None => spec_dec_inner(buf@, pos as int) is None,
        },
{
    let (pk, j1) = match dec_bytes(buf, pos) {
        Some(x) => x,
        None => {
            return None;
        },
    };
    let (addr, j2) = match dec_opt_addr(buf, j1) {
        Some(x) => x,
        None => {
            return None;
        },
    };
    let (boot, j3) = match dec_bool(buf, j2) {
        Some(x) => x,
        None => {
            return None;
        },
    };
    let (count, j4) = match dec_u64(buf, j3) {
        Some(x) => x,
        None => {
            return None;
        },
    };
    let (ks, j5) = match dec_keys(buf, j4, count) {
        Some(x) => x,
        None => {
            return None;
        },
    };
    let (ver, j6) = match dec_u64(buf, j5) {
        Some(x) => x,
        None => {
            return None;
        },
    };
    if ver > 0xffffffff {
        return None;
    }
    let inner = NodeRecordInner {
        public_key: Key { data: pk },
        node_addr_opt: addr,
        is_bootstrap_node: boot,
        neighbors: ks,
        version: ver as u32,
    };
    proof {
        assert(spec_dec_inner(buf@, pos as int) == Some((inner@, j6 as int)));
    }
    Some((inner, j6))
}

/// Whether an inner record value is small enough to encode.
pub open spec fn inner_encodable(v: InnerV) -> bool {
    &&& v.public_key.len() <= u64::MAX
    &&& v.neighbors.len() <= u64::MAX
    &&& (forall|j: int| 0 <= j < v.neighbors.len() ==> #[trigger] v.neighbors[j].len() <= u64::MAX)
    &&& (v.node_addr_opt is Some ==> v.node_addr_opt->0.ports.len() <= u64::MAX)
}

/// Round trip for inner node records.
pub proof fn lemma_dec_enc_inner(s: Seq<u8>, i: int, v: InnerV)
    requires
        0 <= i,
        inner_encodable(v),
        i + spec_enc_inner(v).len() <= s.len(),
        s.subrange(i, i + spec_enc_inner(v).len()) == spec_enc_inner(v),
    ensures
        spec_dec_inner(s, i) == Some((v, i + spec_enc_inner(v).len())),
{
    let e1 = spec_enc_bytes(v.public_key);
    let e2 = spec_enc_opt_addr(v.node_addr_opt);
    let e3 = spec_enc_bool(v.is_bootstrap_node);
    let e4 = spec_enc_u64(v.neighbors.len() as u64);
    let e5 = spec_enc_keys_list(v.neighbors);
    let e6 = spec_enc_u64(v.version as u64);
    assert(spec_enc_inner(v) =~= e1 + (e2 + (e3 + (e4 + (e5 + e6)))));
    let i1 = i + e1.len();
    let i2 = i1 + e2.len();
    let i3 = i2 + e3.len();
    let i4 = i3 + e4.len();
    let i5 = i4 + e5.len();
    lemma_subrange_concat(s, i, e1, e2 + (e3 + (e4 + (e5 + e6))));
    lemma_subrange_concat(s, i1, e2, e3 + (e4 + (e5 + e6)));
    lemma_subrange_concat(s, i2, e3, e4 + (e5 + e6));
    lemma_subrange_concat(s, i3, e4, e5 + e6);
    lemma_subrange_concat(s, i4, e5, e6);
    lemma_dec_enc_bytes(s, i, v.public_key);
    lemma_dec_enc_opt_addr(s, i1, v.node_addr_opt);
    lemma_dec_enc_bool(s, i2, v.is_bootstrap_node);
    lemma_dec_enc_u64(s, i3, v.neighbors.len() as u64);
    lemma_dec_enc_keys_list(s, i4, v.neighbors);
    lemma_dec_enc_u64(s, i5, v.version as u64);
}

/// What reading a signature pair at position `i` yields.
pub open spec fn spec_dec_signatures(s: Seq<u8>, i: int) -> Option<(SignaturesV, int)> {
    match spec_dec_bytes(s, i) {
        Some((complete, j1)) => {
            match spec_dec_bytes(s, j1) {
                Some((obscured, j2)) => Some((SignaturesV { complete, obscured }, j2)),
                None => None,
            }
        },
        None => None,
    }
}

/// Reads a signature pair at position `pos`.
pub fn dec_signatures(buf: &Vec<u8>, pos: usize) -> (r: Option<(NodeSignatures, usize)>)
    ensures
        match r {
            Some((v, j)) => spec_dec_signatures(buf@, pos as int) == Some((v@, j as int)),
            None => spec_dec_signatures(buf@, pos as int) is None,
        },
{
    let (complete, j1) = match dec_bytes(buf, pos) {
        Some(x) => x,
        None => {
            return None;
        },
    };
    let (obscured, j2) = match dec_bytes(buf, j1) {
        Some(x) => x,
        None => {
            return None;
        },
    };
    Some((NodeSignatures { complete: CryptData { data: complete }, obscured: CryptData { data: obscured } }, j2))
}

/// Round trip for signature pairs.
pub proof fn lemma_dec_enc_signatures(s: Seq<u8>, i: int, v: SignaturesV)
    requires
        0 <= i,
        v.complete.len() <= u64::MAX,
        v.obscured.len() <= u64::MAX,
        i + spec_enc_signatures(v).len() <= s.len(),
        s.subrange(i, i + spec_enc_signatures(v).len()) == spec_enc_signatures(v),
    ensures
        spec_dec_signatures(s, i) == Some((v, i + spec_enc_signatures(v).len())),
{
    let e1 = spec_enc_bytes(v.complete);
    let e2 = spec_enc_bytes(v.obscured);
    lemma_subrange_concat(s, i, e1, e2);
    lemma_dec_enc_bytes(s, i, v.complete);
    lemma_dec_enc_bytes(s, i + e1.len(), v.obscured);
    assert((spec_dec_signatures(s, i)->0).0 =~= v);
}

} // verus!
