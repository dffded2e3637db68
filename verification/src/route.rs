use vstd::prelude::*;
use crate::codec::spec_enc_bytes;
use crate::codec::spec_enc_bool;
use crate::codec::spec_dec_bytes;
use crate::codec::spec_dec_bool;
use crate::codec::enc_bytes;
use crate::codec::enc_bool;
use crate::codec::dec_bytes;
use crate::codec::dec_bool;
use crate::codec::lemma_dec_enc_bytes;
use crate::codec::lemma_dec_enc_bool;
use crate::codec::lemma_subrange_concat;
use crate::cryptde::Key;
use crate::cryptde::CryptData;
use crate::cryptde::CryptDe;
use crate::cryptde::PlainData;
use crate::neighborhood_database::clone_keys;

verus! {

// Routes and hops: the ordered encrypted-hop list an onion-routed package
// travels along. The originator encrypts each hop's instruction to the relay
// that will peel it, so a relay learns only its own next step.

/// The component a hop delivers to at its relay.
#[derive(Clone, Copy, Debug, PartialEq, Eq, Structural, Hash)]
pub enum Component {
    Neighborhood,
    Hopper,
    ProxyServer,
    ProxyClient,
}

/// The wire byte of a component.
pub open spec fn component_byte(c: Component) -> u8 {
    match c {
        Component::Neighborhood => 0,
        Component::Hopper => 1,
        Component::ProxyServer => 2,
        Component::ProxyClient => 3,
    }
}

/// The component of a wire byte, if it names one.
pub open spec fn byte_component(b: u8) -> Option<Component> {
    if b == 0 {
        Some(Component::Neighborhood)
    } else if b == 1 {
        Some(Component::Hopper)
    } else if b == 2 {
        Some(Component::ProxyServer)
    } else if b == 3 {
        Some(Component::ProxyClient)
    } else {
        None
    }
}

/// One routing instruction: the next relay's key (absent at the route's
/// end) and the component to deliver to.
#[derive(Debug)]
pub struct Hop {
    pub public_key: Option<Key>,
    pub component: Component,
}

/// The mathematical value of a `Hop`.
#[verifier::ext_equal]
pub ghost struct HopV {
    pub public_key: Option<Seq<u8>>,
    pub component: Component,
}

impl View for Hop {
    type V = HopV;

    open spec fn view(&self) -> HopV {
        HopV {
            public_key: match self.public_key {
                Some(k) => Some(k@),
                None => None,
            },
            component: self.component,
        }
    }
}

impl Hop {
    pub fn new(public_key: Option<&Key>, component: Component) -> (r: Hop)
        ensures
            r@ == (HopV {
                public_key: match public_key {
                    Some(k) => Some(k@),
                    None => None,
                },
                component,
            }),
    {
        let r = Hop {
            public_key: match public_key {
                Some(k) => Some(k.clone()),
                None => None,
            },
            component,
        };
        proof {
            assert(r@ =~= (HopV {
                public_key: match public_key {
                    Some(k) => Some(k@),
                    None => None,
                },
                component,
            }));
        }
        r
    }
}

/// The plaintext bytes of a hop: key presence and bytes, then the
/// component byte.
pub open spec fn spec_enc_hop(h: HopV) -> Seq<u8> {
    (match h.public_key {
        Some(k) => spec_enc_bool(true) + spec_enc_bytes(k),
        None => spec_enc_bool(false),
    }) + seq![component_byte(h.component)]
}

/// What decoding a whole buffer as one hop yields.
pub open spec fn spec_dec_hop(s: Seq<u8>) -> Option<HopV> {
    match spec_dec_bool(s, 0) {
        Some((true, j)) => {
            match spec_dec_bytes(s, j) {
                Some((k, j2)) => {
                    if j2 + 1 == s.len() {
                        match byte_component(s[j2]) {
                            Some(c) => Some(HopV { public_key: Some(k), component: c }),
                            None => None,
                        }
                    } else {
                        None
                    }
                },
                None => None,
            }
        },
        Some((false, j)) => {
            if j + 1 == s.len() {
                match byte_component(s[j]) {
                    Some(c) => Some(HopV { public_key: None, component: c }),
                    None => None,
                }
            } else {
                None
            }
        },
        None => None,
    }
}

fn component_to_byte(c: Component) -> (r: u8)
    ensures
        r == component_byte(c),
{
    match c {
        Component::Neighborhood => 0,
        Component::Hopper => 1,
        Component::ProxyServer => 2,
        Component::ProxyClient => 3,
    }
}

/// Encodes one hop for encryption.
pub fn enc_hop(h: &Hop) -> (r: Vec<u8>)
    ensures
        r@ == spec_enc_hop(h@),
{
    let mut out: Vec<u8> = Vec::new();
    match &h.public_key {
        Some(k) => {
            enc_bool(&mut out, true);
            enc_bytes(&mut out, &k.data);
        },
        None => {
            enc_bool(&mut out, false);
        },
    }
    out.push(component_to_byte(h.component));
    proof {
        assert(out@ =~= spec_enc_hop(h@));
    }
    out
}

/// Decodes one hop from a whole decrypted buffer.
pub fn dec_hop(buf: &Vec<u8>) -> (r: Option<Hop>)
    ensures
        match r {
            Some(h) => spec_dec_hop(buf@) == Some(h@),
            None => spec_dec_hop(buf@) is None,
        },
{
    match dec_bool(buf, 0) {
        Some((true, j)) => {
            match dec_bytes(buf, j) {
                Some((k, j2)) => {
                    if j2 >= buf.len() {
                        return None;
                    }
                    if j2 + 1 != buf.len() {
                        return None;
                    }
                    let cb = buf[j2];
                    let c = if cb == 0 {
                        Component::Neighborhood
                    } else if cb == 1 {
                        Component::Hopper
                    } else if cb == 2 {
                        Component::ProxyServer
                    } else if cb == 3 {
                        Component::ProxyClient
                    } else {
                        return None;
                    };
                    let h = Hop { public_key: Some(Key { data: k }), component: c };
                    proof {
                        assert(spec_dec_hop(buf@) == Some(h@));
                    }
                    Some(h)
                },
                None => None,
            }
        },
        Some((false, j)) => {
            if j >= buf.len() {
                return None;
            }
            if j + 1 != buf.len() {
                return None;
            }
            let cb = buf[j];
            let c = if cb == 0 {
                Component::Neighborhood
            } else if cb == 1 {
                Component::Hopper
            } else if cb == 2 {
                Component::ProxyServer
            } else if cb == 3 {
                Component::ProxyClient
            } else {
                return None;
            };
            let h = Hop { public_key: None, component: c };
            proof {
                assert(spec_dec_hop(buf@) == Some(h@));
            }
            Some(h)
        },
        None => None,
    }
}

/// Round trip for hops.
pub proof fn lemma_dec_enc_hop(h: HopV)
    requires
        h.public_key is Some ==> h.public_key->0.len() <= u64::MAX,
    ensures
        spec_dec_hop(spec_enc_hop(h)) == Some(h),
{
    let s = spec_enc_hop(h);
    match h.public_key {
        Some(k) => {
            let e1 = spec_enc_bool(true);
            let e2 = spec_enc_bytes(k);
            assert(s =~= e1 + (e2 + seq![component_byte(h.component)]));
            assert(s.subrange(0, s.len() as int) =~= s);
            lemma_subrange_concat(s, 0, e1, e2 + seq![component_byte(h.component)]);
            lemma_subrange_concat(s, 1, e2, seq![component_byte(h.component)]);
            lemma_dec_enc_bool(s, 0, true);
            lemma_dec_enc_bytes(s, 1, k);
            assert(s[(1 + e2.len()) as int] == component_byte(h.component)) by {
                assert(s.subrange(
                    (1 + e2.len()) as int,
                    (1 + e2.len() + 1) as int,
                )[0] == component_byte(h.component));
            }
            assert(spec_dec_hop(s) == Some(h) || spec_dec_hop(s) is None);
            assert(byte_component(component_byte(h.component)) == Some(h.component));
            assert(spec_dec_hop(s)->0 =~= h);
        },
        None => {
            let e1 = spec_enc_bool(false);
            assert(s =~= e1 + seq![component_byte(h.component)]);
            assert(s.subrange(0, s.len() as int) =~= s);
            lemma_subrange_concat(s, 0, e1, seq![component_byte(h.component)]);
            lemma_dec_enc_bool(s, 0, false);
            assert(s[1] == component_byte(h.component)) by {
                assert(s.subrange(1, 2)[0] == component_byte(h.component));
            }
            assert(byte_component(component_byte(h.component)) == Some(h.component));
            assert(spec_dec_hop(s)->0 =~= h);
        },
    }
}

/// One leg of a route: the relay keys it traverses and the component that
/// receives traffic at its end.
#[derive(Debug)]
pub struct RouteSegment {
    pub keys: Vec<Key>,
    pub component: Component,
}

/// The mathematical value of a `RouteSegment`.
#[verifier::ext_equal]
pub ghost struct SegmentV {
    pub keys: Seq<Seq<u8>>,
    pub component: Component,
}

impl View for RouteSegment {
    type V = SegmentV;

    open spec fn view(&self) -> SegmentV {
        SegmentV { keys: self.keys.deep_view(), component: self.component }
    }
}

impl vstd::view::DeepView for RouteSegment {
    type V = SegmentV;

    open spec fn deep_view(&self) -> SegmentV {
        self@
    }
}

impl RouteSegment {
    pub fn new(keys: &Vec<Key>, component: Component) -> (r: RouteSegment)
        ensures
            r@ == (SegmentV { keys: keys.deep_view(), component }),
    {
        RouteSegment { keys: clone_keys(keys), component }
    }
}

/// Joining one more segment onto gathered keys and per-key components: the
/// joint relay (the segment's head equal to the gathered tail) is not
/// repeated.
pub open spec fn spec_join_step(
    acc: (Seq<Seq<u8>>, Seq<Component>),
    seg: SegmentV,
) -> (Seq<Seq<u8>>, Seq<Component>) {
    let added = if acc.0.len() > 0 && seg.keys.len() > 0 && seg.keys[0] == acc.0.last() {
        seg.keys.drop_first()
    } else {
        seg.keys
    };
    (acc.0 + added, acc.1 + Seq::new(added.len(), |i: int| seg.component))
}

/// The keys of a whole segment list, with the component each key belongs
/// to.
pub open spec fn spec_join_segments(segs: Seq<SegmentV>) -> (Seq<Seq<u8>>, Seq<Component>)
    decreases segs.len(),
{
    if segs.len() == 0 {
        (Seq::empty(), Seq::empty())
    } else {
        spec_join_step(spec_join_segments(segs.drop_last()), segs.last())
    }
}

/// The hop carried at position `i` of a joined key list: the next relay's
/// key and its component, or the terminal marker.
pub open spec fn spec_hop_at(keys: Seq<Seq<u8>>, comps: Seq<Component>, i: int) -> HopV {
    if i + 1 < keys.len() {
        HopV { public_key: Some(keys[i + 1]), component: comps[i + 1] }
    } else {
        HopV { public_key: None, component: comps[i] }
    }
}

/// The encrypted hops from position `i` on: each hop's plaintext encoding
/// is encrypted to the relay that will peel it.
pub open spec fn spec_build_hops<C: CryptDe>(
    c: C,
    keys: Seq<Seq<u8>>,
    comps: Seq<Component>,
    i: int,
) -> Option<Seq<Seq<u8>>>
    decreases keys.len() - i,
{
    if i < 0 || i >= keys.len() {
        Some(Seq::empty())
    } else {
        match c.encode_spec(keys[i], spec_enc_hop(spec_hop_at(keys, comps, i))) {
            Some(cipher) => {
                match spec_build_hops(c, keys, comps, i + 1) {
                    Some(rest) => Some(seq![cipher] + rest),
                    None => None,
                }
            },
            None => None,
        }
    }
}

/// Why a route could not be built.
#[derive(Clone, Copy, Debug, PartialEq, Eq, Structural)]
pub enum RouteError {
    EmptyRoute,
    TooFewKeys,
    EncryptFailed,
}

/// The ordered list of encrypted hops a package travels along.
#[derive(Debug)]
pub struct Route {
    pub hops: Vec<CryptData>,
}

impl View for Route {
    type V = Seq<Seq<u8>>;

    open spec fn view(&self) -> Seq<Seq<u8>> {
        self.hops.deep_view()
    }
}

impl Clone for Route {
    fn clone(&self) -> (r: Self)
        ensures
            r@ == self@,
    {
        let mut hops: Vec<CryptData> = Vec::new();
        let n = self.hops.len();
        let mut i: usize = 0;
        while i < n
            invariant
                n == self.hops@.len(),
                0 <= i <= n,
                hops.deep_view() =~= self@.take(i as int),
            decreases n - i,
        {
            let ghost prev = hops.deep_view();
            hops.push(self.hops[i].clone());
            proof {
                assert(hops.deep_view() =~= prev.push(self@[i as int]));
                assert(hops.deep_view() =~= self@.take(i + 1 as int));
            }
            i = i + 1;
        }
        proof {
            assert(self@.take(n as int) =~= self@);
        }
        Route { hops }
    }
}

impl PartialEq for Route {
    fn eq(&self, other: &Self) -> (r: bool) {
        if self.hops.len() != other.hops.len() {
            assert(self@.len() != other@.len());
            return false;
        }
        let n = self.hops.len();
        let mut i: usize = 0;
        while i < n
            invariant
                n == self.hops@.len() == other.hops@.len(),
                0 <= i <= n,
                forall|j: int| 0 <= j < i ==> self@[j] == other@[j],
            decreases n - i,
        {
            if !crate::cryptde::bytes_equal(&self.hops[i].data, &other.hops[i].data) {
                assert(self@[i as int] != other@[i as int]);
                return false;
            }
            i = i + 1;
        }
        proof {
            assert(self@ =~= other@);
        }
        true
    }
}

impl vstd::std_specs::cmp::PartialEqSpecImpl for Route {
    open spec fn obeys_eq_spec() -> bool {
        true
    }

    open spec fn eq_spec(&self, other: &Self) -> bool {
        self@ == other@
    }
}

impl Route {
    /// Builds a route from one or more segments: the segments' keys are
    /// joined (the shared relay between adjacent segments is not repeated)
    /// and one encrypted hop is produced per relay, ending in a terminal
    /// marker.
    pub fn new<C: CryptDe>(segments: &Vec<RouteSegment>, cryptde: &C) -> (r: Result<
        Route,
        RouteError,
    >)
        ensures
            ({
                let (keys, comps) = spec_join_segments(segments.deep_view());
                if segments.deep_view().len() == 0 {
                    r matches Err(e) && e == RouteError::EmptyRoute
                } else if keys.len() < 2 {
                    r matches Err(e) && e == RouteError::TooFewKeys
                } else {
                    match spec_build_hops(*cryptde, keys, comps, 0) {
                        Some(hops) => r matches Ok(route) && route@ == hops,
                        None => r matches Err(e) && e == RouteError::EncryptFailed,
                    }
                }
            }),
    {
        if segments.len() == 0 {
            return Err(RouteError::EmptyRoute);
        }
        let mut keys: Vec<Key> = Vec::new();
        let mut comps: Vec<Component> = Vec::new();
        let ns = segments.len();
        let mut s: usize = 0;
        while s < ns
            invariant
                ns == segments@.len(),
                0 <= s <= ns,
                keys@.len() == comps@.len(),
                (keys.deep_view(), comps@) == spec_join_segments(
                    segments.deep_view().take(s as int),
                ),
            decreases ns - s,
        {
            let seg = &segments[s];
            let ghost pre_keys = keys.deep_view();
            let ghost pre_comps = comps@;
            let overlap = keys.len() > 0 && seg.keys.len() > 0 && crate::cryptde::bytes_equal(
                &seg.keys[0].data,
                &keys[keys.len() - 1].data,
            );
            let start: usize = if overlap {
                1
            } else {
                0
            };
            let nk = seg.keys.len();
            let mut k = start;
            while k < nk
                invariant
                    nk == seg.keys@.len(),
                    start <= k <= nk,
                    start <= nk || start == k,
                    keys@.len() == comps@.len(),
                    keys.deep_view() =~= pre_keys + seg@.keys.subrange(start as int, k as int),
                    comps@ =~= pre_comps + Seq::new((k - start) as nat, |i: int| seg@.component),
                decreases nk - k,
            {
                let ghost pk = keys.deep_view();
                let ghost pc = comps@;
                keys.push(seg.keys[k].clone());
                comps.push(seg.component);
                proof {
                    assert(keys.deep_view() =~= pk.push(seg@.keys[k as int]));
                    assert(keys.deep_view() =~= pre_keys + seg@.keys.subrange(
                        start as int,
                        k + 1 as int,
                    ));
                    assert(comps@ =~= pre_comps + Seq::new(
                        (k + 1 - start) as nat,
                        |i: int| seg@.component,
                    ));
                }
                k = k + 1;
            }
            proof {
                let ghost step = spec_join_step(
                    (pre_keys, pre_comps),
                    segments.deep_view()[s as int],
                );
                if overlap {
                    assert(seg@.keys.subrange(1, nk as int) =~= seg@.keys.drop_first());
                } else {
                    assert(seg@.keys.subrange(0, nk as int) =~= seg@.keys);
                }
                assert(keys.deep_view() =~= step.0);
                assert(comps@ =~= step.1);
                assert(segments.deep_view().take(s + 1 as int).drop_last() =~= segments.deep_view()
                    .take(s as int));
                assert(segments.deep_view().take(s + 1 as int).last() == segments.deep_view()[
                    s as int
                ]);
            }
            s = s + 1;
        }
        proof {
            assert(segments.deep_view().take(ns as int) =~= segments.deep_view());
        }
        if keys.len() < 2 {
            return Err(RouteError::TooFewKeys);
        }
        let n = keys.len();
        let mut hops: Vec<CryptData> = Vec::new();
        let mut i: usize = 0;
        while i < n
            invariant
                n == keys@.len(),
                n == comps@.len(),
                n >= 2,
                0 <= i <= n,
                (keys.deep_view(), comps@) == spec_join_segments(segments.deep_view()),
                match spec_build_hops(*cryptde, keys.deep_view(), comps@, i as int) {
                    Some(rest) => spec_build_hops(*cryptde, keys.deep_view(), comps@, 0) == Some(
                        hops.deep_view() + rest,
                    ),
                    None => spec_build_hops(*cryptde, keys.deep_view(), comps@, 0) is None,
                },
            decreases n - i,
        {
            let next_key: Option<&Key> = if i + 1 < n {
                Some(&keys[i + 1])
            } else {
                None
            };
            let comp = if i + 1 < n {
                comps[i + 1]
            } else {
                comps[i]
            };
            let hop = Hop::new(next_key, comp);
            proof {
                assert(hop@ =~= spec_hop_at(keys.deep_view(), comps@, i as int));
            }
            let plain_bytes = enc_hop(&hop);
            let cipher = match cryptde.encode(&keys[i], &PlainData { data: plain_bytes }) {
                Some(c) => c,
                None => {
                    return Err(RouteError::EncryptFailed);
                },
            };
            let ghost prev = hops.deep_view();
            let ghost rest_r = spec_build_hops(*cryptde, keys.deep_view(), comps@, i + 1);
            hops.push(cipher);
            proof {
                assert(hops.deep_view() =~= prev.push(hops@.last()@));
                if rest_r is Some {
                    let rest = rest_r->0;
                    assert(prev.push(hops.deep_view().last()) + rest =~= prev + (seq![
                        hops.deep_view().last(),
                    ] + rest));
                }
            }
            i = i + 1;
        }
        proof {
            assert(hops.deep_view() + Seq::<Seq<u8>>::empty() =~= hops.deep_view());
        }
        Ok(Route { hops })
    }

    /// What peeling the leading hop yields: its decrypted instruction and
    /// the remaining route.
    pub open spec fn spec_shift<C: CryptDe>(c: C, r: Seq<Seq<u8>>) -> Option<
        (HopV, Seq<Seq<u8>>),
    > {
        if r.len() == 0 {
            None
        } else {
            match c.decode_spec(r[0]) {
                Some(plain) => {
                    match spec_dec_hop(plain) {
                        Some(h) => Some((h, r.drop_first())),
                        None => None,
                    }
                },
                None => None,
            }
        }
    }

    /// Peels the leading hop: decrypts it under the local key and yields
    /// the instruction and the remaining route.
    pub fn shift<C: CryptDe>(&self, cryptde: &C) -> (r: Option<(Hop, Route)>)
        ensures
            match r {
                Some((h, rest)) => Self::spec_shift(*cryptde, self@) == Some((h@, rest@)),
                None => Self::spec_shift(*cryptde, self@) is None,
            },
    {
        if self.hops.len() == 0 {
            return None;
        }
        let plain = match cryptde.decode(&self.hops[0]) {
            Some(p) => p,
            None => {
                return None;
            },
        };
        let hop = match dec_hop(&plain.data) {
            Some(h) => h,
            None => {
                return None;
            },
        };
        let mut rest: Vec<CryptData> = Vec::new();
        let n = self.hops.len();
        let mut i: usize = 1;
        while i < n
            invariant
                n == self.hops@.len(),
                1 <= i <= n,
                rest.deep_view() =~= self@.subrange(1, i as int),
            decreases n - i,
        {
            let ghost prev = rest.deep_view();
            rest.push(self.hops[i].clone());
            proof {
                assert(rest.deep_view() =~= prev.push(self@[i as int]));
                assert(rest.deep_view() =~= self@.subrange(1, i + 1 as int));
            }
            i = i + 1;
        }
        proof {
            assert(self@.subrange(1, n as int) =~= self@.drop_first());
        }
        Some((hop, Route { hops: rest }))
    }
}

} // verus!
