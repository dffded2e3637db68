use vstd::prelude::*;
use crate::codec::spec_enc_u64;
use crate::codec::spec_enc_bytes;
use crate::codec::spec_dec_u64;
use crate::codec::spec_dec_bytes;
use crate::codec::enc_u64;
use crate::codec::enc_bytes;
use crate::codec::dec_u64;
use crate::codec::dec_bytes;
use crate::codec::lemma_dec_enc_u64;
use crate::codec::lemma_dec_enc_bytes;
use crate::codec::lemma_subrange_concat;
use crate::cryptde::Key;
use crate::cryptde::CryptData;
use crate::cryptde::PlainData;
use crate::cryptde::CryptDe;
use crate::cryptde::clone_bytes;
use crate::masquerader::JsonMasquerader;
use crate::masquerader::spec_mask;
use crate::masquerader::spec_unmask;
use crate::masquerader::lemma_mask_round_trip;
use crate::node_addr::IpAddr;
use crate::record_codec::spec_enc_keys_list;
use crate::record_codec::spec_dec_keys_list;
use crate::record_codec::dec_keys;
use crate::record_codec::lemma_dec_enc_keys_list;
use crate::record_codec::lemma_enc_keys_list_push;
use crate::route::Route;
use crate::route::HopV;
use crate::route::spec_enc_hop;
use crate::route::lemma_dec_enc_hop;

verus! {

// The CORES package pipeline: an outgoing message plus its chosen route
// becomes a live package (first hop peeled, payload encrypted to its
// destination), is serialized, encrypted to the next relay, and masqueraded
// for the stream; the receiving side inverts each step.

/// A new CORES package about to be sent: the route, the already-serialized
/// payload, and the key the payload will be encrypted to. Typed payloads
/// are serialized by the sender before they reach the pipeline.
#[derive(Debug)]
pub struct IncipientCoresPackage {
    pub route: Route,
    pub payload: PlainData,
    pub payload_destination_key: Key,
}

/// The mathematical value of an `IncipientCoresPackage`.
#[verifier::ext_equal]
pub ghost struct IncipientV {
    pub route: Seq<Seq<u8>>,
    pub payload: Seq<u8>,
    pub payload_destination_key: Seq<u8>,
}

impl View for IncipientCoresPackage {
    type V = IncipientV;

    open spec fn view(&self) -> IncipientV {
        IncipientV {
            route: self.route@,
            payload: self.payload@,
            payload_destination_key: self.payload_destination_key@,
        }
    }
}

impl IncipientCoresPackage {
    pub fn new(route: Route, payload: PlainData, payload_destination_key: &Key) -> (r:
        IncipientCoresPackage)
        ensures
            r@ == (IncipientV {
                route: route@,
                payload: payload@,
                payload_destination_key: payload_destination_key@,
            }),
    {
        let r = IncipientCoresPackage {
            route,
            payload,
            payload_destination_key: payload_destination_key.clone(),
        };
        proof {
            assert(r@ =~= (IncipientV {
                route: r.route@,
                payload: r.payload@,
                payload_destination_key: payload_destination_key@,
            }));
        }
        r
    }
}

/// The on-wire form of a package between relays: the remaining route and
/// the payload encrypted to its final destination.
#[derive(Debug)]
pub struct LiveCoresPackage {
    pub route: Route,
    pub payload: CryptData,
}

/// The mathematical value of a `LiveCoresPackage`.
#[verifier::ext_equal]
pub ghost struct LiveV {
    pub route: Seq<Seq<u8>>,
    pub payload: Seq<u8>,
}

impl View for LiveCoresPackage {
    type V = LiveV;

    open spec fn view(&self) -> LiveV {
        LiveV { route: self.route@, payload: self.payload@ }
    }
}

impl Clone for LiveCoresPackage {
    fn clone(&self) -> (r: Self)
        ensures
            r@ == self@,
    {
        let r = LiveCoresPackage {
            route: self.route.clone(),
            payload: self.payload.clone(),
        };
        proof {
            assert(r@ =~= self@);
        }
        r
    }
}

/// A package that has reached the end of its route: the remaining (terminal)
/// route and the decrypted, still-serialized payload. Typed deserialization
/// of the payload is the consumer's concern and must be validated there.
#[derive(Debug)]
pub struct ExpiredCoresPackage {
    pub remaining_route: Route,
    pub payload: PlainData,
}

/// The mathematical value of an `ExpiredCoresPackage`.
#[verifier::ext_equal]
pub ghost struct ExpiredV {
    pub remaining_route: Seq<Seq<u8>>,
    pub payload: Seq<u8>,
}

impl View for ExpiredCoresPackage {
    type V = ExpiredV;

    open spec fn view(&self) -> ExpiredV {
        ExpiredV { remaining_route: self.remaining_route@, payload: self.payload@ }
    }
}

impl ExpiredCoresPackage {
    pub fn new(remaining_route: Route, payload: PlainData) -> (r: ExpiredCoresPackage)
        ensures
            r@ == (ExpiredV { remaining_route: remaining_route@, payload: payload@ }),
    {
        let r = ExpiredCoresPackage { remaining_route, payload };
        proof {
            assert(r@ =~= (ExpiredV {
                remaining_route: r.remaining_route@,
                payload: r.payload@,
            }));
        }
        r
    }

    /// Hands the raw payload bytes to the consumer.
    pub fn payload_data(self) -> (r: PlainData)
        ensures
            r@ == self@.payload,
    {
        self.payload
    }
}

/// An expired package together with the IP it arrived from.
#[derive(Debug)]
pub struct ExpiredCoresPackagePackage {
    pub expired_cores_package: ExpiredCoresPackage,
    pub sender_ip: IpAddr,
}

/// What converting an incipient package to a live one yields: the first hop
/// peeled (confirming the originator can address the route's head), the
/// payload encrypted to its destination, and the next relay's key.
pub open spec fn spec_from_incipient<C: CryptDe>(c: C, package: IncipientV) -> Option<
    (LiveV, Seq<u8>),
> {
    match Route::spec_shift(c, package.route) {
        Some((hop, rest)) => {
            match hop.public_key {
                Some(next_key) => {
                    match c.encode_spec(package.payload_destination_key, package.payload) {
                        Some(cipher) => Some((LiveV { route: rest, payload: cipher }, next_key)),
                        None => None,
                    }
                },
                None => None,
            }
        },
        None => None,
    }
}

/// What expiring a live package at the route's end yields: its payload
/// decrypted under the local key.
pub open spec fn spec_to_expired<C: CryptDe>(c: C, live: LiveV) -> Option<ExpiredV> {
    match c.decode_spec(live.payload) {
        Some(plain) => Some(ExpiredV { remaining_route: live.route, payload: plain }),
        None => None,
    }
}

/// The canonical bytes of a live package: hop count, hops, payload.
pub open spec fn spec_enc_live(l: LiveV) -> Seq<u8> {
    spec_enc_u64(l.route.len() as u64) + spec_enc_keys_list(l.route) + spec_enc_bytes(l.payload)
}

/// What deserializing a whole buffer as a live package yields.
pub open spec fn spec_dec_live(s: Seq<u8>) -> Option<LiveV> {
    match spec_dec_u64(s, 0) {
        Some((count, j)) => {
            match spec_dec_keys_list(s, j, count as nat) {
                Some((hops, j2)) => {
                    match spec_dec_bytes(s, j2) {
                        Some((payload, j3)) => {
                            if j3 == s.len() {
                                Some(LiveV { route: hops, payload })
                            } else {
                                None
                            }
                        },
                        None => None,
                    }
                },
                None => None,
            }
        },
        None => None,
    }
}

impl LiveCoresPackage {
    pub fn new(route: Route, payload: CryptData) -> (r: LiveCoresPackage)
        ensures
            r@ == (LiveV { route: route@, payload: payload@ }),
    {
        let r = LiveCoresPackage { route, payload };
        proof {
            assert(r@ =~= (LiveV { route: r.route@, payload: r.payload@ }));
        }
        r
    }

    /// Peels the first hop off an incipient package's route (decrypting it
    /// under the local key) and encrypts the payload to its destination,
    /// yielding the live package and the next relay's key.
    pub fn from_incipient<C: CryptDe>(package: IncipientCoresPackage, cryptde: &C) -> (r: Option<
        (LiveCoresPackage, Key),
    >)
        ensures
            match r {
                Some((live, next)) => spec_from_incipient(*cryptde, package@) == Some(
                    (live@, next@),
                ),
                None => spec_from_incipient(*cryptde, package@) is None,
            },
    {
        let (hop, rest) = match package.route.shift(cryptde) {
            Some(x) => x,
            None => {
                return None;
            },
        };
        let next_key = match hop.public_key {
            Some(k) => k,
            None => {
                return None;
            },
        };
        let cipher = match cryptde.encode(&package.payload_destination_key, &package.payload) {
            Some(c) => c,
            None => {
                return None;
            },
        };
        Some((LiveCoresPackage { route: rest, payload: cipher }, next_key))
    }

    /// Expires this package at the route's end: decrypts the payload under
    /// the local key.
    pub fn to_expired<C: CryptDe>(self, cryptde: &C) -> (r: Option<ExpiredCoresPackage>)
        ensures
            match r {
                Some(e) => spec_to_expired(*cryptde, self@) == Some(e@),
                None => spec_to_expired(*cryptde, self@) is None,
            },
    {
        let plain = match cryptde.decode(&self.payload) {
            Some(p) => p,
            None => {
                return None;
            },
        };
        Some(ExpiredCoresPackage { remaining_route: self.route, payload: plain })
    }

    /// Serializes the live package under the canonical encoding.
    pub fn serialize(&self) -> (r: Vec<u8>)
        ensures
            r@ == spec_enc_live(self@),
    {
        let mut out: Vec<u8> = Vec::new();
        enc_u64(&mut out, self.route.hops.len() as u64);
        let ghost mid = out@;
        let n = self.route.hops.len();
        let mut i: usize = 0;
        while i < n
            invariant
                n == self.route.hops@.len(),
                0 <= i <= n,
                out@ == mid + spec_enc_keys_list(self@.route.take(i as int)),
            decreases n - i,
        {
            proof {
                assert(spec_enc_keys_list(self@.route.take(0int)) =~= Seq::<u8>::empty());
            }
            enc_bytes(&mut out, &self.route.hops[i].data);
            proof {
                lemma_enc_keys_list_push(self@.route.take(i as int), self@.route[i as int]);
                assert(self@.route.take(i as int).push(self@.route[i as int]) =~= self@.route.take(
                    i + 1,
                ));
                assert(out@ =~= mid + spec_enc_keys_list(self@.route.take(i + 1)));
            }
            i = i + 1;
        }
        proof {
            assert(self@.route.take(n as int) =~= self@.route);
        }
        enc_bytes(&mut out, &self.payload.data);
        proof {
            assert(out@ =~= spec_enc_live(self@));
        }
        out
    }

    /// Reads a live package back from its canonical bytes; refuses a buffer
    /// that is not exactly one encoded package.
    pub fn deserialize(buf: &Vec<u8>) -> (r: Option<LiveCoresPackage>)
        ensures
            match r {
                Some(l) => spec_dec_live(buf@) == Some(l@),
                None => spec_dec_live(buf@) is None,
            },
    {
        let (count, j) = match dec_u64(buf, 0) {
            Some(x) => x,
            None => {
                return None;
            },
        };
        let (hop_keys, j2) = match dec_keys(buf, j, count) {
            Some(x) => x,
            None => {
                return None;
            },
        };
        let (payload, j3) = match dec_bytes(buf, j2) {
            Some(x) => x,
            None => {
                return None;
            },
        };
        if j3 != buf.len() {
            return None;
        }
        let mut hops: Vec<CryptData> = Vec::new();
        let nk = hop_keys.len();
        let mut i: usize = 0;
        while i < nk
            invariant
                nk == hop_keys@.len(),
                0 <= i <= nk,
                hops.deep_view() =~= hop_keys.deep_view().take(i as int),
            decreases nk - i,
        {
            let ghost prev = hops.deep_view();
            hops.push(CryptData { data: clone_bytes(&hop_keys[i].data) });
            proof {
                assert(hops.deep_view() =~= prev.push(hop_keys.deep_view()[i as int]));
                assert(hops.deep_view() =~= hop_keys.deep_view().take(i + 1 as int));
            }
            i = i + 1;
        }
        proof {
            assert(hop_keys.deep_view().take(nk as int) =~= hop_keys.deep_view());
        }
        let l = LiveCoresPackage { route: Route { hops }, payload: CryptData { data: payload } };
        proof {
            assert(spec_dec_live(buf@) == Some(l@));
        }
        Some(l)
    }
}

/// Whether a live package value is small enough to encode.
pub open spec fn live_encodable(l: LiveV) -> bool {
    &&& l.route.len() <= u64::MAX
    &&& (forall|i: int| 0 <= i < l.route.len() ==> (#[trigger] l.route[i]).len() <= u64::MAX)
    &&& l.payload.len() <= u64::MAX
}

/// Round trip: deserializing a serialized live package restores it.
pub proof fn lemma_dec_enc_live(l: LiveV)
    requires
        live_encodable(l),
    ensures
        spec_dec_live(spec_enc_live(l)) == Some(l),
{
    let s = spec_enc_live(l);
    let e0 = spec_enc_u64(l.route.len() as u64);
    let e1 = spec_enc_keys_list(l.route);
    let e2 = spec_enc_bytes(l.payload);
    assert(s == (e0 + e1) + e2);
    assert(s.subrange(0, s.len() as int) =~= s);
    lemma_subrange_concat(s, 0, e0 + e1, e2);
    lemma_subrange_concat(s, 0, e0, e1);
    lemma_dec_enc_u64(s, 0, l.route.len() as u64);
    lemma_dec_enc_keys_list(s, 8, l.route);
    lemma_dec_enc_bytes(s, (8 + e1.len()) as int, l.payload);
    assert((l.route.len() as u64) as nat == l.route.len());
    assert(spec_dec_live(s) == Some(LiveV { route: l.route, payload: l.payload }));
    assert(LiveV { route: l.route, payload: l.payload } =~= l);
}

/// Serializes a live package and wraps it for the stream.
pub fn masquerade_live_cores_package(
    live_cores_package: &LiveCoresPackage,
    masquerader: &JsonMasquerader,
) -> (r: Vec<u8>)
    ensures
        r@ == spec_mask(spec_enc_live(live_cores_package@)),
{
    let serialized = live_cores_package.serialize();
    masquerader.mask(&serialized)
}

/// What the full outbound transformation yields: incipient to live,
/// serialized, encrypted to the recipient, masqueraded.
pub open spec fn spec_package_to_wire<C: CryptDe>(
    c: C,
    package: IncipientV,
    recipient_key: Seq<u8>,
) -> Option<Seq<u8>> {
    match spec_from_incipient(c, package) {
        Some((live, next)) => {
            match c.encode_spec(recipient_key, spec_enc_live(live)) {
                Some(cipher) => Some(spec_mask(cipher)),
                None => None,
            }
        },
        None => None,
    }
}

/// The computational half of transmitting a package: everything between an
/// incipient package and the bytes handed to the transport.
pub fn package_to_wire<C: CryptDe>(
    package: IncipientCoresPackage,
    cryptde: &C,
    masquerader: &JsonMasquerader,
    recipient_key: &Key,
) -> (r: Option<Vec<u8>>)
    ensures
        match r {
            Some(bytes) => spec_package_to_wire(*cryptde, package@, recipient_key@) == Some(
                bytes@,
            ),
            None => spec_package_to_wire(*cryptde, package@, recipient_key@) is None,
        },
{
    let (live, _next) = match LiveCoresPackage::from_incipient(package, cryptde) {
        Some(x) => x,
        None => {
            return None;
        },
    };
    let serialized = live.serialize();
    let cipher = match cryptde.encode(recipient_key, &PlainData { data: serialized }) {
        Some(c) => c,
        None => {
            return None;
        },
    };
    Some(masquerader.mask(&cipher.data))
}

/// What the inbound transformation yields: one envelope unmasked off the
/// stream, decrypted under the local key, deserialized; plus the stream
/// bytes that remain.
pub open spec fn spec_wire_to_live<C: CryptDe>(c: C, s: Seq<u8>) -> Option<(LiveV, Seq<u8>)> {
    match spec_unmask(s) {
        Some((chunk, remaining)) => {
            match c.decode_spec(chunk) {
                Some(plain) => {
                    match spec_dec_live(plain) {
                        Some(live) => Some((live, remaining)),
                        None => None,
                    }
                },
                None => None,
            }
        },
        None => None,
    }
}

/// The computational half of receiving a package: everything between the
/// bytes taken off the transport and the live package.
pub fn wire_to_live<C: CryptDe>(
    data: &Vec<u8>,
    cryptde: &C,
    masquerader: &JsonMasquerader,
) -> (r: Option<(LiveCoresPackage, Vec<u8>)>)
    ensures
        match r {
            Some((live, remaining)) => spec_wire_to_live(*cryptde, data@) == Some(
                (live@, remaining@),
            ),
            None => spec_wire_to_live(*cryptde, data@) is None,
        },
{
    let (chunk, remaining) = match masquerader.try_unmask(data) {
        Some(x) => x,
        None => {
            return None;
        },
    };
    let plain = match cryptde.decode(&CryptData { data: chunk }) {
        Some(p) => p,
        None => {
            return None;
        },
    };
    let live = match LiveCoresPackage::deserialize(&plain.data) {
        Some(l) => l,
        None => {
            return None;
        },
    };
    Some((live, remaining))
}

/// Law: the full pipeline round trip. For an incipient package whose first
/// hop and payload are encrypted to this node's own key, converting it to a
/// live package, serializing, encrypting, masquerading, and then undoing
/// each step and expiring the package yields exactly the expected expired
/// package: the route minus its first hop, and the original payload.
pub proof fn lemma_cores_round_trip<C: CryptDe>(c: C, package: IncipientV, h0: HopV)
    requires
        package.route.len() >= 1,
        package.route.len() <= u64::MAX,
        forall|i: int| 1 <= i < package.route.len() ==> (#[trigger] package.route[i]).len()
            <= u64::MAX,
        h0.public_key is Some,
        h0.public_key->0.len() <= u64::MAX,
        package.route[0] == c.encode_spec(c.public_key_spec(), spec_enc_hop(h0))->0,
        c.encode_spec(c.public_key_spec(), spec_enc_hop(h0)) is Some,
        package.payload_destination_key == c.public_key_spec(),
        c.encode_spec(c.public_key_spec(), package.payload) is Some ==> c.encode_spec(
            c.public_key_spec(),
            package.payload,
        )->0.len() <= u64::MAX,
    ensures
        spec_from_incipient(c, package) is Some,
        ({
            let (live, next) = spec_from_incipient(c, package)->0;
            &&& next == h0.public_key->0
            &&& c.encode_spec(c.public_key_spec(), spec_enc_live(live)) is Some
            &&& spec_wire_to_live(
                c,
                spec_mask(c.encode_spec(c.public_key_spec(), spec_enc_live(live))->0),
            ) == Some((live, Seq::<u8>::empty()))
            &&& spec_to_expired(c, live) == Some(
                ExpiredV {
                    remaining_route: package.route.drop_first(),
                    payload: package.payload,
                },
            )
        }),
{
    c.lemma_decode_encode(spec_enc_hop(h0));
    assert(c.decode_spec(package.route[0]) == Some(spec_enc_hop(h0)));
    lemma_dec_enc_hop(h0);
    c.lemma_decode_encode(package.payload);
    let payload_cipher = c.encode_spec(c.public_key_spec(), package.payload)->0;
    let live = LiveV { route: package.route.drop_first(), payload: payload_cipher };
    assert(Route::spec_shift(c, package.route) == Some((h0, package.route.drop_first())));
    assert(spec_from_incipient(c, package) == Some((live, h0.public_key->0)));
    c.lemma_decode_encode(spec_enc_live(live));
    let wire_cipher = c.encode_spec(c.public_key_spec(), spec_enc_live(live))->0;
    lemma_mask_round_trip(wire_cipher, Seq::<u8>::empty());
    assert(spec_mask(wire_cipher) + Seq::<u8>::empty() =~= spec_mask(wire_cipher));
    assert(spec_unmask(spec_mask(wire_cipher)) == Some((wire_cipher, Seq::<u8>::empty())));
    assert(live_encodable(live)) by {
        assert(forall|i: int|
            0 <= i < live.route.len() ==> (#[trigger] live.route[i]) == package.route[i + 1]);
    }
    lemma_dec_enc_live(live);
    assert(spec_wire_to_live(c, spec_mask(wire_cipher)) == Some((live, Seq::<u8>::empty())));
    assert(c.decode_spec(live.payload) == Some(package.payload));
    assert(spec_to_expired(c, live)->0 =~= (ExpiredV {
        remaining_route: package.route.drop_first(),
        payload: package.payload,
    }));
}

} // verus!
