use vstd::prelude::*;
use crate::codec::spec_enc_u64;
use crate::codec::spec_dec_u64;
use crate::codec::enc_u64;
use crate::codec::dec_u64;
use crate::codec::lemma_dec_enc_u64;
use crate::codec::lemma_subrange_concat;
use crate::cryptde::Key;
use crate::neighborhood_database::NodeRecord;
use crate::neighborhood_database::NodeRecordInner;
use crate::neighborhood_database::NodeSignatures;
use crate::neighborhood_database::InnerV;
use crate::neighborhood_database::SignaturesV;
use crate::neighborhood_database::RecordV;
use crate::neighborhood_database::keys_contain;
use crate::record_codec::spec_enc_inner;
use crate::record_codec::spec_enc_signatures;
use crate::record_codec::spec_dec_inner;
use crate::record_codec::spec_dec_signatures;
use crate::record_codec::enc_inner;
use crate::record_codec::enc_signatures;
use crate::record_codec::dec_inner;
use crate::record_codec::dec_signatures;
use crate::record_codec::inner_encodable;
use crate::record_codec::lemma_dec_enc_inner;
use crate::record_codec::lemma_dec_enc_signatures;

verus! {

// Gossip: the serializable snapshot of part of the neighborhood that nodes
// exchange, the builder that assembles one, and the canonical wire codec
// with its round-trip law.

/// One record as carried by a gossip message: the inner fields plus the
/// signature pair. The sender may have stripped the address (obscured form).
#[derive(Debug)]
pub struct GossipNodeRecord {
    pub inner: NodeRecordInner,
    pub signatures: NodeSignatures,
}

/// The mathematical value of a `GossipNodeRecord`.
#[verifier::ext_equal]
pub ghost struct GossipNodeRecordV {
    pub inner: InnerV,
    pub signatures: SignaturesV,
}

impl View for GossipNodeRecord {
    type V = GossipNodeRecordV;

    open spec fn view(&self) -> GossipNodeRecordV {
        GossipNodeRecordV { inner: self.inner@, signatures: self.signatures@ }
    }
}

impl vstd::view::DeepView for GossipNodeRecord {
    type V = GossipNodeRecordV;

    open spec fn deep_view(&self) -> GossipNodeRecordV {
        self@
    }
}

impl Clone for GossipNodeRecord {
    fn clone(&self) -> (r: Self)
        ensures
            r@ == self@,
    {
        GossipNodeRecord { inner: self.inner.clone(), signatures: self.signatures.clone() }
    }
}

impl PartialEq for GossipNodeRecord {
    fn eq(&self, other: &Self) -> (r: bool) {
        let r = self.inner == other.inner && self.signatures == other.signatures;
        proof {
            if r {
                assert(self@ =~= other@);
            }
        }
        r
    }
}

impl vstd::std_specs::cmp::PartialEqSpecImpl for GossipNodeRecord {
    open spec fn obeys_eq_spec() -> bool {
        true
    }

    open spec fn eq_spec(&self, other: &Self) -> bool {
        self@ == other@
    }
}

/// What capturing a database record into gossip yields: the address is kept
/// only when the sender elects to reveal it.
pub open spec fn spec_gossip_from(rec: RecordV, reveal_node_addr: bool) -> GossipNodeRecordV {
    GossipNodeRecordV {
        inner: InnerV {
            node_addr_opt: if reveal_node_addr {
                rec.inner.node_addr_opt
            } else {
                None
            },
            ..rec.inner
        },
        signatures: rec.signatures->0,
    }
}

impl GossipNodeRecord {
    /// Captures a signed database record for transmission, revealing or
    /// stripping its address.
    pub fn from(node_record_ref: &NodeRecord, reveal_node_addr: bool) -> (r: GossipNodeRecord)
        requires
            node_record_ref@.signatures is Some,
        ensures
            r@ == spec_gossip_from(node_record_ref@, reveal_node_addr),
    {
        let mut inner = node_record_ref.inner.clone();
        if !reveal_node_addr {
            inner.node_addr_opt = None;
        }
        let signatures = match node_record_ref.signatures() {
            Some(s) => s,
            None => {
                proof {
                    assert(false);
                }
                NodeSignatures::new(
                    crate::cryptde::CryptData { data: Vec::new() },
                    crate::cryptde::CryptData { data: Vec::new() },
                )
            },
        };
        let r = GossipNodeRecord { inner, signatures };
        proof {
            assert(r@ =~= spec_gossip_from(node_record_ref@, reveal_node_addr));
        }
        r
    }

    /// The database record this gossip record stands for.
    pub fn to_node_record(&self) -> (r: NodeRecord)
        ensures
            r@ == (RecordV { inner: self@.inner, signatures: Some(self@.signatures) }),
    {
        let r = NodeRecord { inner: self.inner.clone(), signatures: Some(self.signatures.clone()) };
        proof {
            assert(r@ =~= (RecordV { inner: self@.inner, signatures: Some(self@.signatures) }));
        }
        r
    }
}

/// A serializable snapshot of part of the neighborhood: an ordered list of
/// gossip node records.
#[derive(Debug)]
pub struct Gossip {
    pub node_records: Vec<GossipNodeRecord>,
}

impl View for Gossip {
    type V = Seq<GossipNodeRecordV>;

    open spec fn view(&self) -> Seq<GossipNodeRecordV> {
        self.node_records.deep_view()
    }
}

impl Clone for Gossip {
    fn clone(&self) -> (r: Self)
        ensures
            r@ == self@,
    {
        let mut records: Vec<GossipNodeRecord> = Vec::new();
        let n = self.node_records.len();
        let mut i: usize = 0;
        while i < n
            invariant
                n == self.node_records.len(),
                0 <= i <= n,
                records.deep_view() =~= self@.take(i as int),
            decreases n - i,
        {
            let ghost prev = records.deep_view();
            records.push(self.node_records[i].clone());
            proof {
                assert(records.deep_view() =~= prev.push(self@[i as int]));
                assert(records.deep_view() =~= self@.take(i + 1 as int));
            }
            i = i + 1;
        }
        proof {
            assert(self@.take(n as int) =~= self@);
        }
        Gossip { node_records: records }
    }
}

impl PartialEq for Gossip {
    fn eq(&self, other: &Self) -> (r: bool) {
        if self.node_records.len() != other.node_records.len() {
            assert(self@.len() != other@.len());
            return false;
        }
        let n = self.node_records.len();
        let mut i: usize = 0;
        while i < n
            invariant
                n == self.node_records@.len() == other.node_records@.len(),
                0 <= i <= n,
                forall|j: int| 0 <= j < i ==> self@[j] == other@[j],
            decreases n - i,
        {
            if !(self.node_records[i] == other.node_records[i]) {
                assert(self@[i as int] != other@[i as int]);
                return false;
            }
            i = i + 1;
        }
        proof {
            assert(self@ =~= other@);
        }
        true
    }
}

impl vstd::std_specs::cmp::PartialEqSpecImpl for Gossip {
    open spec fn obeys_eq_spec() -> bool {
        true
    }

    open spec fn eq_spec(&self, other: &Self) -> bool {
        self@ == other@
    }
}

/// Collects `(record, reveal address?)` entries and emits a gossip message.
/// Order of addition is preserved; a key already collected is not added
/// again.
pub struct GossipBuilder {
    pub node_records: Vec<GossipNodeRecord>,
    pub collected_keys: Vec<Key>,
}

impl GossipBuilder {
    pub fn new() -> (r: GossipBuilder)
        ensures
            r.node_records.deep_view() == Seq::<GossipNodeRecordV>::empty(),
            r.collected_keys.deep_view() == Seq::<Seq<u8>>::empty(),
    {
        let r = GossipBuilder { node_records: Vec::new(), collected_keys: Vec::new() };
        proof {
            assert(r.node_records.deep_view() =~= Seq::<GossipNodeRecordV>::empty());
            assert(r.collected_keys.deep_view() =~= Seq::<Seq<u8>>::empty());
        }
        r
    }

    /// Adds one record, unless its key was already collected.
    pub fn node(self, node_record_ref: &NodeRecord, reveal_node_addr: bool) -> (r: GossipBuilder)
        requires
            node_record_ref@.signatures is Some,
        ensures
            self.collected_keys.deep_view().contains(node_record_ref@.inner.public_key) ==> (
            r.node_records.deep_view() == self.node_records.deep_view()
                && r.collected_keys.deep_view() == self.collected_keys.deep_view()),
            !self.collected_keys.deep_view().contains(node_record_ref@.inner.public_key) ==> (
            r.node_records.deep_view() == self.node_records.deep_view().push(
                spec_gossip_from(node_record_ref@, reveal_node_addr),
            ) && r.collected_keys.deep_view() == self.collected_keys.deep_view().push(
                node_record_ref@.inner.public_key,
            )),
    {
        let mut this = self;
        if !keys_contain(&this.collected_keys, &node_record_ref.inner.public_key) {
            let ghost prev_r = this.node_records.deep_view();
            let ghost prev_k = this.collected_keys.deep_view();
            this.node_records.push(GossipNodeRecord::from(node_record_ref, reveal_node_addr));
            this.collected_keys.push(node_record_ref.inner.public_key.clone());
            proof {
                assert(this.node_records.deep_view() =~= prev_r.push(
                    spec_gossip_from(node_record_ref@, reveal_node_addr),
                ));
                assert(this.collected_keys.deep_view() =~= prev_k.push(
                    node_record_ref@.inner.public_key,
                ));
            }
        }
        this
    }

    pub fn build(self) -> (r: Gossip)
        ensures
            r@ == self.node_records.deep_view(),
    {
        Gossip { node_records: self.node_records }
    }
}

/// The canonical bytes of one gossip node record.
pub open spec fn spec_enc_gossip_record(v: GossipNodeRecordV) -> Seq<u8> {
    spec_enc_inner(v.inner) + spec_enc_signatures(v.signatures)
}

/// The records of a gossip message, in order.
pub open spec fn spec_enc_gossip_list(s: Seq<GossipNodeRecordV>) -> Seq<u8>
    decreases s.len(),
{
    if s.len() == 0 {
        Seq::empty()
    } else {
        spec_enc_gossip_record(s[0]) + spec_enc_gossip_list(s.drop_first())
    }
}

pub proof fn lemma_enc_gossip_list_push(s: Seq<GossipNodeRecordV>, v: GossipNodeRecordV)
    ensures
        spec_enc_gossip_list(s.push(v)) == spec_enc_gossip_list(s) + spec_enc_gossip_record(v),
    decreases s.len(),
{
    let t = s.push(v);
    assert(t.len() == s.len() + 1);
    assert(t[0] == if s.len() == 0 { v } else { s[0] });
    if s.len() == 0 {
        assert(t.drop_first() =~= Seq::<GossipNodeRecordV>::empty());
        assert(spec_enc_gossip_list(t) == spec_enc_gossip_record(v) + spec_enc_gossip_list(
            Seq::<GossipNodeRecordV>::empty(),
        ));
        assert(spec_enc_gossip_list(t) =~= spec_enc_gossip_list(s) + spec_enc_gossip_record(v));
    } else {
        assert(t.drop_first() =~= s.drop_first().push(v));
        lemma_enc_gossip_list_push(s.drop_first(), v);
        assert(spec_enc_gossip_list(t) == spec_enc_gossip_record(s[0]) + (spec_enc_gossip_list(
            s.drop_first(),
        ) + spec_enc_gossip_record(v)));
        assert(spec_enc_gossip_list(t) =~= spec_enc_gossip_list(s) + spec_enc_gossip_record(v));
    }
}

/// The canonical bytes of a whole gossip message: record count, then the
/// records.
pub open spec fn spec_enc_gossip(s: Seq<GossipNodeRecordV>) -> Seq<u8> {
    spec_enc_u64(s.len() as u64) + spec_enc_gossip_list(s)
}

/// What reading one gossip node record at position `i` yields.
pub open spec fn spec_dec_gossip_record(s: Seq<u8>, i: int) -> Option<(GossipNodeRecordV, int)> {
    match spec_dec_inner(s, i) {
        Some((inner, j)) => {
            match spec_dec_signatures(s, j) {
                Some((signatures, k)) => Some((GossipNodeRecordV { inner, signatures }, k)),
                None => None,
            }
        },
        None => None,
    }
}

/// Prepends already-decoded records to a decoder outcome.
pub open spec fn opt_prepend_gossip(
    prefix: Seq<GossipNodeRecordV>,
    r: Option<(Seq<GossipNodeRecordV>, int)>,
) -> Option<(Seq<GossipNodeRecordV>, int)> {
    match r {
        Some((v, j)) => Some((prefix + v, j)),
        None => None,
    }
}

/// What reading `count` gossip node records at position `i` yields.
pub open spec fn spec_dec_gossip_list(s: Seq<u8>, i: int, count: nat) -> Option<
    (Seq<GossipNodeRecordV>, int),
>
    decreases count,
{
    if count == 0 {
        Some((Seq::empty(), i))
    } else {
        match spec_dec_gossip_record(s, i) {
            Some((v, j)) => opt_prepend_gossip(
                seq![v],
                spec_dec_gossip_list(s, j, (count - 1) as nat),
            ),
            None => None,
        }
    }
}

/// What deserializing a whole buffer as gossip yields: the count, then the
/// records, with nothing left over.
pub open spec fn spec_dec_gossip(s: Seq<u8>) -> Option<Seq<GossipNodeRecordV>> {
    match spec_dec_u64(s, 0) {
        Some((count, j)) => {
            match spec_dec_gossip_list(s, j, count as nat) {
                Some((v, k)) => {
                    if k == s.len() {
                        Some(v)
                    } else {
                        None
                    }
                },
                None => None,
            }
        },
        None => None,
    }
}

impl Gossip {
    /// Serializes the gossip under the canonical deterministic encoding.
    pub fn serialize(&self) -> (r: Vec<u8>)
        ensures
            r@ == spec_enc_gossip(self@),
    {
        let mut out: Vec<u8> = Vec::new();
        enc_u64(&mut out, self.node_records.len() as u64);
        let ghost mid = out@;
        let n = self.node_records.len();
        let mut i: usize = 0;
        while i < n
            invariant
                n == self.node_records@.len(),
                0 <= i <= n,
                out@ == mid + spec_enc_gossip_list(self@.take(i as int)),
            decreases n - i,
        {
            proof {
                assert(spec_enc_gossip_list(self@.take(0int)) =~= Seq::<u8>::empty());
            }
            enc_inner(&mut out, &self.node_records[i].inner);
            enc_signatures(&mut out, &self.node_records[i].signatures);
            proof {
                lemma_enc_gossip_list_push(self@.take(i as int), self@[i as int]);
                assert(self@.take(i as int).push(self@[i as int]) =~= self@.take(i + 1));
                assert(out@ =~= mid + spec_enc_gossip_list(self@.take(i + 1)));
            }
            i = i + 1;
        }
        proof {
            assert(self@.take(n as int) =~= self@);
            assert(out@ =~= spec_enc_gossip(self@));
        }
        out
    }

    /// Reads gossip back from its canonical bytes; refuses a buffer that is
    /// not exactly one encoded gossip message.
    #[verifier::rlimit(50)]
    pub fn deserialize(buf: &Vec<u8>) -> (r: Option<Gossip>)
        ensures
            match r {
                Some(g) => spec_dec_gossip(buf@) == Some(g@),
                None => spec_dec_gossip(buf@) is None,
            },
    {
        let (count, start) = match dec_u64(buf, 0) {
            Some(x) => x,
            None => {
                return None;
            },
        };
        let mut acc: Vec<GossipNodeRecord> = Vec::new();
        let mut cur = start;
        let mut done: u64 = 0;
        while done < count
            invariant
                0 <= done <= count,
                spec_dec_u64(buf@, 0) == Some((count, start as int)),
                spec_dec_gossip_list(buf@, start as int, count as nat) == opt_prepend_gossip(
                    acc.deep_view(),
                    spec_dec_gossip_list(buf@, cur as int, (count - done) as nat),
                ),
            decreases count - done,
        {
            let (inner, j) = match dec_inner(buf, cur) {
                Some(x) => x,
                None => {
                    proof {
                        assert(spec_dec_gossip_record(buf@, cur as int) is None);
                        assert(spec_dec_gossip_list(buf@, cur as int, (count - done) as nat)
                            is None);
                    }
                    return None;
                },
            };
            let (signatures, k) = match dec_signatures(buf, j) {
                Some(x) => x,
                None => {
                    proof {
                        assert(spec_dec_gossip_record(buf@, cur as int) is None);
                        assert(spec_dec_gossip_list(buf@, cur as int, (count - done) as nat)
                            is None);
                    }
                    return None;
                },
            };
            let ghost rec_v = GossipNodeRecordV { inner: inner@, signatures: signatures@ };
            let ghost rest_r = spec_dec_gossip_list(buf@, k as int, (count - done - 1) as nat);
            let ghost prev = acc.deep_view();
            let rec = GossipNodeRecord { inner, signatures };
            proof {
                assert(rec@ =~= rec_v);
                assert(spec_dec_gossip_record(buf@, cur as int) == Some((rec_v, k as int)));
            }
            acc.push(rec);
            proof {
                assert(acc.deep_view() =~= prev.push(rec_v));
                if rest_r is Some {
                    let (rest, e) = rest_r->0;
                    assert(prev.push(rec_v) + rest =~= prev + (seq![rec_v] + rest));
                }
            }
            cur = k;
            done = done + 1;
        }
        proof {
            assert(acc.deep_view() + Seq::<GossipNodeRecordV>::empty() =~= acc.deep_view());
        }
        if cur != buf.len() {
            return None;
        }
        Some(Gossip { node_records: acc })
    }
}

/// Whether every record of a gossip value is small enough to encode.
pub open spec fn gossip_encodable(s: Seq<GossipNodeRecordV>) -> bool {
    &&& s.len() <= u64::MAX
    &&& forall|i: int|
        0 <= i < s.len() ==> inner_encodable(#[trigger] s[i].inner) && s[i].signatures.complete.len()
            <= u64::MAX && s[i].signatures.obscured.len() <= u64::MAX
}

/// Round trip for the record list.
pub proof fn lemma_dec_enc_gossip_list(s: Seq<u8>, i: int, g: Seq<GossipNodeRecordV>)
    requires
        0 <= i,
        gossip_encodable(g),
        i + spec_enc_gossip_list(g).len() <= s.len(),
        s.subrange(i, i + spec_enc_gossip_list(g).len()) == spec_enc_gossip_list(g),
    ensures
        spec_dec_gossip_list(s, i, g.len()) == Some((g, i + spec_enc_gossip_list(g).len())),
    decreases g.len(),
{
    if g.len() == 0 {
        assert(g =~= Seq::<GossipNodeRecordV>::empty());
    } else {
        let e0i = spec_enc_inner(g[0].inner);
        let e0s = spec_enc_signatures(g[0].signatures);
        let erest = spec_enc_gossip_list(g.drop_first());
        assert(spec_enc_gossip_list(g) == (e0i + e0s) + erest);
        lemma_subrange_concat(s, i, e0i + e0s, erest);
        assert(s.subrange(i, i + e0i.len() + (e0s.len() + erest.len())) =~= (e0i + e0s) + erest);
        assert((e0i + e0s) + erest =~= e0i + (e0s + erest));
        lemma_subrange_concat(s, i, e0i, e0s + erest);
        lemma_subrange_concat(s, i + e0i.len(), e0s, erest);
        lemma_dec_enc_inner(s, i, g[0].inner);
        lemma_dec_enc_signatures(s, i + e0i.len(), g[0].signatures);
        assert(spec_dec_gossip_record(s, i) == Some((g[0], i + e0i.len() + e0s.len())));
        assert(gossip_encodable(g.drop_first())) by {
            assert(forall|j: int|
                0 <= j < g.drop_first().len() ==> #[trigger] g.drop_first()[j] == g[j + 1]);
        }
        lemma_dec_enc_gossip_list(s, i + e0i.len() + e0s.len(), g.drop_first());
        assert(seq![g[0]] + g.drop_first() =~= g);
    }
}

/// Law: deserializing a serialized gossip message restores it exactly, for
/// every gossip value small enough to encode.
pub proof fn lemma_gossip_round_trip(g: Seq<GossipNodeRecordV>)
    requires
        gossip_encodable(g),
    ensures
        spec_dec_gossip(spec_enc_gossip(g)) == Some(g),
{
    let s = spec_enc_gossip(g);
    let e0 = spec_enc_u64(g.len() as u64);
    let e1 = spec_enc_gossip_list(g);
    assert(s.subrange(0, s.len() as int) =~= s);
    lemma_subrange_concat(s, 0, e0, e1);
    lemma_dec_enc_u64(s, 0, g.len() as u64);
    lemma_dec_enc_gossip_list(s, 8, g);
}

} // verus!
