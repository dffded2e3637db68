use vstd::prelude::*;
use vstd::string::StringExecFns;
use crate::cryptde::Key;
use crate::cryptde::PlainData;
use crate::cryptde::CryptData;
use crate::cryptde::CryptDe;
use crate::cryptde::bytes_equal;
use crate::cryptde::clone_bytes;
use crate::node_addr::NodeAddr;
use crate::node_addr::IpAddr;
use crate::node_addr::NodeAddrV;
use crate::node_addr::node_addr_str;
use crate::encodings::sha1_of;
use crate::encodings::base64_of;
use crate::encodings::base64_encode;
use crate::encodings::sha1_digest;
use crate::record_codec::spec_enc_inner;
use crate::record_codec::enc_inner;

verus! {

/// The signed core of a node record: everything the owner attests to.
#[derive(Debug)]
pub struct NodeRecordInner {
    pub public_key: Key,
    pub node_addr_opt: Option<NodeAddr>,
    pub is_bootstrap_node: bool,
    pub neighbors: Vec<Key>,
    pub version: u32,
}

/// The mathematical value of a `NodeRecordInner`.
#[verifier::ext_equal]
pub ghost struct InnerV {
    pub public_key: Seq<u8>,
    pub node_addr_opt: Option<NodeAddrV>,
    pub is_bootstrap_node: bool,
    pub neighbors: Seq<Seq<u8>>,
    pub version: u32,
}

impl View for NodeRecordInner {
    type V = InnerV;

    open spec fn view(&self) -> InnerV {
        InnerV {
            public_key: self.public_key@,
            node_addr_opt: match self.node_addr_opt {
                Some(a) => Some(a@),
                None => None,
            },
            is_bootstrap_node: self.is_bootstrap_node,
            neighbors: self.neighbors.deep_view(),
            version: self.version,
        }
    }
}

impl vstd::view::DeepView for Key {
    type V = Seq<u8>;

    open spec fn deep_view(&self) -> Seq<u8> {
        self@
    }
}

/// Copies a list of keys.
pub fn clone_keys(v: &Vec<Key>) -> (r: Vec<Key>)
    ensures
        r.deep_view() == v.deep_view(),
{
    let mut r: Vec<Key> = Vec::new();
    let n = v.len();
    let mut i: usize = 0;
    while i < n
        invariant
            n == v.len(),
            0 <= i <= n,
            r.deep_view() =~= v.deep_view().take(i as int),
        decreases n - i,
    {
        let ghost prev = r.deep_view();
        r.push(v[i].clone());
        proof {
            assert(r.deep_view() =~= prev.push(v.deep_view()[i as int]));
            assert(r.deep_view() =~= v.deep_view().take(i + 1 as int));
        }
        i = i + 1;
    }
    proof {
        assert(v.deep_view().take(n as int) =~= v.deep_view());
    }
    r
}

/// Tests whether a list of keys holds one with the given bytes.
pub fn keys_contain(v: &Vec<Key>, key: &Key) -> (r: bool)
    ensures
        r == v.deep_view().contains(key@),
{
    let n = v.len();
    let mut i: usize = 0;
    while i < n
        invariant
            n == v.len(),
            0 <= i <= n,
            forall|j: int| 0 <= j < i ==> v.deep_view()[j] != key@,
        decreases n - i,
    {
        if bytes_equal(&v[i].data, &key.data) {
            assert(v.deep_view()[i as int] == key@);
            return true;
        }
        i = i + 1;
    }
    false
}

/// Compares two key lists for (deep) equality.
pub fn keys_equal(a: &Vec<Key>, b: &Vec<Key>) -> (r: bool)
    ensures
        r == (a.deep_view() == b.deep_view()),
{
    if a.len() != b.len() {
        assert(a.deep_view().len() != b.deep_view().len());
        return false;
    }
    let n = a.len();
    let mut i: usize = 0;
    while i < n
        invariant
            n == a.len() == b.len(),
            0 <= i <= n,
            forall|j: int| 0 <= j < i ==> a.deep_view()[j] == b.deep_view()[j],
        decreases n - i,
    {
        if !bytes_equal(&a[i].data, &b[i].data) {
            assert(a.deep_view()[i as int] != b.deep_view()[i as int]);
            return false;
        }
        i = i + 1;
    }
    proof {
        assert(a.deep_view() =~= b.deep_view());
    }
    true
}

impl Clone for NodeRecordInner {
    fn clone(&self) -> (r: Self)
        ensures
            r@ == self@,
    {
        let r = NodeRecordInner {
            public_key: self.public_key.clone(),
            node_addr_opt: match &self.node_addr_opt {
                Some(a) => Some(a.clone()),
                None => None,
            },
            is_bootstrap_node: self.is_bootstrap_node,
            neighbors: clone_keys(&self.neighbors),
            version: self.version,
        };
        proof {
            assert(r@ =~= self@);
        }
        r
    }
}

impl PartialEq for NodeRecordInner {
    fn eq(&self, other: &Self) -> (r: bool) {
        let addr_eq = match (&self.node_addr_opt, &other.node_addr_opt) {
            (Some(a), Some(b)) => *a == *b,
            (None, None) => true,
            _ => false,
        };
        let r = self.public_key == other.public_key && addr_eq && self.is_bootstrap_node
            == other.is_bootstrap_node && keys_equal(&self.neighbors, &other.neighbors)
            && self.version == other.version;
        proof {
            if r {
                assert(self@ =~= other@);
            }
        }
        r
    }
}

impl vstd::std_specs::cmp::PartialEqSpecImpl for NodeRecordInner {
    open spec fn obeys_eq_spec() -> bool {
        true
    }

    open spec fn eq_spec(&self, other: &Self) -> bool {
        self@ == other@
    }
}

/// The signed-record inner value with its address stripped: what the
/// obscured signature attests to.
pub open spec fn obscured_inner(v: InnerV) -> InnerV {
    InnerV { node_addr_opt: None, ..v }
}

/// What signing an inner record yields under a given crypto capability:
/// a signature over the SHA-1 digest of the record's canonical encoding.
pub open spec fn spec_record_signature<C: CryptDe>(cryptde: C, v: InnerV) -> Option<Seq<u8>> {
    cryptde.sign_spec(sha1_of(spec_enc_inner(v)))
}

impl NodeRecordInner {
    /// Canonically serializes the record, digests it with SHA-1, and signs
    /// the digest.
    pub fn generate_signature<C: CryptDe>(&self, cryptde: &C) -> (r: CryptData)
        requires
            spec_record_signature(*cryptde, self@) is Some,
        ensures
            r@ == spec_record_signature(*cryptde, self@)->0,
    {
        let mut serialized: Vec<u8> = Vec::new();
        enc_inner(&mut serialized, self);
        let digest = sha1_digest(&serialized);
        let signed = cryptde.sign(&PlainData { data: digest });
        match signed {
            Some(c) => c,
            None => {
                proof {
                    assert(false);
                }
                CryptData { data: Vec::new() }
            },
        }
    }
}

/// The signature pair carried by a node record: `complete` covers the full
/// inner record, `obscured` covers it with the address stripped.
#[derive(Debug)]
pub struct NodeSignatures {
    pub complete: CryptData,
    pub obscured: CryptData,
}

/// The mathematical value of a `NodeSignatures`.
#[verifier::ext_equal]
pub ghost struct SignaturesV {
    pub complete: Seq<u8>,
    pub obscured: Seq<u8>,
}

impl View for NodeSignatures {
    type V = SignaturesV;

    open spec fn view(&self) -> SignaturesV {
        SignaturesV { complete: self.complete@, obscured: self.obscured@ }
    }
}

/// What `NodeSignatures::from` yields for a signable inner record.
pub open spec fn spec_signatures_from<C: CryptDe>(cryptde: C, v: InnerV) -> SignaturesV {
    SignaturesV {
        complete: spec_record_signature(cryptde, v)->0,
        obscured: spec_record_signature(cryptde, obscured_inner(v))->0,
    }
}

/// Whether both signatures of an inner record are defined under a crypto
/// capability.
pub open spec fn signatures_defined<C: CryptDe>(cryptde: C, v: InnerV) -> bool {
    spec_record_signature(cryptde, v) is Some && spec_record_signature(
        cryptde,
        obscured_inner(v),
    ) is Some
}

impl NodeSignatures {
    pub fn new(complete: CryptData, obscured: CryptData) -> (r: NodeSignatures)
        ensures
            r@ == (SignaturesV { complete: complete@, obscured: obscured@ }),
    {
        NodeSignatures { complete, obscured }
    }

    /// Signs an inner record twice: once complete, once with its address
    /// stripped.
    pub fn from<C: CryptDe>(cryptde: &C, node_record_inner: &NodeRecordInner) -> (r: NodeSignatures)
        requires
            signatures_defined(*cryptde, node_record_inner@),
        ensures
            r@ == spec_signatures_from(*cryptde, node_record_inner@),
    {
        let complete_signature = node_record_inner.generate_signature(cryptde);
        let obscured_record = NodeRecordInner {
            public_key: node_record_inner.public_key.clone(),
            node_addr_opt: None,
            is_bootstrap_node: node_record_inner.is_bootstrap_node,
            neighbors: clone_keys(&node_record_inner.neighbors),
            version: node_record_inner.version,
        };
        proof {
            assert(obscured_record@ =~= obscured_inner(node_record_inner@));
        }
        let obscured_signature = obscured_record.generate_signature(cryptde);
        NodeSignatures::new(complete_signature, obscured_signature)
    }

    pub fn complete(&self) -> (r: &CryptData)
        ensures
            r@ == self@.complete,
    {
        &self.complete
    }

    pub fn obscured(&self) -> (r: &CryptData)
        ensures
            r@ == self@.obscured,
    {
        &self.obscured
    }
}

impl Clone for NodeSignatures {
    fn clone(&self) -> (r: Self)
        ensures
            r@ == self@,
    {
        NodeSignatures { complete: self.complete.clone(), obscured: self.obscured.clone() }
    }
}

impl PartialEq for NodeSignatures {
    fn eq(&self, other: &Self) -> (r: bool) {
        let r = bytes_equal(&self.complete.data, &other.complete.data) && bytes_equal(
            &self.obscured.data,
            &other.obscured.data,
        );
        proof {
            if r {
                assert(self@ =~= other@);
            }
        }
        r
    }
}

impl vstd::std_specs::cmp::PartialEqSpecImpl for NodeSignatures {
    open spec fn obeys_eq_spec() -> bool {
        true
    }

    open spec fn eq_spec(&self, other: &Self) -> bool {
        self@ == other@
    }
}

/// A versioned, signed descriptor of one node.
#[derive(Debug)]
pub struct NodeRecord {
    pub inner: NodeRecordInner,
    pub signatures: Option<NodeSignatures>,
}

/// The mathematical value of a `NodeRecord`.
#[verifier::ext_equal]
pub ghost struct RecordV {
    pub inner: InnerV,
    pub signatures: Option<SignaturesV>,
}

impl View for NodeRecord {
    type V = RecordV;

    open spec fn view(&self) -> RecordV {
        RecordV {
            inner: self.inner@,
            signatures: match self.signatures {
                Some(s) => Some(s@),
                None => None,
            },
        }
    }
}

impl vstd::view::DeepView for NodeRecord {
    type V = RecordV;

    open spec fn deep_view(&self) -> RecordV {
        self@
    }
}

impl Clone for NodeRecord {
    fn clone(&self) -> (r: Self)
        ensures
            r@ == self@,
    {
        NodeRecord {
            inner: self.inner.clone(),
            signatures: match &self.signatures {
                Some(s) => Some(s.clone()),
                None => None,
            },
        }
    }
}

impl PartialEq for NodeRecord {
    fn eq(&self, other: &Self) -> (r: bool) {
        let sig_eq = match (&self.signatures, &other.signatures) {
            (Some(a), Some(b)) => *a == *b,
            (None, None) => true,
            _ => false,
        };
        let r = sig_eq && self.inner == other.inner;
        proof {
            if r {
                assert(self@ =~= other@);
            }
        }
        r
    }
}

impl vstd::std_specs::cmp::PartialEqSpecImpl for NodeRecord {
    open spec fn obeys_eq_spec() -> bool {
        true
    }

    open spec fn eq_spec(&self, other: &Self) -> bool {
        self@ == other@
    }
}

/// The position of the first occurrence of a key in a list, or -1.
pub open spec fn first_index_of_key(s: Seq<Seq<u8>>, k: Seq<u8>) -> int
    decreases s.len(),
{
    if s.len() == 0 {
        -1
    } else if s[0] == k {
        0
    } else if first_index_of_key(s.drop_first(), k) == -1 {
        -1
    } else {
        first_index_of_key(s.drop_first(), k) + 1
    }
}

/// A scan that stops at the first match finds `first_index_of_key`.
pub proof fn lemma_first_index_found(s: Seq<Seq<u8>>, k: Seq<u8>, i: int)
    requires
        0 <= i < s.len(),
        s[i] == k,
        forall|j: int| 0 <= j < i ==> s[j] != k,
    ensures
        first_index_of_key(s, k) == i,
    decreases i,
{
    if i == 0 {
    } else {
        assert(s[0] != k);
        assert(s.drop_first()[i - 1] == k);
        assert(forall|j: int| 0 <= j < i - 1 ==> s.drop_first()[j] != k);
        lemma_first_index_found(s.drop_first(), k, i - 1);
    }
}

/// A scan that finds no match means `first_index_of_key` is -1.
pub proof fn lemma_first_index_none(s: Seq<Seq<u8>>, k: Seq<u8>)
    requires
        forall|j: int| 0 <= j < s.len() ==> s[j] != k,
    ensures
        first_index_of_key(s, k) == -1,
    decreases s.len(),
{
    if s.len() > 0 {
        assert(forall|j: int| 0 <= j < s.len() - 1 ==> s.drop_first()[j] != k);
        lemma_first_index_none(s.drop_first(), k);
    }
}

impl NodeRecord {
    pub fn new(
        public_key: &Key,
        node_addr_opt: Option<&NodeAddr>,
        is_bootstrap_node: bool,
        signatures: Option<NodeSignatures>,
        version: u32,
    ) -> (r: NodeRecord)
        ensures
            r@ == (RecordV {
                inner: InnerV {
                    public_key: public_key@,
                    node_addr_opt: match node_addr_opt {
                        Some(a) => Some(a@),
                        None => None,
                    },
                    is_bootstrap_node,
                    neighbors: Seq::empty(),
                    version,
                },
                signatures: match signatures {
                    Some(s) => Some(s@),
                    None => None,
                },
            }),
    {
        let ghost sigs_v: Option<SignaturesV> = match &signatures {
            Some(s) => Some(s@),
            None => None,
        };
        let r = NodeRecord {
            inner: NodeRecordInner {
                public_key: public_key.clone(),
                node_addr_opt: match node_addr_opt {
                    Some(node_addr) => Some(node_addr.clone()),
                    None => None,
                },
                is_bootstrap_node,
                neighbors: Vec::new(),
                version,
            },
            signatures,
        };
        proof {
            assert(r@.inner.neighbors =~= Seq::<Seq<u8>>::empty());
            assert(r@ =~= (RecordV {
                inner: InnerV {
                    public_key: public_key@,
                    node_addr_opt: match node_addr_opt {
                        Some(a) => Some(a@),
                        None => None,
                    },
                    is_bootstrap_node,
                    neighbors: Seq::empty(),
                    version,
                },
                signatures: sigs_v,
            }));
        }
        r
    }

    pub fn public_key(&self) -> (r: &Key)
        ensures
            r@ == self@.inner.public_key,
    {
        &self.inner.public_key
    }

    pub fn node_addr_opt(&self) -> (r: Option<NodeAddr>)
        ensures
            match r {
                Some(a) => self@.inner.node_addr_opt == Some(a@),
                None => self@.inner.node_addr_opt is None,
            },
    {
        match &self.inner.node_addr_opt {
            Some(a) => Some(a.clone()),
            None => None,
        }
    }

    pub fn is_bootstrap_node(&self) -> (r: bool)
        ensures
            r == self@.inner.is_bootstrap_node,
    {
        self.inner.is_bootstrap_node
    }

    /// Sets the address, which succeeds only while none is set: an address,
    /// once present, can never be replaced through this operation.
    pub fn set_node_addr(&mut self, node_addr: &NodeAddr) -> (r: Result<
        (),
        NeighborhoodDatabaseError,
    >)
        ensures
            match old(self)@.inner.node_addr_opt {
                Some(a) => (r matches Err(NeighborhoodDatabaseError::NodeAddrAlreadySet(old_addr))
                    && old_addr@ == a) && final(self)@ == old(self)@,
                None => r is Ok && final(self)@ == (RecordV {
                    inner: InnerV { node_addr_opt: Some(node_addr@), ..old(self)@.inner },
                    ..old(self)@
                }),
            },
    {
        match &self.inner.node_addr_opt {
            Some(existing) => Err(NeighborhoodDatabaseError::NodeAddrAlreadySet(existing.clone())),
            None => {
                self.inner.node_addr_opt = Some(node_addr.clone());
                proof {
                    assert(self@ =~= (RecordV {
                        inner: InnerV { node_addr_opt: Some(node_addr@), ..old(self)@.inner },
                        ..old(self)@
                    }));
                }
                Ok(())
            },
        }
    }

    pub fn unset_node_addr(&mut self)
        ensures
            final(self)@ == (RecordV {
                inner: InnerV { node_addr_opt: None, ..old(self)@.inner },
                ..old(self)@
            }),
    {
        self.inner.node_addr_opt = None;
        proof {
            assert(self@ =~= (RecordV {
                inner: InnerV { node_addr_opt: None, ..old(self)@.inner },
                ..old(self)@
            }));
        }
    }

    /// Stores the signatures and reports whether they differ from what was
    /// stored before.
    pub fn set_signatures(&mut self, signatures: NodeSignatures) -> (r: bool)
        ensures
            final(self)@ == (RecordV { signatures: Some(signatures@), ..old(self)@ }),
            r == (old(self)@.signatures != Some(signatures@)),
    {
        let changed = match &self.signatures {
            Some(existing) => !(*existing == signatures),
            None => true,
        };
        self.signatures = Some(signatures);
        proof {
            assert(self@ =~= (RecordV { signatures: Some(signatures@), ..old(self)@ }));
        }
        changed
    }

    pub fn neighbors(&self) -> (r: &Vec<Key>)
        ensures
            r.deep_view() == self@.inner.neighbors,
    {
        &self.inner.neighbors
    }

    pub fn neighbors_mut(&mut self) -> (r: &mut Vec<Key>)
        ensures
            *r == old(self).inner.neighbors,
            final(self).inner.public_key == old(self).inner.public_key,
            final(self).inner.node_addr_opt == old(self).inner.node_addr_opt,
            final(self).inner.is_bootstrap_node == old(self).inner.is_bootstrap_node,
            final(self).inner.version == old(self).inner.version,
            final(self).inner.neighbors == *final(r),
            final(self).signatures == old(self).signatures,
    {
        &mut self.inner.neighbors
    }

    /// Drops the first occurrence of `public_key` from the neighbor list and
    /// reports whether one was there.
    pub fn remove_neighbor(&mut self, public_key: &Key) -> (r: bool)
        ensures
            r == old(self)@.inner.neighbors.contains(public_key@),
            r ==> final(self)@ == (RecordV {
                inner: InnerV {
                    neighbors: old(self)@.inner.neighbors.remove(
                        first_index_of_key(old(self)@.inner.neighbors, public_key@),
                    ),
                    ..old(self)@.inner
                },
                ..old(self)@
            }),
            !r ==> final(self)@ == old(self)@,
    {
        let n = self.inner.neighbors.len();
        let mut i: usize = 0;
        while i < n
            invariant
                n == self.inner.neighbors.len(),
                0 <= i <= n,
                *self == *old(self),
                forall|j: int| 0 <= j < i ==> self@.inner.neighbors[j] != public_key@,
            decreases n - i,
        {
            if bytes_equal(&self.inner.neighbors[i].data, &public_key.data) {
                proof {
                    assert(self@.inner.neighbors[i as int] == public_key@);
                    lemma_first_index_found(self@.inner.neighbors, public_key@, i as int);
                }
                let ghost pre = self@;
                self.inner.neighbors.remove(i);
                proof {
                    assert(self@.inner.neighbors =~= pre.inner.neighbors.remove(i as int));
                    assert(self@ =~= (RecordV {
                        inner: InnerV {
                            neighbors: pre.inner.neighbors.remove(
                                first_index_of_key(pre.inner.neighbors, public_key@),
                            ),
                            ..pre.inner
                        },
                        ..pre
                    }));
                }
                return true;
            }
            i = i + 1;
        }
        false
    }

    pub fn has_neighbor(&self, public_key: &Key) -> (r: bool)
        ensures
            r == self@.inner.neighbors.contains(public_key@),
    {
        keys_contain(&self.inner.neighbors, public_key)
    }

    pub fn signatures(&self) -> (r: Option<NodeSignatures>)
        ensures
            match r {
                Some(s) => self@.signatures == Some(s@),
                None => self@.signatures is None,
            },
    {
        match &self.signatures {
            Some(s) => Some(s.clone()),
            None => None,
        }
    }

    /// Signs the record's inner value and stores the signature pair.
    pub fn sign<C: CryptDe>(&mut self, cryptde: &C)
        requires
            signatures_defined(*cryptde, old(self)@.inner),
        ensures
            final(self)@ == (RecordV {
                signatures: Some(spec_signatures_from(*cryptde, old(self)@.inner)),
                ..old(self)@
            }),
    {
        let sigs = NodeSignatures::from(cryptde, &self.inner);
        self.signatures = Some(sigs);
        proof {
            assert(self@ =~= (RecordV {
                signatures: Some(spec_signatures_from(*cryptde, old(self)@.inner)),
                ..old(self)@
            }));
        }
    }

    pub fn version(&self) -> (r: u32)
        ensures
            r == self@.inner.version,
    {
        self.inner.version
    }

    pub fn increment_version(&mut self)
        requires
            old(self)@.inner.version < u32::MAX,
        ensures
            final(self)@ == (RecordV {
                inner: InnerV {
                    version: (old(self)@.inner.version + 1) as u32,
                    ..old(self)@.inner
                },
                ..old(self)@
            }),
    {
        self.inner.version = self.inner.version + 1;
        proof {
            assert(self@ =~= (RecordV {
                inner: InnerV {
                    version: (old(self)@.inner.version + 1) as u32,
                    ..old(self)@.inner
                },
                ..old(self)@
            }));
        }
    }

    pub fn set_version(&mut self, value: u32)
        ensures
            final(self)@ == (RecordV {
                inner: InnerV { version: value, ..old(self)@.inner },
                ..old(self)@
            }),
    {
        self.inner.version = value;
        proof {
            assert(self@ =~= (RecordV {
                inner: InnerV { version: value, ..old(self)@.inner },
                ..old(self)@
            }));
        }
    }
}

/// The typed errors the database surfaces to its callers.
#[derive(Debug)]
pub enum NeighborhoodDatabaseError {
    NodeKeyNotFound(Key),
    NodeKeyCollision(Key),
    NodeAddrAlreadySet(NodeAddr),
    NodeSignaturesAlreadySet(NodeSignatures),
}

impl PartialEq for NeighborhoodDatabaseError {
    fn eq(&self, other: &Self) -> (r: bool) {
        match (self, other) {
            (
                NeighborhoodDatabaseError::NodeKeyNotFound(a),
                NeighborhoodDatabaseError::NodeKeyNotFound(b),
            ) => *a == *b,
            (
                NeighborhoodDatabaseError::NodeKeyCollision(a),
                NeighborhoodDatabaseError::NodeKeyCollision(b),
            ) => *a == *b,
            (
                NeighborhoodDatabaseError::NodeAddrAlreadySet(a),
                NeighborhoodDatabaseError::NodeAddrAlreadySet(b),
            ) => *a == *b,
            (
                NeighborhoodDatabaseError::NodeSignaturesAlreadySet(a),
                NeighborhoodDatabaseError::NodeSignaturesAlreadySet(b),
            ) => *a == *b,
            _ => false,
        }
    }
}

impl vstd::std_specs::cmp::PartialEqSpecImpl for NeighborhoodDatabaseError {
    open spec fn obeys_eq_spec() -> bool {
        true
    }

    open spec fn eq_spec(&self, other: &Self) -> bool {
        match (self, other) {
            (
                NeighborhoodDatabaseError::NodeKeyNotFound(a),
                NeighborhoodDatabaseError::NodeKeyNotFound(b),
            ) => a@ == b@,
            (
                NeighborhoodDatabaseError::NodeKeyCollision(a),
                NeighborhoodDatabaseError::NodeKeyCollision(b),
            ) => a@ == b@,
            (
                NeighborhoodDatabaseError::NodeAddrAlreadySet(a),
                NeighborhoodDatabaseError::NodeAddrAlreadySet(b),
            ) => a@ == b@,
            (
                NeighborhoodDatabaseError::NodeSignaturesAlreadySet(a),
                NeighborhoodDatabaseError::NodeSignaturesAlreadySet(b),
            ) => a@ == b@,
            _ => false,
        }
    }
}

/// The mathematical value of the database: the root key, the record map,
/// and the secondary IP index.
#[verifier::ext_equal]
pub ghost struct DbV {
    pub root_key: Seq<u8>,
    pub records: Map<Seq<u8>, RecordV>,
    pub ip_index: Map<IpAddr, Seq<u8>>,
}

/// Folds a record sequence into a map keyed by public key; later entries win.
pub open spec fn records_map_of(s: Seq<RecordV>) -> Map<Seq<u8>, RecordV>
    decreases s.len(),
{
    if s.len() == 0 {
        Map::empty()
    } else {
        records_map_of(s.drop_last()).insert(s.last().inner.public_key, s.last())
    }
}

/// Folds the IP-entry sequence into a map; later entries win.
pub open spec fn ip_map_of(s: Seq<(IpAddr, Seq<u8>)>) -> Map<IpAddr, Seq<u8>>
    decreases s.len(),
{
    if s.len() == 0 {
        Map::empty()
    } else {
        ip_map_of(s.drop_last()).insert(s.last().0, s.last().1)
    }
}

/// No two stored records share a public key.
pub open spec fn unique_record_keys(s: Seq<RecordV>) -> bool {
    forall|i: int, j: int|
        0 <= i < j < s.len() ==> #[trigger] s[i].inner.public_key != #[trigger] s[
            j
        ].inner.public_key
}

/// No two index entries share an IP.
pub open spec fn unique_ips(s: Seq<(IpAddr, Seq<u8>)>) -> bool {
    forall|i: int, j: int| 0 <= i < j < s.len() ==> (#[trigger] s[i]).0 != (#[trigger] s[j]).0
}

pub proof fn lemma_records_map_contains(s: Seq<RecordV>, k: Seq<u8>)
    ensures
        records_map_of(s).contains_key(k) <==> exists|i: int|
            0 <= i < s.len() && #[trigger] s[i].inner.public_key == k,
    decreases s.len(),
{
    if s.len() > 0 {
        lemma_records_map_contains(s.drop_last(), k);
        if s.last().inner.public_key == k {
            assert(s[s.len() - 1].inner.public_key == k);
        } else {
            if records_map_of(s).contains_key(k) {
                let i = choose|i: int|
                    0 <= i < s.drop_last().len() && #[trigger] s.drop_last()[i].inner.public_key
                        == k;
                assert(s[i].inner.public_key == k);
            }
            if exists|i: int| 0 <= i < s.len() && #[trigger] s[i].inner.public_key == k {
                let i = choose|i: int| 0 <= i < s.len() && #[trigger] s[i].inner.public_key == k;
                assert(i < s.len() - 1);
                assert(s.drop_last()[i].inner.public_key == k);
            }
        }
    }
}

pub proof fn lemma_records_map_index(s: Seq<RecordV>, i: int)
    requires
        unique_record_keys(s),
        0 <= i < s.len(),
    ensures
        records_map_of(s).contains_key(s[i].inner.public_key),
        records_map_of(s)[s[i].inner.public_key] == s[i],
    decreases s.len(),
{
    if i == s.len() - 1 {
    } else {
        assert(unique_record_keys(s.drop_last()));
        lemma_records_map_index(s.drop_last(), i);
        assert(s[s.len() - 1].inner.public_key != s[i].inner.public_key);
    }
}

pub proof fn lemma_records_map_update(s: Seq<RecordV>, i: int, r: RecordV)
    requires
        unique_record_keys(s),
        0 <= i < s.len(),
        r.inner.public_key == s[i].inner.public_key,
    ensures
        records_map_of(s.update(i, r)) == records_map_of(s).insert(r.inner.public_key, r),
    decreases s.len(),
{
    let k = r.inner.public_key;
    if i == s.len() - 1 {
        assert(s.update(i, r).drop_last() =~= s.drop_last());
        assert(s.update(i, r).last() == r);
        assert(records_map_of(s.update(i, r)) =~= records_map_of(s).insert(k, r));
    } else {
        assert(unique_record_keys(s.drop_last()));
        assert(s.update(i, r).drop_last() =~= s.drop_last().update(i, r));
        assert(s.update(i, r).last() == s.last());
        lemma_records_map_update(s.drop_last(), i, r);
        assert(s[s.len() - 1].inner.public_key != s[i].inner.public_key);
        assert(records_map_of(s.update(i, r)) =~= records_map_of(s).insert(k, r));
    }
}

pub proof fn lemma_ip_map_contains(s: Seq<(IpAddr, Seq<u8>)>, ip: IpAddr)
    ensures
        ip_map_of(s).contains_key(ip) <==> exists|i: int|
            0 <= i < s.len() && (#[trigger] s[i]).0 == ip,
    decreases s.len(),
{
    if s.len() > 0 {
        lemma_ip_map_contains(s.drop_last(), ip);
        if s.last().0 == ip {
            assert(s[s.len() - 1].0 == ip);
        } else {
            if ip_map_of(s).contains_key(ip) {
                let i = choose|i: int|
                    0 <= i < s.drop_last().len() && (#[trigger] s.drop_last()[i]).0 == ip;
                assert(s[i].0 == ip);
            }
            if exists|i: int| 0 <= i < s.len() && (#[trigger] s[i]).0 == ip {
                let i = choose|i: int| 0 <= i < s.len() && (#[trigger] s[i]).0 == ip;
                assert(i < s.len() - 1);
                assert(s.drop_last()[i].0 == ip);
            }
        }
    }
}

pub proof fn lemma_ip_map_index(s: Seq<(IpAddr, Seq<u8>)>, i: int)
    requires
        unique_ips(s),
        0 <= i < s.len(),
    ensures
        ip_map_of(s).contains_key(s[i].0),
        ip_map_of(s)[s[i].0] == s[i].1,
    decreases s.len(),
{
    if i == s.len() - 1 {
    } else {
        assert(unique_ips(s.drop_last()));
        lemma_ip_map_index(s.drop_last(), i);
        assert(s[s.len() - 1].0 != s[i].0);
    }
}

pub proof fn lemma_ip_map_remove(s: Seq<(IpAddr, Seq<u8>)>, i: int)
    requires
        unique_ips(s),
        0 <= i < s.len(),
    ensures
        ip_map_of(s.remove(i)) == ip_map_of(s).remove(s[i].0),
    decreases s.len(),
{
    let ip = s[i].0;
    if i == s.len() - 1 {
        assert(s.remove(i) =~= s.drop_last());
        lemma_ip_map_contains(s.drop_last(), ip);
        assert(forall|j: int| 0 <= j < s.len() - 1 ==> (#[trigger] s.drop_last()[j]).0 != ip);
        assert(!ip_map_of(s.drop_last()).contains_key(ip));
        assert(ip_map_of(s.remove(i)) =~= ip_map_of(s).remove(ip));
    } else {
        assert(unique_ips(s.drop_last()));
        assert(s.remove(i).drop_last() =~= s.drop_last().remove(i));
        assert(s.remove(i).last() == s.last());
        lemma_ip_map_remove(s.drop_last(), i);
        assert(s[s.len() - 1].0 != ip);
        assert(ip_map_of(s.remove(i)) =~= ip_map_of(s).remove(ip));
    }
}

/// The public keys of a record sequence, in order.
pub open spec fn keys_of_records(s: Seq<RecordV>) -> Seq<Seq<u8>> {
    s.map_values(|r: RecordV| r.inner.public_key)
}

/// The in-memory graph of known nodes: records keyed by public key, a
/// secondary index from IP to key, and the designated root (this node).
pub struct NeighborhoodDatabase {
    pub this_node: Key,
    pub by_public_key: Vec<NodeRecord>,
    pub by_ip_addr: Vec<(IpAddr, Key)>,
}

impl View for NeighborhoodDatabase {
    type V = DbV;

    open spec fn view(&self) -> DbV {
        DbV {
            root_key: self.this_node@,
            records: records_map_of(self.recs()),
            ip_index: ip_map_of(self.ips()),
        }
    }
}

impl NeighborhoodDatabase {
    /// The stored records as mathematical values, in storage order.
    pub open spec fn recs(&self) -> Seq<RecordV> {
        self.by_public_key@.map_values(|r: NodeRecord| r@)
    }

    /// The stored IP entries as mathematical values, in storage order.
    pub open spec fn ips(&self) -> Seq<(IpAddr, Seq<u8>)> {
        self.by_ip_addr@.map_values(|p: (IpAddr, Key)| (p.0, p.1@))
    }

    /// Well-formedness: unique keys, unique IPs, the root always present,
    /// and every IP-index entry resolving to a record that carries that IP.
    pub open spec fn wf(&self) -> bool {
        &&& unique_record_keys(self.recs())
        &&& unique_ips(self.ips())
        &&& self@.records.contains_key(self@.root_key)
        &&& forall|ip: IpAddr| #[trigger]
            self@.ip_index.dom().contains(ip) ==> self@.records.contains_key(self@.ip_index[ip])
                && self@.records[self@.ip_index[ip]].inner.node_addr_opt is Some && self@.records[
                self@.ip_index[ip]
            ].inner.node_addr_opt->0.ip == ip
    }

    /// Creates the database around the freshly signed record of this node,
    /// indexed by key and by IP.
    pub fn new<C: CryptDe>(
        public_key: &Key,
        node_addr: &NodeAddr,
        is_bootstrap_node: bool,
        cryptde: &C,
    ) -> (r: NeighborhoodDatabase)
        requires
            signatures_defined(
                *cryptde,
                InnerV {
                    public_key: public_key@,
                    node_addr_opt: Some(node_addr@),
                    is_bootstrap_node,
                    neighbors: Seq::empty(),
                    version: 0,
                },
            ),
        ensures
            r.wf(),
            r@ == (DbV {
                root_key: public_key@,
                records: Map::empty().insert(
                    public_key@,
                    RecordV {
                        inner: InnerV {
                            public_key: public_key@,
                            node_addr_opt: Some(node_addr@),
                            is_bootstrap_node,
                            neighbors: Seq::empty(),
                            version: 0,
                        },
                        signatures: Some(
                            spec_signatures_from(
                                *cryptde,
                                InnerV {
                                    public_key: public_key@,
                                    node_addr_opt: Some(node_addr@),
                                    is_bootstrap_node,
                                    neighbors: Seq::empty(),
                                    version: 0,
                                },
                            ),
                        ),
                    },
                ),
                ip_index: Map::empty().insert(node_addr@.ip, public_key@),
            }),
    {
        let mut node_record = NodeRecord::new(
            public_key,
            Some(node_addr),
            is_bootstrap_node,
            None,
            0,
        );
        node_record.sign(cryptde);
        let ip = node_addr.ip_addr();
        let mut by_public_key: Vec<NodeRecord> = Vec::new();
        by_public_key.push(node_record);
        let mut by_ip_addr: Vec<(IpAddr, Key)> = Vec::new();
        by_ip_addr.push((ip, public_key.clone()));
        let result = NeighborhoodDatabase { this_node: public_key.clone(), by_public_key, by_ip_addr };
        proof {
            assert(result.recs().len() == 1);
            assert(result.ips().len() == 1);
            assert(result.recs().drop_last() =~= Seq::<RecordV>::empty());
            assert(result.ips().drop_last() =~= Seq::<(IpAddr, Seq<u8>)>::empty());
            assert(records_map_of(Seq::<RecordV>::empty()) == Map::<Seq<u8>, RecordV>::empty());
            assert(ip_map_of(Seq::<(IpAddr, Seq<u8>)>::empty()) == Map::<IpAddr, Seq<u8>>::empty());
            assert(result.recs().last() == result.by_public_key@[0]@);
            assert(result.ips().last() == (node_addr@.ip, public_key@));
            assert(result@.records =~= Map::empty().insert(
                public_key@,
                result.by_public_key@[0]@,
            ));
            assert(result@.ip_index =~= Map::<IpAddr, Seq<u8>>::empty().insert(
                node_addr@.ip,
                public_key@,
            ));
            assert(result@ =~= (DbV {
                root_key: public_key@,
                records: Map::empty().insert(public_key@, result.by_public_key@[0]@),
                ip_index: Map::empty().insert(node_addr@.ip, public_key@),
            }));
        }
        result
    }

    /// The storage index of the record with the given key, if any.
    pub(crate) fn node_index(&self, public_key: &Key) -> (r: Option<usize>)
        requires
            unique_record_keys(self.recs()),
        ensures
            match r {
                Some(i) => i < self.by_public_key@.len() && self.recs()[i as int].inner.public_key
                    == public_key@ && self@.records.contains_key(public_key@) && self@.records[
                    public_key@
                ] == self.recs()[i as int],
                None => !self@.records.contains_key(public_key@),
            },
    {
        let n = self.by_public_key.len();
        let mut i: usize = 0;
        while i < n
            invariant
                n == self.by_public_key@.len(),
                0 <= i <= n,
                unique_record_keys(self.recs()),
                forall|j: int| 0 <= j < i ==> self.recs()[j].inner.public_key != public_key@,
            decreases n - i,
        {
            if bytes_equal(&self.by_public_key[i].inner.public_key.data, &public_key.data) {
                proof {
                    assert(self.recs()[i as int].inner.public_key == public_key@);
                    lemma_records_map_index(self.recs(), i as int);
                }
                return Some(i);
            }
            i = i + 1;
        }
        proof {
            lemma_records_map_contains(self.recs(), public_key@);
        }
        None
    }

    /// A mutable handle on one stored record; the caller is responsible for
    /// reestablishing well-formedness.
    pub(crate) fn record_at_mut(&mut self, i: usize) -> (r: &mut NodeRecord)
        requires
            i < old(self).by_public_key@.len(),
        ensures
            *r == old(self).by_public_key@[i as int],
            final(self).by_public_key@ == old(self).by_public_key@.update(i as int, *final(r)),
            final(self).this_node == old(self).this_node,
            final(self).by_ip_addr == old(self).by_ip_addr,
    {
        &mut self.by_public_key[i]
    }

    /// The always-present record of this node.
    pub fn root(&self) -> (r: &NodeRecord)
        requires
            self.wf(),
        ensures
            r@ == self@.records[self@.root_key],
            r@.inner.public_key == self@.root_key,
    {
        match self.node_index(&self.this_node) {
            Some(i) => &self.by_public_key[i],
            None => {
                proof {
                    assert(false);
                }
                &self.by_public_key[0]
            },
        }
    }

    /// All known public keys, in storage order.
    pub fn keys(&self) -> (r: Vec<Key>)
        requires
            self.wf(),
        ensures
            r.deep_view() == keys_of_records(self.recs()),
            forall|k: Seq<u8>| #[trigger]
                r.deep_view().contains(k) <==> self@.records.contains_key(k),
    {
        let mut r: Vec<Key> = Vec::new();
        let n = self.by_public_key.len();
        let mut i: usize = 0;
        while i < n
            invariant
                n == self.by_public_key@.len(),
                0 <= i <= n,
                r.deep_view() =~= keys_of_records(self.recs()).take(i as int),
            decreases n - i,
        {
            let ghost prev = r.deep_view();
            r.push(self.by_public_key[i].inner.public_key.clone());
            proof {
                assert(r.deep_view() =~= prev.push(self.recs()[i as int].inner.public_key));
                assert(r.deep_view() =~= keys_of_records(self.recs()).take(i + 1 as int));
            }
            i = i + 1;
        }
        proof {
            assert(keys_of_records(self.recs()).take(n as int) =~= keys_of_records(self.recs()));
            lemma_records_map_contains(self.recs(), Seq::empty());
            assert forall|k: Seq<u8>| #[trigger]
                r.deep_view().contains(k) <==> self@.records.contains_key(k) by {
                lemma_records_map_contains(self.recs(), k);
                if r.deep_view().contains(k) {
                    let i = choose|i: int| 0 <= i < r.deep_view().len() && r.deep_view()[i] == k;
                    assert(self.recs()[i].inner.public_key == k);
                }
                if self@.records.contains_key(k) {
                    let i = choose|i: int|
                        0 <= i < self.recs().len() && #[trigger] self.recs()[i].inner.public_key
                            == k;
                    assert(r.deep_view()[i] == k);
                }
            }
        }
        r
    }

    /// The record stored under a public key, if any.
    pub fn node_by_key(&self, public_key: &Key) -> (r: Option<&NodeRecord>)
        requires
            self.wf(),
        ensures
            match r {
                Some(rec) => self@.records.contains_key(public_key@) && rec@ == self@.records[
                    public_key@
                ],
                None => !self@.records.contains_key(public_key@),
            },
    {
        match self.node_index(public_key) {
            Some(i) => Some(&self.by_public_key[i]),
            None => None,
        }
    }

    /// The storage index of the IP entry for `ip`, if any.
    pub(crate) fn ip_entry_index(&self, ip: &IpAddr) -> (r: Option<usize>)
        requires
            unique_ips(self.ips()),
        ensures
            match r {
                Some(i) => i < self.by_ip_addr@.len() && self.ips()[i as int].0 == *ip
                    && self@.ip_index.contains_key(*ip) && self@.ip_index[*ip] == self.ips()[
                    i as int
                ].1,
                None => !self@.ip_index.contains_key(*ip),
            },
    {
        let n = self.by_ip_addr.len();
        let mut i: usize = 0;
        while i < n
            invariant
                n == self.by_ip_addr@.len(),
                0 <= i <= n,
                unique_ips(self.ips()),
                forall|j: int| 0 <= j < i ==> (#[trigger] self.ips()[j]).0 != *ip,
            decreases n - i,
        {
            if self.by_ip_addr[i].0 == *ip {
                proof {
                    assert(self.ips()[i as int].0 == *ip);
                    lemma_ip_map_index(self.ips(), i as int);
                }
                return Some(i);
            }
            i = i + 1;
        }
        proof {
            lemma_ip_map_contains(self.ips(), *ip);
        }
        None
    }

    /// The record whose IP the secondary index lists, if any.
    pub fn node_by_ip(&self, ip_addr: &IpAddr) -> (r: Option<&NodeRecord>)
        requires
            self.wf(),
        ensures
            match r {
                Some(rec) => self@.ip_index.contains_key(*ip_addr) && rec@ == self@.records[
                    self@.ip_index[*ip_addr]
                ],
                None => !self@.ip_index.contains_key(*ip_addr),
            },
    {
        match self.ip_entry_index(ip_addr) {
            Some(i) => {
                let key = self.by_ip_addr[i].1.clone();
                match self.node_by_key(&key) {
                    Some(rec) => Some(rec),
                    None => {
                        proof {
                            assert(false);
                        }
                        None
                    },
                }
            },
            None => None,
        }
    }

    /// Directed adjacency: whether `from`'s record lists `to` as a neighbor.
    pub fn has_neighbor(&self, from: &Key, to: &Key) -> (r: bool)
        requires
            self.wf(),
        ensures
            r == (self@.records.contains_key(from@) && self@.records[from@].inner.neighbors.contains(
                to@,
            )),
    {
        match self.node_by_key(from) {
            Some(f) => f.has_neighbor(to),
            None => false,
        }
    }

    /// Inserts a record under its key; refuses a key that is already present;
    /// indexes the record's IP iff it carries an address.
    pub fn add_node(&mut self, node_record: &NodeRecord) -> (r: Result<
        (),
        NeighborhoodDatabaseError,
    >)
        requires
            old(self).wf(),
        ensures
            final(self).wf(),
            final(self)@.root_key == old(self)@.root_key,
            if old(self)@.records.contains_key(node_record@.inner.public_key) {
                (r matches Err(NeighborhoodDatabaseError::NodeKeyCollision(k)) && k@
                    == node_record@.inner.public_key) && final(self)@ == old(self)@
            } else {
                r is Ok && final(self)@ == (DbV {
                    root_key: old(self)@.root_key,
                    records: old(self)@.records.insert(node_record@.inner.public_key, node_record@),
                    ip_index: match node_record@.inner.node_addr_opt {
                        Some(a) => old(self)@.ip_index.insert(a.ip, node_record@.inner.public_key),
                        None => old(self)@.ip_index,
                    },
                })
            },
    {
        match self.node_index(&node_record.inner.public_key) {
            Some(_) => {
                return Err(
                    NeighborhoodDatabaseError::NodeKeyCollision(
                        node_record.inner.public_key.clone(),
                    ),
                );
            },
            None => {},
        }
        let ghost pre = *self;
        let rec = node_record.clone();
        self.by_public_key.push(rec);
        proof {
            assert(self.recs() =~= pre.recs().push(node_record@));
            assert(self.recs().drop_last() =~= pre.recs());
            assert(self@.records =~= pre@.records.insert(node_record@.inner.public_key, node_record@));
            assert(self.ips() =~= pre.ips());
            lemma_records_map_contains(pre.recs(), node_record@.inner.public_key);
            assert(unique_record_keys(self.recs()));
        }
        match &node_record.inner.node_addr_opt {
            Some(node_addr) => {
                let ip = node_addr.ip_addr();
                let ghost mid = *self;
                match self.ip_entry_index(&ip) {
                    Some(i) => {
                        self.by_ip_addr.remove(i);
                        proof {
                            assert(self.ips() =~= mid.ips().remove(i as int));
                            lemma_ip_map_remove(mid.ips(), i as int);
                        }
                    },
                    None => {},
                }
                let ghost mid2 = *self;
                proof {
                    lemma_ip_map_contains(mid2.ips(), ip);
                    assert(!ip_map_of(mid2.ips()).contains_key(ip));
                }
                self.by_ip_addr.push((ip, node_record.inner.public_key.clone()));
                proof {
                    assert(self.ips() =~= mid2.ips().push((ip, node_record@.inner.public_key)));
                    assert(self.ips().drop_last() =~= mid2.ips());
                    assert(self@.ip_index =~= mid2@.ip_index.insert(
                        ip,
                        node_record@.inner.public_key,
                    ));
                    assert(self@.ip_index =~= pre@.ip_index.insert(
                        ip,
                        node_record@.inner.public_key,
                    ));
                    assert(unique_ips(self.ips())) by {
                        assert(forall|j: int|
                            0 <= j < mid2.ips().len() ==> (#[trigger] mid2.ips()[j]).0 != ip);
                    }
                    assert(self.recs() =~= mid.recs());
                }
            },
            None => {},
        }
        proof {
            assert(self@.records == pre@.records.insert(
                node_record@.inner.public_key,
                node_record@,
            ));
            lemma_records_map_contains(self.recs(), self@.root_key);
            lemma_records_map_contains(pre.recs(), pre@.root_key);
            let pv = pre@;
            let sv = self@;
            assert(sv.records.contains_key(sv.root_key));
            assert forall|ip: IpAddr| #[trigger] sv.ip_index.dom().contains(ip) implies sv.records.contains_key(
                sv.ip_index[ip],
            ) && sv.records[sv.ip_index[ip]].inner.node_addr_opt is Some && sv.records[sv.ip_index[
                ip
            ]].inner.node_addr_opt->0.ip == ip by {
                match node_record@.inner.node_addr_opt {
                    Some(a) => {
                        if ip == a.ip {
                        } else {
                            assert(pv.ip_index.dom().contains(ip));
                            assert(sv.ip_index[ip] == pv.ip_index[ip]);
                        }
                    },
                    None => {
                        assert(pv.ip_index.dom().contains(ip));
                    },
                }
            }
        }
        Ok(())
    }
}

impl NeighborhoodDatabase {
    /// Adds the directed edge `node_key -> new_neighbor`. Refuses unknown
    /// keys; reports `true` only when the edge is newly created.
    pub fn add_neighbor(&mut self, node_key: &Key, new_neighbor: &Key) -> (r: Result<
        bool,
        NeighborhoodDatabaseError,
    >)
        requires
            old(self).wf(),
        ensures
            final(self).wf(),
            final(self)@.root_key == old(self)@.root_key,
            if !old(self)@.records.contains_key(new_neighbor@) {
                (r matches Err(NeighborhoodDatabaseError::NodeKeyNotFound(k)) && k@
                    == new_neighbor@) && final(self)@ == old(self)@
            } else if old(self)@.records.contains_key(node_key@) && old(self)@.records[
                node_key@
            ].inner.neighbors.contains(new_neighbor@) {
                (r matches Ok(b) && b == false) && final(self)@ == old(self)@
            } else if !old(self)@.records.contains_key(node_key@) {
                (r matches Err(NeighborhoodDatabaseError::NodeKeyNotFound(k)) && k@ == node_key@)
                    && final(self)@ == old(self)@
            } else {
                (r matches Ok(b) && b == true) && final(self)@ == (DbV {
                    root_key: old(self)@.root_key,
                    records: old(self)@.records.insert(
                        node_key@,
                        RecordV {
                            inner: InnerV {
                                neighbors: old(self)@.records[node_key@].inner.neighbors.push(
                                    new_neighbor@,
                                ),
                                ..old(self)@.records[node_key@].inner
                            },
                            ..old(self)@.records[node_key@]
                        },
                    ),
                    ip_index: old(self)@.ip_index,
                })
            },
    {
        match self.node_index(new_neighbor) {
            None => {
                return Err(NeighborhoodDatabaseError::NodeKeyNotFound(new_neighbor.clone()));
            },
            Some(_) => {},
        }
        if self.has_neighbor(node_key, new_neighbor) {
            return Ok(false);
        }
        match self.node_index(node_key) {
            Some(i) => {
                let ghost pre = *self;
                let rec = self.record_at_mut(i);
                let ns = rec.neighbors_mut();
                ns.push(new_neighbor.clone());
                proof {
                    let rv = RecordV {
                        inner: InnerV {
                            neighbors: pre@.records[node_key@].inner.neighbors.push(new_neighbor@),
                            ..pre@.records[node_key@].inner
                        },
                        ..pre@.records[node_key@]
                    };
                    assert(self.by_public_key@[i as int]@ =~= rv);
                    assert(self.recs() =~= pre.recs().update(i as int, rv));
                    lemma_records_map_update(pre.recs(), i as int, rv);
                    assert(self.ips() =~= pre.ips());
                    assert(unique_record_keys(self.recs())) by {
                        assert(forall|j: int|
                            0 <= j < self.recs().len() ==> (#[trigger] self.recs()[j]).inner.public_key
                                == pre.recs()[j].inner.public_key);
                    }
                    let pv = pre@;
                    let sv = self@;
                    assert(sv.records.contains_key(sv.root_key));
                    assert forall|ip: IpAddr| #[trigger] sv.ip_index.dom().contains(ip) implies sv.records.contains_key(
                        sv.ip_index[ip],
                    ) && sv.records[sv.ip_index[ip]].inner.node_addr_opt is Some && sv.records[
                        sv.ip_index[ip]
                    ].inner.node_addr_opt->0.ip == ip by {
                        assert(pv.ip_index.dom().contains(ip));
                        let k = pv.ip_index[ip];
                        if k == node_key@ {
                            assert(sv.records[k].inner.node_addr_opt == pv.records[
                                k
                            ].inner.node_addr_opt);
                        }
                    }
                }
                Ok(true)
            },
            None => Err(NeighborhoodDatabaseError::NodeKeyNotFound(node_key.clone())),
        }
    }

    /// Drops the root's edge to `node_key`, clears that node's address, and
    /// removes it from the IP index; reports whether an edge existed.
    pub fn remove_neighbor(&mut self, node_key: &Key) -> (r: Result<bool, String>)
        requires
            old(self).wf(),
        ensures
            final(self).wf(),
            final(self)@.root_key == old(self)@.root_key,
            !old(self)@.records.contains_key(node_key@) ==> (r matches Err(msg) && msg@
                == "could not remove nonexistent neighbor by public key: "@ + base64_of(node_key@))
                && final(self)@ == old(self)@,
            old(self)@.records.contains_key(node_key@) ==> ({
                let target = old(self)@.records[node_key@];
                let cleared = RecordV {
                    inner: InnerV { node_addr_opt: None, ..target.inner },
                    ..target
                };
                let m1 = old(self)@.records.insert(node_key@, cleared);
                let root0 = m1[old(self)@.root_key];
                let had = root0.inner.neighbors.contains(node_key@);
                let root1 = if had {
                    RecordV {
                        inner: InnerV {
                            neighbors: root0.inner.neighbors.remove(
                                first_index_of_key(root0.inner.neighbors, node_key@),
                            ),
                            ..root0.inner
                        },
                        ..root0
                    }
                } else {
                    root0
                };
                (r matches Ok(b) && b == had) && final(self)@ == (DbV {
                    root_key: old(self)@.root_key,
                    records: m1.insert(old(self)@.root_key, root1),
                    ip_index: match target.inner.node_addr_opt {
                        Some(a) => old(self)@.ip_index.remove(a.ip),
                        None => old(self)@.ip_index,
                    },
                })
            }),
    {
        let i = match self.node_index(node_key) {
            Some(i) => i,
            None => {
                let mut msg = String::from_str(
                    "could not remove nonexistent neighbor by public key: ",
                );
                let rendered = node_key.to_string();
                msg.append(rendered.as_str());
                return Err(msg);
            },
        };
        let ghost pre = *self;
        let ip_opt: Option<IpAddr> = match &self.by_public_key[i].inner.node_addr_opt {
            Some(a) => Some(a.ip_addr()),
            None => None,
        };
        let ghost target = pre@.records[node_key@];
        let ghost cleared = RecordV {
            inner: InnerV { node_addr_opt: None, ..target.inner },
            ..target
        };
        {
            let rec = self.record_at_mut(i);
            rec.unset_node_addr();
        }
        proof {
            assert(self.by_public_key@[i as int]@ =~= cleared);
            assert(self.recs() =~= pre.recs().update(i as int, cleared));
            lemma_records_map_update(pre.recs(), i as int, cleared);
            assert(self@.records == pre@.records.insert(node_key@, cleared));
            assert(self.ips() =~= pre.ips());
            assert(unique_record_keys(self.recs())) by {
                assert(forall|j: int|
                    0 <= j < self.recs().len() ==> (#[trigger] self.recs()[j]).inner.public_key
                        == pre.recs()[j].inner.public_key);
            }
        }
        let ghost mid = *self;
        match &ip_opt {
            Some(ip) => {
                match self.ip_entry_index(ip) {
                    Some(j) => {
                        self.by_ip_addr.remove(j);
                        proof {
                            assert(self.ips() =~= mid.ips().remove(j as int));
                            lemma_ip_map_remove(mid.ips(), j as int);
                            assert(self@.ip_index == mid@.ip_index.remove(*ip));
                        }
                    },
                    None => {
                        proof {
                            assert(self@.ip_index =~= mid@.ip_index.remove(*ip));
                        }
                    },
                }
            },
            None => {},
        }
        proof {
            assert(self.recs() =~= mid.recs());
            assert(unique_ips(self.ips())) by {
                if self.by_ip_addr@.len() < mid.by_ip_addr@.len() {
                    let j = choose|j: int|
                        0 <= j <= mid.ips().len() - 1 && self.ips() =~= mid.ips().remove(j);
                }
            }
        }
        let ghost mid2 = *self;
        let root_key = self.this_node.clone();
        let ri = match self.node_index(&root_key) {
            Some(ri) => ri,
            None => {
                proof {
                    assert(false);
                }
                return Ok(false);
            },
        };
        let ghost root0 = mid2@.records[pre@.root_key];
        let had = {
            let rec = self.record_at_mut(ri);
            rec.remove_neighbor(node_key)
        };
        proof {
            lemma_records_map_index(mid2.recs(), ri as int);
            assert(mid2.recs()[ri as int] == root0);
            let root1 = if had {
                RecordV {
                    inner: InnerV {
                        neighbors: root0.inner.neighbors.remove(
                            first_index_of_key(root0.inner.neighbors, node_key@),
                        ),
                        ..root0.inner
                    },
                    ..root0
                }
            } else {
                root0
            };
            assert(self.by_public_key@[ri as int]@ =~= root1);
            assert(self.recs() =~= mid2.recs().update(ri as int, root1));
            lemma_records_map_update(mid2.recs(), ri as int, root1);
            assert(self@.records == mid2@.records.insert(pre@.root_key, root1));
            assert(self.ips() =~= mid2.ips());
            assert(unique_record_keys(self.recs())) by {
                assert(forall|j: int|
                    0 <= j < self.recs().len() ==> (#[trigger] self.recs()[j]).inner.public_key
                        == mid2.recs()[j].inner.public_key);
            }
            let pv = pre@;
            let sv = self@;
            assert(sv.records.contains_key(sv.root_key));
            assert forall|ip2: IpAddr| #[trigger] sv.ip_index.dom().contains(ip2) implies sv.records.contains_key(
                sv.ip_index[ip2],
            ) && sv.records[sv.ip_index[ip2]].inner.node_addr_opt is Some && sv.records[sv.ip_index[
                ip2
            ]].inner.node_addr_opt->0.ip == ip2 by {
                assert(pv.ip_index.dom().contains(ip2));
                let k = pv.ip_index[ip2];
                if k == node_key@ {
                    match target.inner.node_addr_opt {
                        Some(a) => {
                            assert(a.ip == ip2);
                            assert(ip_opt == Some(a.ip));
                            assert(!sv.ip_index.dom().contains(ip2));
                            assert(false);
                        },
                        None => {
                            assert(false);
                        },
                    }
                } else if k == pv.root_key {
                    assert(sv.records[k].inner.node_addr_opt == pv.records[
                        k
                    ].inner.node_addr_opt);
                } else {
                    assert(sv.records[k] == pv.records[k]);
                }
            }
            assert(sv == (DbV {
                root_key: pv.root_key,
                records: pv.records.insert(node_key@, cleared).insert(pv.root_key, root1),
                ip_index: match target.inner.node_addr_opt {
                    Some(a) => pv.ip_index.remove(a.ip),
                    None => pv.ip_index,
                },
            }));
        }
        Ok(had)
    }
}

/// Law: in every well-formed database the root key resolves.
pub proof fn lemma_root_presence(db: &NeighborhoodDatabase)
    requires
        db.wf(),
    ensures
        db@.records.contains_key(db@.root_key),
{
}

/// Law: every `(ip, key)` entry of the secondary index resolves to a record
/// whose stored address carries exactly that IP.
pub proof fn lemma_ip_index_coherence(db: &NeighborhoodDatabase, ip: IpAddr)
    requires
        db.wf(),
        db@.ip_index.dom().contains(ip),
    ensures
        db@.records.contains_key(db@.ip_index[ip]),
        db@.records[db@.ip_index[ip]].inner.node_addr_opt is Some,
        db@.records[db@.ip_index[ip]].inner.node_addr_opt->0.ip == ip,
{
}

/// Every value of a folded record map carries the key it is stored under.
pub proof fn lemma_records_map_key(s: Seq<RecordV>)
    ensures
        forall|k: Seq<u8>|
            records_map_of(s).contains_key(k) ==> (#[trigger] records_map_of(
                s,
            )[k]).inner.public_key == k,
    decreases s.len(),
{
    if s.len() > 0 {
        lemma_records_map_key(s.drop_last());
    }
}

/// Every record of a database value sits under its own public key.
pub open spec fn key_match(d: DbV) -> bool {
    forall|k: Seq<u8>|
        d.records.contains_key(k) ==> (#[trigger] d.records[k]).inner.public_key == k
}

/// The view of any stored database satisfies `key_match` by construction.
pub proof fn lemma_db_key_match(db: &NeighborhoodDatabase)
    ensures
        key_match(db@),
{
    lemma_records_map_key(db.recs());
}

/// The label of one node in the diagnostic graph: base64 key, then the
/// address if known, then a bootstrap marker.
pub open spec fn dot_label(r: RecordV) -> Seq<char> {
    base64_of(r.inner.public_key) + (match r.inner.node_addr_opt {
        Some(a) => "\\n"@ + node_addr_str(a),
        None => Seq::<char>::empty(),
    }) + (if r.inner.is_bootstrap_node {
        "\\nbootstrap"@
    } else {
        Seq::<char>::empty()
    })
}

/// One node descriptor; the root is filled.
pub open spec fn dot_node_str(r: RecordV, root_key: Seq<u8>) -> Seq<char> {
    let base = "\""@ + base64_of(r.inner.public_key) + "\" [label=\""@ + dot_label(r) + "\"]"@;
    if r.inner.public_key == root_key {
        base + " [style=filled]"@
    } else {
        base
    }
}

/// Whether a neighbor reference resolves to a bootstrap node.
pub open spec fn neighbor_is_bootstrap(m: Map<Seq<u8>, RecordV>, k: Seq<u8>) -> bool {
    m.contains_key(k) && m[k].inner.is_bootstrap_node
}

/// One edge; dashed when either endpoint is a bootstrap node.
pub open spec fn dot_edge(m: Map<Seq<u8>, RecordV>, from: RecordV, to_key: Seq<u8>) -> Seq<char> {
    " \""@ + base64_of(from.inner.public_key) + "\" -> \""@ + base64_of(to_key) + "\""@ + (if
    from.inner.is_bootstrap_node || neighbor_is_bootstrap(m, to_key) {
        " [style=dashed]"@
    } else {
        Seq::<char>::empty()
    }) + ";"@
}

/// The first `i` edges of one record, in neighbor order.
pub open spec fn dot_edges(m: Map<Seq<u8>, RecordV>, r: RecordV, i: int) -> Seq<char>
    decreases i,
{
    if i <= 0 {
        Seq::empty()
    } else {
        dot_edges(m, r, i - 1) + dot_edge(m, r, r.inner.neighbors[i - 1])
    }
}

/// The graph body after rendering the first `i` records: each new
/// descriptor is prepended, its edges appended.
pub open spec fn dot_body(recs: Seq<RecordV>, m: Map<Seq<u8>, RecordV>, root_key: Seq<u8>, i: int) -> Seq<
    char,
>
    decreases i,
{
    if i <= 0 {
        Seq::empty()
    } else {
        dot_node_str(recs[i - 1], root_key) + "; "@ + dot_body(recs, m, root_key, i - 1)
            + dot_edges(m, recs[i - 1], recs[i - 1].inner.neighbors.len() as int)
    }
}

impl NeighborhoodDatabase {
    /// Renders the whole database as a GraphViz digraph for diagnostics.
    pub fn to_dot_graph(&self) -> (r: String)
        requires
            self.wf(),
        ensures
            r@ == "digraph db { "@ + dot_body(
                self.recs(),
                self@.records,
                self@.root_key,
                self.recs().len() as int,
            ) + " }"@,
    {
        let mut result = String::new();
        let n = self.by_public_key.len();
        let mut i: usize = 0;
        proof {
            assert(result@ =~= dot_body(self.recs(), self@.records, self@.root_key, 0));
        }
        while i < n
            invariant
                n == self.by_public_key@.len(),
                self.wf(),
                0 <= i <= n,
                result@ == dot_body(self.recs(), self@.records, self@.root_key, i as int),
            decreases n - i,
        {
            let node = &self.by_public_key[i];
            let ghost rv = self.recs()[i as int];
            let ghost m = self@.records;
            // the node's descriptor
            let mut node_label = node.inner.public_key.to_string();
            match &node.inner.node_addr_opt {
                Some(addr) => {
                    node_label.append("\\n");
                    let rendered = addr.to_string();
                    node_label.append(rendered.as_str());
                },
                None => {},
            }
            if node.inner.is_bootstrap_node {
                node_label.append("\\nbootstrap");
            }
            proof {
                assert(node_label@ =~= dot_label(rv));
            }
            let mut node_str = String::from_str("\"");
            let b64 = node.inner.public_key.to_string();
            node_str.append(b64.as_str());
            node_str.append("\" [label=\"");
            node_str.append(node_label.as_str());
            node_str.append("\"]");
            if bytes_equal(&node.inner.public_key.data, &self.this_node.data) {
                node_str.append(" [style=filled]");
            }
            proof {
                assert(node_str@ =~= dot_node_str(rv, self@.root_key));
            }
            // prepend the descriptor, append the node's edges
            let mut new_result = node_str;
            new_result.append("; ");
            new_result.append(result.as_str());
            proof {
                assert(new_result@ =~= dot_node_str(rv, self@.root_key) + "; "@ + dot_body(
                    self.recs(),
                    m,
                    self@.root_key,
                    i as int,
                ) + dot_edges(m, rv, 0));
            }
            let nn = node.inner.neighbors.len();
            let mut j: usize = 0;
            while j < nn
                invariant
                    nn == node.inner.neighbors@.len(),
                    0 <= j <= nn,
                    self.wf(),
                    node == &self.by_public_key[i as int],
                    i < self.by_public_key@.len(),
                    rv == self.recs()[i as int],
                    m == self@.records,
                    new_result@ == dot_node_str(rv, self@.root_key) + "; "@ + dot_body(
                        self.recs(),
                        m,
                        self@.root_key,
                        i as int,
                    ) + dot_edges(m, rv, j as int),
                decreases nn - j,
            {
                let neighbor_key = &node.inner.neighbors[j];
                new_result.append(" \"");
                let from_b64 = node.inner.public_key.to_string();
                new_result.append(from_b64.as_str());
                new_result.append("\" -> \"");
                let to_b64 = neighbor_key.to_string();
                new_result.append(to_b64.as_str());
                new_result.append("\"");
                let neighbor_is_boot = match self.node_by_key(neighbor_key) {
                    Some(nrec) => nrec.is_bootstrap_node(),
                    None => false,
                };
                if node.inner.is_bootstrap_node || neighbor_is_boot {
                    new_result.append(" [style=dashed]");
                }
                new_result.append(";");
                proof {
                    assert(neighbor_is_boot == neighbor_is_bootstrap(
                        m,
                        rv.inner.neighbors[j as int],
                    ));
                    assert(new_result@ =~= dot_node_str(rv, self@.root_key) + "; "@ + dot_body(
                        self.recs(),
                        m,
                        self@.root_key,
                        i as int,
                    ) + dot_edges(m, rv, j + 1 as int));
                }
                j = j + 1;
            }
            result = new_result;
            proof {
                assert(rv.inner.neighbors.len() == nn);
                assert(result@ =~= dot_body(self.recs(), m, self@.root_key, i + 1 as int));
            }
            i = i + 1;
        }
        let mut full = String::from_str("digraph db { ");
        full.append(result.as_str());
        full.append(" }");
        proof {
            assert(full@ =~= "digraph db { "@ + dot_body(
                self.recs(),
                self@.records,
                self@.root_key,
                self.recs().len() as int,
            ) + " }"@);
        }
        full
    }
}

} // verus!
