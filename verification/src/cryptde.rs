use vstd::prelude::*;
use crate::encodings::base64_of;
use crate::encodings::base64_encode;

verus! {

// Key material and the cryptographic capability surface: signing,
// encryption to a recipient key, decryption under the holder's key. The
// substitute (null) implementation is fully verified and backs the tests.

/// An opaque byte string identifying a node's asymmetric identity.
/// Equality and hashing are over the bytes.
#[derive(Debug, Eq, Hash)]
pub struct Key {
    pub data: Vec<u8>,
}

/// Unencrypted bytes.
#[derive(Debug, Eq, Hash)]
pub struct PlainData {
    pub data: Vec<u8>,
}

/// Encrypted (or signed) bytes; opaque to everything but a `CryptDe`.
#[derive(Debug, Eq, Hash)]
pub struct CryptData {
    pub data: Vec<u8>,
}

impl View for Key {
    type V = Seq<u8>;

    open spec fn view(&self) -> Seq<u8> {
        self.data@
    }
}

impl View for PlainData {
    type V = Seq<u8>;

    open spec fn view(&self) -> Seq<u8> {
        self.data@
    }
}

impl View for CryptData {
    type V = Seq<u8>;

    open spec fn view(&self) -> Seq<u8> {
        self.data@
    }
}

/// Compares two byte vectors for equality of contents.
pub fn bytes_equal(a: &Vec<u8>, b: &Vec<u8>) -> (r: bool)
    ensures
        r == (a@ == b@),
{
    if a.len() != b.len() {
        assert(a@ != b@);
        return false;
    }
    let n = a.len();
    let mut i: usize = 0;
    while i < n
        invariant
            n == a.len() == b.len(),
            0 <= i <= n,
            forall|j: int| 0 <= j < i ==> a@[j] == b@[j],
        decreases n - i,
    {
        if a[i] != b[i] {
            return false;
        }
        i = i + 1;
    }
    proof {
        assert(a@ =~= b@);
    }
    true
}

/// Copies a byte vector.
pub fn clone_bytes(v: &Vec<u8>) -> (r: Vec<u8>)
    ensures
        r@ == v@,
{
    vstd::slice::slice_to_vec(v.as_slice())
}

impl Key {
    pub fn new(data: &[u8]) -> (r: Key)
        ensures
            r@ == data@,
    {
        Key { data: vstd::slice::slice_to_vec(data) }
    }

    /// The base64 rendering under which a key appears in logs and diagnostics.
    pub fn to_string(&self) -> (r: String)
        ensures
            r@ == base64_of(self@),
    {
        base64_encode(&self.data)
    }
}

impl Clone for Key {
    fn clone(&self) -> (r: Self)
        ensures
            r@ == self@,
    {
        Key { data: clone_bytes(&self.data) }
    }
}

impl PartialEq for Key {
    fn eq(&self, other: &Self) -> (r: bool) {
        bytes_equal(&self.data, &other.data)
    }
}

impl vstd::std_specs::cmp::PartialEqSpecImpl for Key {
    open spec fn obeys_eq_spec() -> bool {
        true
    }

    open spec fn eq_spec(&self, other: &Self) -> bool {
        self@ == other@
    }
}

impl PlainData {
    pub fn new(data: &[u8]) -> (r: PlainData)
        ensures
            r@ == data@,
    {
        PlainData { data: vstd::slice::slice_to_vec(data) }
    }
}

impl Clone for PlainData {
    fn clone(&self) -> (r: Self)
        ensures
            r@ == self@,
    {
        PlainData { data: clone_bytes(&self.data) }
    }
}

impl PartialEq for PlainData {
    fn eq(&self, other: &Self) -> (r: bool) {
        bytes_equal(&self.data, &other.data)
    }
}

impl vstd::std_specs::cmp::PartialEqSpecImpl for PlainData {
    open spec fn obeys_eq_spec() -> bool {
        true
    }

    open spec fn eq_spec(&self, other: &Self) -> bool {
        self@ == other@
    }
}

impl CryptData {
    pub fn new(data: &[u8]) -> (r: CryptData)
        ensures
            r@ == data@,
    {
        CryptData { data: vstd::slice::slice_to_vec(data) }
    }
}

impl Clone for CryptData {
    fn clone(&self) -> (r: Self)
        ensures
            r@ == self@,
    {
        CryptData { data: clone_bytes(&self.data) }
    }
}

impl PartialEq for CryptData {
    fn eq(&self, other: &Self) -> (r: bool) {
        bytes_equal(&self.data, &other.data)
    }
}

impl vstd::std_specs::cmp::PartialEqSpecImpl for CryptData {
    open spec fn obeys_eq_spec() -> bool {
        true
    }

    open spec fn eq_spec(&self, other: &Self) -> bool {
        self@ == other@
    }
}

/// The cryptographic capability set shared by every component: signing,
/// encryption to a recipient key, and decryption under the holder's own key.
/// Implementations give the capabilities meaning through the spec functions,
/// and must prove that decryption inverts encryption to the holder's key.
pub trait CryptDe {
    /// The holder's public key.
    spec fn public_key_spec(&self) -> Seq<u8>;

    /// What signing yields, if it succeeds.
    spec fn sign_spec(&self, plain: Seq<u8>) -> Option<Seq<u8>>;

    /// What encryption to a recipient key yields, if it succeeds.
    spec fn encode_spec(&self, key: Seq<u8>, plain: Seq<u8>) -> Option<Seq<u8>>;

    /// What decryption under the holder's own key yields, if it succeeds.
    spec fn decode_spec(&self, cipher: Seq<u8>) -> Option<Seq<u8>>;

    fn public_key(&self) -> (r: Key)
        ensures
            r@ == self.public_key_spec(),
    ;

    fn sign(&self, plain: &PlainData) -> (r: Option<CryptData>)
        ensures
            r is Some <==> self.sign_spec(plain@) is Some,
            r is Some ==> r->0@ == self.sign_spec(plain@)->0,
    ;

    fn encode(&self, key: &Key, plain: &PlainData) -> (r: Option<CryptData>)
        ensures
            r is Some <==> self.encode_spec(key@, plain@) is Some,
            r is Some ==> r->0@ == self.encode_spec(key@, plain@)->0,
    ;

    fn decode(&self, cipher: &CryptData) -> (r: Option<PlainData>)
        ensures
            r is Some <==> self.decode_spec(cipher@) is Some,
            r is Some ==> r->0@ == self.decode_spec(cipher@)->0,
    ;

    /// Law: encrypting to the holder's own key succeeds and decryption
    /// restores the plaintext.
    proof fn lemma_decode_encode(&self, plain: Seq<u8>)
        ensures
            self.encode_spec(self.public_key_spec(), plain) is Some,
            self.decode_spec(self.encode_spec(self.public_key_spec(), plain)->0) == Some(plain),
    ;
}

/// Substitute cryptography for tests and local runs: "encryption" to a key
/// prepends that key to the plaintext, and decryption strips the holder's
/// own key off the front. Signing "signs" by the same prefixing scheme.
pub struct CryptDeNull {
    pub key: Key,
}

/// What `CryptDeNull` produces for any signing or encryption to `key`.
pub open spec fn null_cipher(key: Seq<u8>, plain: Seq<u8>) -> Seq<u8> {
    key + plain
}

impl CryptDeNull {
    pub fn new() -> (r: CryptDeNull)
        ensures
            r.public_key_spec() == seq![42u8, 42u8, 42u8, 42u8],
    {
        let key = Key { data: vec![42u8, 42u8, 42u8, 42u8] };
        proof {
            assert(key@ =~= seq![42u8, 42u8, 42u8, 42u8]);
        }
        CryptDeNull { key }
    }

    pub fn from(key: &Key) -> (r: CryptDeNull)
        ensures
            r.public_key_spec() == key@,
    {
        CryptDeNull { key: key.clone() }
    }
}

impl CryptDe for CryptDeNull {
    open spec fn public_key_spec(&self) -> Seq<u8> {
        self.key@
    }

    open spec fn sign_spec(&self, plain: Seq<u8>) -> Option<Seq<u8>> {
        Some(null_cipher(self.key@, plain))
    }

    open spec fn encode_spec(&self, key: Seq<u8>, plain: Seq<u8>) -> Option<Seq<u8>> {
        Some(null_cipher(key, plain))
    }

    open spec fn decode_spec(&self, cipher: Seq<u8>) -> Option<Seq<u8>> {
        if self.key@.len() <= cipher.len() && cipher.subrange(0, self.key@.len() as int)
            == self.key@ {
            Some(cipher.skip(self.key@.len() as int))
        } else {
            None
        }
    }

    fn public_key(&self) -> (r: Key)
        ensures
            r@ == self.public_key_spec(),
    {
        self.key.clone()
    }

    fn sign(&self, plain: &PlainData) -> (r: Option<CryptData>)
        ensures
            r is Some <==> self.sign_spec(plain@) is Some,
            r is Some ==> r->0@ == self.sign_spec(plain@)->0,
    {
        let mut data = clone_bytes(&self.key.data);
        let mut rest = clone_bytes(&plain.data);
        data.append(&mut rest);
        Some(CryptData { data })
    }

    fn encode(&self, key: &Key, plain: &PlainData) -> (r: Option<CryptData>)
        ensures
            r is Some <==> self.encode_spec(key@, plain@) is Some,
            r is Some ==> r->0@ == self.encode_spec(key@, plain@)->0,
    {
        let mut data = clone_bytes(&key.data);
        let mut rest = clone_bytes(&plain.data);
        data.append(&mut rest);
        Some(CryptData { data })
    }

    fn decode(&self, cipher: &CryptData) -> (r: Option<PlainData>)
        ensures
            r is Some <==> self.decode_spec(cipher@) is Some,
            r is Some ==> r->0@ == self.decode_spec(cipher@)->0,
    {
        let klen = self.key.data.len();
        if cipher.data.len() < klen {
            return None;
        }
        let prefix = vstd::slice::slice_to_vec(vstd::slice::slice_subrange(
            cipher.data.as_slice(),
            0,
            klen,
        ));
        if !bytes_equal(&prefix, &self.key.data) {
            return None;
        }
        let rest = vstd::slice::slice_to_vec(vstd::slice::slice_subrange(
            cipher.data.as_slice(),
            klen,
            cipher.data.len(),
        ));
        proof {
            assert(rest@ =~= cipher@.skip(self.key@.len() as int));
        }
        Some(PlainData { data: rest })
    }

    proof fn lemma_decode_encode(&self, plain: Seq<u8>)
        ensures
            self.encode_spec(self.public_key_spec(), plain) is Some,
            self.decode_spec(self.encode_spec(self.public_key_spec(), plain)->0) == Some(plain),
    {
        let cipher = null_cipher(self.key@, plain);
        assert(cipher.subrange(0, self.key@.len() as int) =~= self.key@);
        assert(cipher.skip(self.key@.len() as int) =~= plain);
    }
}

impl vstd::view::DeepView for CryptData {
    type V = Seq<u8>;

    open spec fn deep_view(&self) -> Seq<u8> {
        self@
    }
}

impl vstd::view::DeepView for PlainData {
    type V = Seq<u8>;

    open spec fn deep_view(&self) -> Seq<u8> {
        self@
    }
}

} // verus!
