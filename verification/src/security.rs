//! Hashing, Ed25519 signatures and the key store.

use vstd::prelude::*;
use vstd::slice::slice_to_vec;
use vstd::string::StringSliceAdditionalSpecFns;
use crate::error::Error;
use crate::name::{bytes_eq, sha256, sha256_of};

verus! {

/// The SHA-256 digest of `data`.
pub fn hash_data(data: &[u8]) -> (r: [u8; 32])
    ensures
        r@ == sha256_of(data@),
{
    sha256(data)
}

/// The Ed25519 public key that belongs to a private key in PKCS#8 form, or
/// `None` where the octets are no such key.
pub uninterp spec fn ed25519_public_of(pkcs8: Seq<u8>) -> Option<Seq<u8>>;

/// The Ed25519 signature of a message under a private key in PKCS#8 form,
/// or `None` where the octets are no such key.
pub uninterp spec fn ed25519_signature_of(pkcs8: Seq<u8>, message: Seq<u8>) -> Option<Seq<u8>>;

/// Whether a signature is the Ed25519 signature of a message under a public
/// key.
pub uninterp spec fn ed25519_valid(public_key: Seq<u8>, message: Seq<u8>, signature: Seq<u8>) -> bool;

/// Makes a fresh Ed25519 private key in PKCS#8 form with
/// `Ed25519KeyPair::generate_pkcs8` of `ring`, from the system's random
/// source; `None` where that source fails. Nothing is known of the key.
#[verifier::external_body]
fn ed25519_generate() -> (r: Option<Vec<u8>>) {
    let rng = ring::rand::SystemRandom::new();
    match ring::signature::Ed25519KeyPair::generate_pkcs8(&rng) {
        Ok(document) => Some(document.as_ref().to_vec()),
        Err(_) => None,
    }
}

/// Reads a private key with `Ed25519KeyPair::from_pkcs8` of `ring` and gives
/// its public key; `None` where the octets are rejected.
#[verifier::external_body]
fn ed25519_public_key(pkcs8: &[u8]) -> (r: Option<Vec<u8>>)
    ensures
        match ed25519_public_of(pkcs8@) {
            Some(k) => r is Some && r->0@ == k,
            None => r is None,
        },
{
    match ring::signature::Ed25519KeyPair::from_pkcs8(pkcs8) {
        Ok(pair) => Some(<ring::signature::Ed25519KeyPair as ring::signature::KeyPair>::public_key(&pair).as_ref().to_vec()),
        Err(_) => None,
    }
}

/// Signs a message with `Ed25519KeyPair::sign` of `ring`, under the private
/// key read from PKCS#8 form; `None` where the key is rejected. The
/// signature depends on the key and the message alone.
#[verifier::external_body]
fn ed25519_sign(pkcs8: &[u8], message: &[u8]) -> (r: Option<Vec<u8>>)
    ensures
        match ed25519_signature_of(pkcs8@, message@) {
            Some(s) => r is Some && r->0@ == s,
            None => r is None,
        },
{
    match ring::signature::Ed25519KeyPair::from_pkcs8(pkcs8) {
        Ok(pair) => Some(pair.sign(message).as_ref().to_vec()),
        Err(_) => None,
    }
}

/// Checks a signature with `UnparsedPublicKey::verify` of `ring` for
/// Ed25519.
#[verifier::external_body]
fn ed25519_verify(public_key: &[u8], message: &[u8], signature: &[u8]) -> (r: bool)
    ensures
        r == ed25519_valid(public_key@, message@, signature@),
{
    ring::signature::UnparsedPublicKey::new(&ring::signature::ED25519, public_key).verify(message, signature).is_ok()
}

/// Fills 32 octets from the system's random source with
/// `SecureRandom::fill` of `ring`; `None` where that source fails. Nothing
/// is known of the octets.
#[verifier::external_body]
fn random_octets() -> (r: Option<[u8; 32]>) {
    let mut octets = [0u8; 32];
    match ring::rand::SecureRandom::fill(&ring::rand::SystemRandom::new(), &mut octets) {
        Ok(()) => Some(octets),
        Err(_) => None,
    }
}

/// Checks that `signature` signs `hash` under `public_key`; `Crypto` where
/// it does not.
pub fn verify_signature(hash: &[u8], signature: &[u8], public_key: &[u8]) -> (r: Result<(), Error>)
    ensures
        ed25519_valid(public_key@, hash@, signature@) ==> r is Ok,
        !ed25519_valid(public_key@, hash@, signature@) ==> r == Err::<(), Error>(Error::Crypto),
{
    if ed25519_verify(public_key, hash, signature) {
        Ok(())
    } else {
        Err(Error::Crypto)
    }
}

/// A random nonce of 32 octets; `Crypto` where the system's random source
/// fails.
pub fn generate_nonce() -> (r: Result<[u8; 32], Error>)
    ensures
        r is Err ==> r == Err::<[u8; 32], Error>(Error::Crypto),
{
    match random_octets() {
        Some(octets) => Ok(octets),
        None => Err(Error::Crypto),
    }
}

/// A key pair as the store holds it.
pub struct KeyPairView {
    pub private_key: Seq<u8>,
    pub public_key: Seq<u8>,
}

struct KeyEntry {
    name: Vec<u8>,
    private_key: Vec<u8>,
    public_key: Vec<u8>,
}

/// The key pairs that a sequence of stored entries stands for: a later entry
/// replaces an earlier one of the same name.
spec fn pairs_of(entries: Seq<KeyEntry>) -> Map<Seq<u8>, KeyPairView>
    decreases entries.len(),
{
    if entries.len() == 0 {
        Map::empty()
    } else {
        pairs_of(entries.drop_last()).insert(
            entries.last().name@,
            KeyPairView { private_key: entries.last().private_key@, public_key: entries.last().public_key@ },
        )
    }
}

/// Key pairs by name.
pub struct KeyStore {
    entries: Vec<KeyEntry>,
}

impl KeyStore {
    /// The key pairs held, by the UTF-8 octets of their names.
    pub closed spec fn pairs(&self) -> Map<Seq<u8>, KeyPairView> {
        pairs_of(self.entries@)
    }

    /// An empty store.
    pub fn new() -> (r: Self)
        ensures
            r.pairs() == Map::<Seq<u8>, KeyPairView>::empty(),
    {
        KeyStore { entries: Vec::new() }
    }

    /// Stores a key pair under `name`, in place of any held under it.
    pub fn insert_key_pair(&mut self, name: &str, private_key: Vec<u8>, public_key: Vec<u8>)
        ensures
            final(self).pairs() == old(self).pairs().insert(
                name.spec_bytes(),
                KeyPairView { private_key: private_key@, public_key: public_key@ },
            ),
    {
        let entry = KeyEntry { name: slice_to_vec(name.as_bytes()), private_key, public_key };
        self.entries.push(entry);
        assert(self.entries@.drop_last() =~= old(self).entries@);
    }

    fn find(&self, name: &[u8]) -> (r: Option<usize>)
        ensures
            match r {
                Some(i) => i < self.entries@.len() && self.pairs().contains_key(name@) && self.pairs()[name@] == (
                KeyPairView {
                    private_key: self.entries@[i as int].private_key@,
                    public_key: self.entries@[i as int].public_key@,
                }),
                None => !self.pairs().contains_key(name@),
            },
    {
        let mut i: usize = self.entries.len();
        assert(self.entries@.take(i as int) =~= self.entries@);
        while i > 0
            invariant
                0 <= i <= self.entries@.len(),
                self.pairs().contains_key(name@) == pairs_of(self.entries@.take(i as int)).contains_key(name@),
                self.pairs().contains_key(name@) ==> self.pairs()[name@] == pairs_of(self.entries@.take(i as int))[name@],
            decreases i,
        {
            let ghost cur = self.entries@.take(i as int);
            assert(cur.drop_last() =~= self.entries@.take(i - 1));
            assert(cur.last() == self.entries@[i - 1]);
            if bytes_eq(self.entries[i - 1].name.as_slice(), name) {
                return Some(i - 1);
            }
            i -= 1;
        }
        None
    }

    /// Makes a fresh key pair and stores it under `name`, in place of any
    /// held under it; `Crypto`, with nothing changed, where no key could be
    /// made. Which key is made is open; the public key stored is the one
    /// that belongs to the private key stored.
    pub fn generate_key_pair(&mut self, name: &str) -> (r: Result<(), Error>)
        ensures
            r is Ok ==> exists|private_key: Seq<u8>, public_key: Seq<u8>|
                ed25519_public_of(private_key) == Some(public_key) && #[trigger] final(self).pairs() == old(self).pairs().insert(name.spec_bytes(), KeyPairView { private_key, public_key }),
            r is Err ==> r == Err::<(), Error>(Error::Crypto) && final(self).pairs() == old(self).pairs(),
    {
        let private_key = match ed25519_generate() {
            Some(k) => k,
            None => {
                return Err(Error::Crypto);
            },
        };
        let public_key = match ed25519_public_key(private_key.as_slice()) {
            Some(k) => k,
            None => {
                return Err(Error::Crypto);
            },
        };
        let ghost private_view = private_key@;
        let ghost public_view = public_key@;
        self.insert_key_pair(name, private_key, public_key);
        assert(ed25519_public_of(private_view) == Some(public_view) && self.pairs() == old(self).pairs().insert(
            name.spec_bytes(),
            KeyPairView { private_key: private_view, public_key: public_view },
        ));
        Ok(())
    }

    /// Signs `data` with the private key held under `name`: `NotFound` where
    /// none is held, `Crypto` where the key held is no Ed25519 key.
    pub fn sign(&self, name: &str, data: &[u8]) -> (r: Result<Vec<u8>, Error>)
        ensures
            !self.pairs().contains_key(name.spec_bytes()) ==> r == Err::<Vec<u8>, Error>(Error::NotFound),
            self.pairs().contains_key(name.spec_bytes()) ==> match ed25519_signature_of(
                self.pairs()[name.spec_bytes()].private_key,
                data@,
            ) {
                Some(s) => r is Ok && r->Ok_0@ == s,
                None => r == Err::<Vec<u8>, Error>(Error::Crypto),
            },
    {
        match self.get_private_key(name) {
            Some(key) => match ed25519_sign(key, data) {
                Some(signature) => Ok(signature),
                None => Err(Error::Crypto),
            },
            None => Err(Error::NotFound),
        }
    }

    /// Checks `signature` over `data` with the public key held under `name`:
    /// `NotFound` where none is held, `Crypto` where the signature does not
    /// hold.
    pub fn verify(&self, name: &str, data: &[u8], signature: &[u8]) -> (r: Result<(), Error>)
        ensures
            !self.pairs().contains_key(name.spec_bytes()) ==> r == Err::<(), Error>(Error::NotFound),
            self.pairs().contains_key(name.spec_bytes()) ==> if ed25519_valid(
                self.pairs()[name.spec_bytes()].public_key,
                data@,
                signature@,
            ) {
                r is Ok
            } else {
                r == Err::<(), Error>(Error::Crypto)
            },
    {
        match self.get_public_key(name) {
            Some(key) => verify_signature(data, signature, key),
            None => Err(Error::NotFound),
        }
    }

    /// The public key held under `name`.
    pub fn get_public_key(&self, name: &str) -> (r: Option<&[u8]>)
        ensures
            match r {
                Some(k) => self.pairs().contains_key(name.spec_bytes()) && k@ == self.pairs()[name.spec_bytes()].public_key,
                None => !self.pairs().contains_key(name.spec_bytes()),
            },
    {
        match self.find(name.as_bytes()) {
            Some(i) => Some(self.entries[i].public_key.as_slice()),
            None => None,
        }
    }

    /// The private key held under `name`.
    pub fn get_private_key(&self, name: &str) -> (r: Option<&[u8]>)
        ensures
            match r {
                Some(k) => self.pairs().contains_key(name.spec_bytes()) && k@ == self.pairs()[name.spec_bytes()].private_key,
                None => !self.pairs().contains_key(name.spec_bytes()),
            },
    {
        match self.find(name.as_bytes()) {
            Some(i) => Some(self.entries[i].private_key.as_slice()),
            None => None,
        }
    }
}

} // verus!
