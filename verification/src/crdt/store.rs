//! Encryption at rest of the stored DAG nodes: a ChaCha20-Poly1305 key
//! derived with HKDF-SHA256 from the node's static secret, and a nonce made
//! of the first 12 bytes of the node's hash. Reading and writing the
//! database is left to the caller.
use crate::error::AimpError;
use crate::protocol::Hash32;
use chacha20poly1305::aead::{Aead, KeyInit};
use vstd::prelude::*;
use vstd::string::StringExecFns;
use vstd::utf8::encode_utf8;

verus! {

/// The 32 bytes that HKDF-SHA256 derives from `ikm` with `salt` and `info`.
pub uninterp spec fn hkdf_sha256(salt: Seq<u8>, ikm: Seq<u8>, info: Seq<u8>) -> Seq<u8>;

/// What ChaCha20-Poly1305 makes of `plaintext` under `key` and `nonce`
/// (ciphertext and tag), when it accepts the plaintext.
pub uninterp spec fn chacha_seal(key: Seq<u8>, nonce: Seq<u8>, plaintext: Seq<u8>) -> Option<
    Seq<u8>,
>;

/// What ChaCha20-Poly1305 recovers from `ciphertext` under `key` and
/// `nonce`, when its tag checks.
pub uninterp spec fn chacha_open(key: Seq<u8>, nonce: Seq<u8>, ciphertext: Seq<u8>) -> Option<
    Seq<u8>,
>;

/// HKDF-SHA256 extract then expand to 32 bytes (`Hkdf::new`, `expand`);
/// expansion fails only past 255 blocks of output, so it succeeds here.
#[verifier::external_body]
fn hkdf_expand_32(salt: &[u8], ikm: &[u8; 32], info: &[u8]) -> (r: Option<[u8; 32]>)
    ensures
        r is Some,
        r matches Some(k) ==> k@ == hkdf_sha256(salt@, ikm@, info@),
{
    let mut okm = [0u8; 32];
    match hkdf::Hkdf::<sha2::Sha256>::new(Some(salt), ikm).expand(info, &mut okm) {
        Ok(()) => Some(okm),
        Err(_) => None,
    }
}

/// ChaCha20-Poly1305 encryption (`Aead::encrypt`), a function of its
/// arguments alone; as the crate documents, decryption gives the
/// plaintext back.
#[verifier::external_body]
fn chacha_encrypt(key: &[u8; 32], nonce: &[u8; 12], plaintext: &[u8]) -> (r: Option<Vec<u8>>)
    ensures
        r is Some <==> chacha_seal(key@, nonce@, plaintext@) is Some,
        r matches Some(c) ==> chacha_seal(key@, nonce@, plaintext@) == Some(c@),
        r matches Some(c) ==> chacha_open(key@, nonce@, c@) == Some(plaintext@),
{
    chacha20poly1305::ChaCha20Poly1305::new(chacha20poly1305::Key::from_slice(key)).encrypt(
        chacha20poly1305::Nonce::from_slice(nonce),
        plaintext,
    ).ok()
}

/// ChaCha20-Poly1305 decryption (`Aead::decrypt`), a function of its
/// arguments alone.
#[verifier::external_body]
fn chacha_decrypt(key: &[u8; 32], nonce: &[u8; 12], ciphertext: &[u8]) -> (r: Option<Vec<u8>>)
    ensures
        r is Some <==> chacha_open(key@, nonce@, ciphertext@) is Some,
        r matches Some(p) ==> chacha_open(key@, nonce@, ciphertext@) == Some(p@),
{
    chacha20poly1305::ChaCha20Poly1305::new(chacha20poly1305::Key::from_slice(key)).decrypt(
        chacha20poly1305::Nonce::from_slice(nonce),
        ciphertext,
    ).ok()
}

/// Salt of the storage key derivation, which separates it from other uses
/// of the static secret.
pub open spec fn store_salt() -> Seq<u8> {
    encode_utf8("aimp-store-v1"@)
}

/// Context string of the storage key derivation.
pub open spec fn store_info() -> Seq<u8> {
    encode_utf8("aimp-chacha20poly1305"@)
}

/// The nonce of a stored node: the first 12 bytes of its hash.
pub open spec fn node_nonce(hash: Hash32) -> Seq<u8> {
    hash@.take(12)
}

/// The cipher that encrypts stored nodes.
pub struct StoreCipher {
    key: [u8; 32],
}

impl StoreCipher {
    /// The ChaCha20-Poly1305 key.
    pub closed spec fn key(&self) -> Seq<u8> {
        self.key@
    }

    /// The cipher keyed by HKDF-SHA256 over the static secret `ikm`.
    pub fn derive(ikm: [u8; 32]) -> (r: Result<StoreCipher, AimpError>)
        ensures
            r matches Ok(c) && c.key() == hkdf_sha256(store_salt(), ikm@, store_info()),
    {
        let salt = "aimp-store-v1".as_bytes();
        let info = "aimp-chacha20poly1305".as_bytes();
        match hkdf_expand_32(salt, &ikm, info) {
            Some(key) => Ok(StoreCipher { key }),
            None => Err(AimpError::Encryption(String::from_str("HKDF expand failed"))),
        }
    }

    /// The nonce of the node with hash `hash`.
    fn nonce(hash: &Hash32) -> (r: [u8; 12])
        ensures
            r@ == node_nonce(*hash),
    {
        let mut n: [u8; 12] = [0u8; 12];
        let mut i: usize = 0;
        while i < 12
            invariant
                i <= 12,
                forall|j: int| 0 <= j < i ==> n@[j] == hash@[j],
            decreases 12 - i,
        {
            n.set(i, hash[i]);
            i = i + 1;
        }
        proof {
            assert(n@ =~= hash@.take(12));
        }
        n
    }

    /// Encrypts the encoding of the node with hash `hash`; what is sealed
    /// opens again to `plaintext` under the same hash.
    pub fn seal(&self, hash: &Hash32, plaintext: &[u8]) -> (r: Result<Vec<u8>, AimpError>)
        ensures
            match chacha_seal(self.key(), node_nonce(*hash), plaintext@) {
                Some(c) => r matches Ok(v) && v@ == c,
                None => r matches Err(AimpError::Encryption(_)),
            },
            r matches Ok(c) ==> chacha_open(self.key(), node_nonce(*hash), c@) == Some(
                plaintext@,
            ),
    {
        let nonce = Self::nonce(hash);
        match chacha_encrypt(&self.key, &nonce, plaintext) {
            Some(c) => Ok(c),
            None => Err(AimpError::Encryption(String::from_str("ChaCha20Poly1305 encrypt failed"))),
        }
    }

    /// Decrypts what was stored for the node with hash `hash`; fails when
    /// the key or the data is not the one it was sealed with.
    pub fn open(&self, hash: &Hash32, ciphertext: &[u8]) -> (r: Result<Vec<u8>, AimpError>)
        ensures
            match chacha_open(self.key(), node_nonce(*hash), ciphertext@) {
                Some(p) => r matches Ok(v) && v@ == p,
                None => r matches Err(AimpError::Encryption(_)),
            },
    {
        let nonce = Self::nonce(hash);
        match chacha_decrypt(&self.key, &nonce, ciphertext) {
            Some(p) => Ok(p),
            None => Err(
                AimpError::Encryption(String::from_str("Decryption failed: invalid key or data")),
            ),
        }
    }
}

} // verus!
