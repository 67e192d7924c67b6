//! Envelope verification with Ed25519 and hashing with BLAKE3.
use crate::protocol::AimpEnvelope;
use ed25519_dalek::Verifier;
use vstd::prelude::*;

verus! {

/// The BLAKE3 digest of a byte string.
pub uninterp spec fn blake3_of(data: Seq<u8>) -> [u8; 32];

/// Whether ed25519-dalek accepts `signature` on `message` under the public
/// key `public_key`: the key decompresses to a curve point and the
/// signature passes the ordinary Ed25519 check.
pub uninterp spec fn ed25519_accepts(public_key: Seq<u8>, message: Seq<u8>, signature: Seq<u8>) -> bool;

/// Ed25519 verification (`VerifyingKey::from_bytes`, then `verify`, which
/// depend on their arguments alone); a key that is not a curve point is
/// refused.
#[verifier::external_body]
fn ed25519_verify(public_key: &[u8; 32], message: &[u8], signature: &[u8; 64]) -> (r: bool)
    ensures
        r == ed25519_accepts(public_key@, message@, signature@),
{
    match ed25519_dalek::VerifyingKey::from_bytes(public_key) {
        Ok(key) => key.verify(message, &ed25519_dalek::Signature::from_bytes(signature)).is_ok(),
        Err(_) => false,
    }
}

/// Zero-trust security firewall: envelope verification and hashing.
pub struct SecurityFirewall;

impl SecurityFirewall {
    /// Verifies the Ed25519 signature of an envelope whose data has the
    /// MessagePack encoding `encoded`, under the key that the data names
    /// as its origin.
    pub fn verify(envelope: &AimpEnvelope, encoded: &[u8]) -> (r: bool)
        ensures
            r == ed25519_accepts(envelope.data.origin_pubkey@, encoded@, envelope.signature@),
    {
        ed25519_verify(&envelope.data.origin_pubkey, encoded, &envelope.signature)
    }

    /// BLAKE3 hash of the given data (calls `blake3::hash`, whose result is
    /// a function of the input bytes alone), as a 32-byte digest.
    #[verifier::external_body]
    pub fn hash(data: &[u8]) -> (r: [u8; 32])
        ensures
            r == blake3_of(data@),
    {
        *blake3::hash(data).as_bytes()
    }

    /// BLAKE3 hashes of several payloads, in order.
    pub fn batch_hash(payloads: &[Vec<u8>]) -> (r: Vec<[u8; 32]>)
        ensures
            r@.len() == payloads@.len(),
            forall|i: int| 0 <= i < r@.len() ==> #[trigger] r@[i] == blake3_of(payloads@[i]@),
    {
        let mut r: Vec<[u8; 32]> = Vec::new();
        let mut i: usize = 0;
        while i < payloads.len()
            invariant
                i <= payloads@.len(),
                r@.len() == i,
                forall|j: int| 0 <= j < i ==> #[trigger] r@[j] == blake3_of(payloads@[j]@),
            decreases payloads@.len() - i,
        {
            r.push(Self::hash(payloads[i].as_slice()));
            i = i + 1;
        }
        r
    }
}

} // verus!
