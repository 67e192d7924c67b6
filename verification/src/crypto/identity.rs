//! Node keys: the Ed25519 signing key, the X25519 static key of the Noise
//! sessions, and the errors of the cryptographic operations.
use crate::crypto::firewall::ed25519_accepts;
use crate::protocol::{AimpData, AimpEnvelope, NodeId};
use ed25519_dalek::Signer;
use vstd::prelude::*;

verus! {

/// Errors that can occur during cryptographic operations.
#[derive(Debug, Clone, Copy, PartialEq, Eq, Structural)]
pub enum CryptoError {
    /// Serialization failure during signing or verification
    SerializationError,
    /// Cryptographic verification failed
    InvalidSignature,
    /// No public key could be derived from a node id
    InvalidPublicKey,
}

#[verifier::external_type_specification]
#[verifier::external_body]
pub struct ExStaticSecret(x25519_dalek::StaticSecret);

#[verifier::external_type_specification]
#[verifier::external_body]
pub struct ExPublicKey(x25519_dalek::PublicKey);

/// The Ed25519 public key that ed25519-dalek derives from a 32-byte secret key.
pub uninterp spec fn ed25519_public(secret: Seq<u8>) -> Seq<u8>;

/// The Ed25519 signature that ed25519-dalek makes of `message` with a
/// 32-byte secret key (Ed25519 signing is deterministic).
pub uninterp spec fn ed25519_signature(secret: Seq<u8>, message: Seq<u8>) -> Seq<u8>;

/// A fresh secret key from the operating system's random number generator
/// (`SigningKey::generate` with `OsRng`); nothing is known of its value.
#[verifier::external_body]
fn random_secret() -> (r: [u8; 32]) {
    ed25519_dalek::SigningKey::generate(&mut rand::rngs::OsRng).to_bytes()
}

/// The public key of `secret` (`SigningKey::from_bytes`, then
/// `verifying_key` and `to_bytes`), a function of the secret alone.
#[verifier::external_body]
fn public_of(secret: &[u8; 32]) -> (r: [u8; 32])
    ensures
        r@ == ed25519_public(secret@),
{
    ed25519_dalek::SigningKey::from_bytes(secret).verifying_key().to_bytes()
}

/// The signature of `message` with `secret` (`SigningKey::sign`, then
/// `to_bytes`). As the crate documents, a signature so made verifies
/// under the signer's public key.
#[verifier::external_body]
fn sign_with(secret: &[u8; 32], message: &[u8]) -> (r: [u8; 64])
    ensures
        r@ == ed25519_signature(secret@, message@),
        ed25519_accepts(ed25519_public(secret@), message@, r@),
{
    ed25519_dalek::SigningKey::from_bytes(secret).sign(message).to_bytes()
}

/// The X25519 static secret made of the same 32 bytes
/// (`StaticSecret::from`).
#[verifier::external_body]
fn noise_secret(secret: [u8; 32]) -> (r: x25519_dalek::StaticSecret) {
    x25519_dalek::StaticSecret::from(secret)
}

/// The X25519 public key of a static secret (`PublicKey::from`).
#[verifier::external_body]
fn noise_public(secret: &x25519_dalek::StaticSecret) -> (r: x25519_dalek::PublicKey) {
    x25519_dalek::PublicKey::from(secret)
}

/// A node's keys: the Ed25519 key pair that signs its envelopes and names
/// it, and the X25519 key (made of the same secret bytes) of its Noise
/// sessions.
pub struct Identity {
    secret: [u8; 32],
    verifying_key: NodeId,
    pub noise_static_secret: x25519_dalek::StaticSecret,
    pub noise_static_public: x25519_dalek::PublicKey,
}

impl Identity {
    /// The 32-byte Ed25519 secret key.
    pub closed spec fn secret_key(&self) -> Seq<u8> {
        self.secret@
    }

    /// The node id: the public key.
    pub closed spec fn id(&self) -> NodeId {
        self.verifying_key
    }

    /// The node id is the public key of the secret key.
    pub closed spec fn wf(&self) -> bool {
        self.verifying_key@ == ed25519_public(self.secret@)
    }

    /// A fresh identity with a random key.
    pub fn new() -> (r: Self)
        ensures
            r.wf(),
    {
        let secret = random_secret();
        let verifying_key = public_of(&secret);
        let noise_static_secret = noise_secret(secret);
        let noise_static_public = noise_public(&noise_static_secret);
        Identity { secret, verifying_key, noise_static_secret, noise_static_public }
    }

    /// The node id (the Ed25519 public key).
    pub fn node_id(&self) -> (r: NodeId)
        ensures
            r == self.id(),
    {
        self.verifying_key
    }

    /// Signs `data`, whose MessagePack encoding is `encoded`: the envelope
    /// holds `data` and the signature of `encoded`, which verifies under
    /// the node id.
    pub fn sign(&self, data: AimpData, encoded: &[u8]) -> (r: AimpEnvelope)
        ensures
            r.data == data,
            r.signature@ == ed25519_signature(self.secret_key(), encoded@),
            self.wf() ==> ed25519_accepts(self.id()@, encoded@, r.signature@),
    {
        let signature = sign_with(&self.secret, encoded);
        AimpEnvelope { data, signature }
    }

    /// The signature of raw bytes, which verifies under the node id.
    pub fn sign_bytes(&self, bytes: &[u8]) -> (r: [u8; 64])
        ensures
            r@ == ed25519_signature(self.secret_key(), bytes@),
            self.wf() ==> ed25519_accepts(self.id()@, bytes@, r@),
    {
        sign_with(&self.secret, bytes)
    }
}

impl Default for Identity {
    fn default() -> (r: Self)
        ensures
            r.wf(),
    {
        Self::new()
    }
}

} // verus!
