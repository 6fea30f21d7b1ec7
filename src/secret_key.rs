//! Ed25519 key pairs.

use ed25519_dalek::Signer;
use rand::TryRngCore;
use vstd::prelude::*;

verus! {

/// The Ed25519 signature that a 32-byte secret key gives a message.
pub uninterp spec fn ed25519_signature(private_key: Seq<u8>, message: Seq<u8>) -> Seq<u8>;

/// Whether strict Ed25519 verification accepts a signature of a message under a public key.
pub uninterp spec fn ed25519_accepts(public_key: Seq<u8>, message: Seq<u8>, signature: Seq<u8>) -> bool;

/// The Ed25519 public key of a 32-byte secret key.
pub uninterp spec fn ed25519_public_key(private_key: Seq<u8>) -> Seq<u8>;

/// Relies on ed25519_dalek::SigningKey::from_bytes and VerifyingKey::from: the public key
/// that belongs to a secret key.
#[verifier::external_body]
fn public_key_of(private_key: &[u8; 32]) -> (r: [u8; 32])
    ensures
        r@ == ed25519_public_key(private_key@),
{
    let signing = ed25519_dalek::SigningKey::from_bytes(private_key);
    ed25519_dalek::VerifyingKey::from(&signing).to_bytes()
}

/// Relies on rand::rngs::OsRng::try_fill_bytes: 32 bytes from the operating system, or `None`
/// when it cannot supply them.
#[verifier::external_body]
pub(crate) fn os_random_bytes() -> (r: Option<[u8; 32]>) {
    let mut bytes = [0u8; 32];
    match rand::rngs::OsRng.try_fill_bytes(&mut bytes) {
        Ok(()) => Some(bytes),
        Err(_) => None,
    }
}

/// Relies on rand::rngs::OsRng::try_next_u32: a 32-bit number from the operating system, or
/// `None` when it cannot supply one.
#[verifier::external_body]
pub(crate) fn random_u32() -> (r: Option<u32>) {
    match rand::rngs::OsRng.try_next_u32() {
        Ok(v) => Some(v),
        Err(_) => None,
    }
}

/// A node's Ed25519 key pair; peers learned from the network carry a zero secret key.
#[derive(Clone, Copy, Debug, PartialEq, Eq)]
pub struct SecretPair {
    pub public_key: [u8; 32],
    pub private_key: [u8; 32],
}

impl SecretPair {
    /// A pair that knows only the public half.
    pub fn default(public_key: [u8; 32]) -> (r: SecretPair)
        ensures
            r.public_key == public_key,
            r.private_key@ == seq![0u8; 32],
    {
        let r = SecretPair { public_key, private_key: [0u8; 32] };
        assert(r.private_key@ =~= seq![0u8; 32]);
        r
    }

    /// Relies on ed25519_dalek::SigningKey::sign: the deterministic Ed25519 signature of `value`
    /// under this pair's secret key.
    #[verifier::external_body]
    pub fn sign(&self, value: [u8; 32]) -> (r: [u8; 64])
        ensures
            r@ == ed25519_signature(self.private_key@, value@),
    {
        let signing = ed25519_dalek::SigningKey::from_bytes(&self.private_key);
        signing.sign(&value).to_bytes()
    }

    /// Relies on ed25519_dalek::VerifyingKey::from_bytes and verify_strict: whether `signature`
    /// is a strictly valid signature of `value` under this pair's public key (a public key that
    /// does not decode rejects every signature).
    #[verifier::external_body]
    pub fn verify(&self, value: [u8; 32], signature: [u8; 64]) -> (r: bool)
        ensures
            r == ed25519_accepts(self.public_key@, value@, signature@),
    {
        let Ok(key) = ed25519_dalek::VerifyingKey::from_bytes(&self.public_key) else {
            return false;
        };
        key.verify_strict(&value, &ed25519_dalek::Signature::from_bytes(&signature)).is_ok()
    }

    /// The key pair of the secret key `secret`.
    pub fn from_secret(secret: [u8; 32]) -> (r: SecretPair)
        ensures
            r.private_key == secret,
            r.public_key@ == ed25519_public_key(secret@),
    {
        let public_key = public_key_of(&secret);
        SecretPair { public_key, private_key: secret }
    }

    /// A fresh key pair from operating-system randomness; `Err` when no randomness is available.
    pub fn generate_keys() -> (r: Result<SecretPair, ()>)
        ensures
            r matches Ok(p) ==> p.public_key@ == ed25519_public_key(p.private_key@),
    {
        match os_random_bytes() {
            Some(secret) => Ok(Self::from_secret(secret)),
            None => Err(()),
        }
    }
}

} // verus!
