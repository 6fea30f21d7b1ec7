//! Signatures that carry the public key of their signer.

use crate::secret_key::{ed25519_accepts, ed25519_signature, SecretPair};
use vstd::prelude::*;

verus! {

/// Signing and checking a 32-byte value.
pub trait HandleSignature: Sized {
    fn sign(pair: SecretPair, value: [u8; 32]) -> Self;

    fn validate_signature(&self, pub_key: [u8; 32], value: [u8; 32]) -> bool;
}

/// An Ed25519 signature together with the public key that made it.
#[derive(Clone, Copy, Debug, PartialEq, Eq)]
pub struct Signature {
    pub signature: [u8; 64],
    pub pub_key: [u8; 32],
}

/// Whether `sig` is accepted as a signature of `value` by the holder of `pub_key`: the key
/// recorded in the signature must be `pub_key`, and Ed25519 must accept it.
pub open spec fn signature_valid(sig: Signature, pub_key: Seq<u8>, value: Seq<u8>) -> bool {
    sig.pub_key@ == pub_key && ed25519_accepts(pub_key, value, sig.signature@)
}

impl HandleSignature for Signature {
    fn sign(pair: SecretPair, value: [u8; 32]) -> (r: Signature)
        ensures
            r.pub_key == pair.public_key,
            r.signature@ == ed25519_signature(pair.private_key@, value@),
    {
        let signature = pair.sign(value);
        Signature::from(pair.public_key, signature)
    }

    fn validate_signature(&self, pub_key: [u8; 32], value: [u8; 32]) -> (r: bool)
        ensures
            r == signature_valid(*self, pub_key@, value@),
    {
        if !crate::utils::bytes32_eq(&pub_key, &self.pub_key) {
            return false;
        }
        let pair = SecretPair::default(pub_key);
        pair.verify(value, self.get_signature())
    }
}

impl Signature {
    pub fn from(pub_key: [u8; 32], signature: [u8; 64]) -> (r: Signature)
        ensures
            r.pub_key == pub_key,
            r.signature == signature,
    {
        Signature { pub_key, signature }
    }

    pub fn get_signature(&self) -> (r: [u8; 64])
        ensures
            r == self.signature,
    {
        self.signature
    }
}

impl Default for Signature {
    fn default() -> (r: Signature)
        ensures
            r.pub_key@ == seq![0u8; 32],
            r.signature@ == seq![0u8; 64],
    {
        let r = Signature { pub_key: [0u8; 32], signature: [0u8; 64] };
        assert(r.pub_key@ =~= seq![0u8; 32]);
        assert(r.signature@ =~= seq![0u8; 64]);
        r
    }
}

} // verus!
