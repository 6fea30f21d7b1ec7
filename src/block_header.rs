//! Block headers: the proof-of-work target and the miner's signature over it.

use crate::hash_func::double_sha256;
use crate::secret_key::{ed25519_signature, SecretPair};
use crate::signature::{signature_valid, HandleSignature, Signature};
use crate::utils::{decimal_ascii, hex_ascii};
use vstd::prelude::*;

verus! {

#[derive(Clone, Copy, Debug)]
pub struct BlockHeader {
    pub index: u64,
    pub difficulty: u32,
    pub timestamp: u128,
    pub merkle_root: [u8; 32],
    pub nonce: u32,
    pub prev_hash: [u8; 32],
    pub hash: [u8; 32],
    pub signature: Option<Signature>,
}

/// The bytes that a block hash covers: `hex(prev_hash) || hex(merkle_root) || timestamp || nonce`,
/// the numbers in decimal.
pub open spec fn hash_input(prev_hash: Seq<u8>, merkle_root: Seq<u8>, timestamp: u128, nonce: u32) -> Seq<u8> {
    hex_ascii(prev_hash) + hex_ascii(merkle_root) + decimal_ascii(timestamp as nat) + decimal_ascii(nonce as nat)
}

/// `H²` of the hash input of a header's fields.
pub open spec fn block_hash(prev_hash: Seq<u8>, merkle_root: Seq<u8>, timestamp: u128, nonce: u32) -> Seq<u8> {
    double_sha256(hash_input(prev_hash, merkle_root, timestamp, nonce))
}

/// The hash that a header's fields give, whatever its `hash` field holds.
pub open spec fn recompute_hash(h: BlockHeader) -> Seq<u8> {
    block_hash(h.prev_hash@, h.merkle_root@, h.timestamp, h.nonce)
}

/// The header carries a signature over its hash made by `pub_key`.
pub open spec fn header_signed_by(h: BlockHeader, pub_key: Seq<u8>) -> bool {
    match h.signature {
        Some(s) => signature_valid(s, pub_key, h.hash@),
        None => false,
    }
}

impl BlockHeader {
    /// Signs the header's hash with `pair`.
    pub fn sign(&mut self, pair: SecretPair)
        ensures
            final(self).signature == Some(Signature {
                signature: final(self).signature.unwrap().signature,
                pub_key: pair.public_key,
            }),
            final(self).signature.unwrap().signature@ == ed25519_signature(pair.private_key@, old(self).hash@),
            final(self).index == old(self).index,
            final(self).difficulty == old(self).difficulty,
            final(self).timestamp == old(self).timestamp,
            final(self).merkle_root == old(self).merkle_root,
            final(self).nonce == old(self).nonce,
            final(self).prev_hash == old(self).prev_hash,
            final(self).hash == old(self).hash,
    {
        self.signature = Some(Signature::sign(pair, self.hash));
    }

    /// Whether the header carries a signature over its hash made by `pub_key`.
    pub fn validate_signature(&self, pub_key: [u8; 32]) -> (r: bool)
        ensures
            r == header_signed_by(*self, pub_key@),
    {
        match self.signature {
            Some(signature) => signature.validate_signature(pub_key, self.hash),
            None => false,
        }
    }
}

} // verus!
