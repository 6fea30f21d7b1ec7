//! Admission tickets: a proof of work over a bootstrap's challenge, signed by that bootstrap.

use crate::hash_func::{double_sha256, double_sha256_of};
use crate::signature::{signature_valid, HandleSignature, Signature};
use crate::node::Node;
use crate::utils::{decimal_ascii, hex_ascii, push_decimal, push_hex, to_32bytes, to_64bytes};
use vstd::prelude::*;

verus! {

/// Whether `h` has at least `difficulty` leading zero nibbles: `difficulty / 2` leading zero
/// bytes and, for an odd difficulty, a zero high nibble in the byte after them. Positions past
/// the end of `h` ask nothing.
pub open spec fn meets_difficulty(h: Seq<u8>, difficulty: nat) -> bool {
    let full = difficulty / 2;
    &&& forall|i: int| 0 <= i < full && i < h.len() ==> h[i] == 0
    &&& (difficulty % 2 == 1 && full < h.len()) ==> h[full as int] >> 4 == 0
}

/// The bytes hashed for a proof of work: `hex(pub_key) || challenge || nonce`, the numbers in
/// decimal.
pub open spec fn pow_input(pub_key: Seq<u8>, challenge: u32, nonce: u32) -> Seq<u8> {
    hex_ascii(pub_key) + decimal_ascii(challenge as nat) + decimal_ascii(nonce as nat)
}

/// The proof-of-work hash `H²(hex(pub_key) || challenge || nonce)`.
pub open spec fn pow_hash(pub_key: Seq<u8>, challenge: u32, nonce: u32) -> Seq<u8> {
    double_sha256(pow_input(pub_key, challenge, nonce))
}

/// A node's admission credential.
#[derive(Clone, Copy, Debug, PartialEq, Eq)]
pub struct NodeTicket {
    pub pow: [u8; 32],
    pub challange: u32,
    pub nonce: u32,
    pub signature: Option<Signature>,
}

/// Whether the ticket's signature covers its proof of work and was made by `pub_key`.
pub open spec fn ticket_signed_by(t: NodeTicket, pub_key: Seq<u8>) -> bool {
    match t.signature {
        Some(s) => signature_valid(s, pub_key, t.pow@),
        None => false,
    }
}

impl NodeTicket {
    pub fn new(pow: [u8; 32], challange: u32, nonce: u32) -> (r: NodeTicket)
        ensures
            r.pow == pow,
            r.challange == challange,
            r.nonce == nonce,
            r.signature.is_none(),
    {
        NodeTicket { pow, challange, nonce, signature: None }
    }

    /// Records the bootstrap's signature over the proof of work.
    pub fn set_signature(&mut self, pub_key: [u8; 32], signature: [u8; 64])
        ensures
            final(self).pow == old(self).pow,
            final(self).challange == old(self).challange,
            final(self).nonce == old(self).nonce,
            final(self).signature == Some(Signature { signature, pub_key }),
    {
        self.signature = Some(Signature::from(pub_key, signature));
    }

    /// Whether the signature covers the proof of work: made by `pub_key` when one is given,
    /// else by the key that the signature itself names.
    pub fn validate_signature(&self, pub_key: Option<[u8; 32]>) -> (r: bool)
        ensures
            r == match (self.signature, pub_key) {
                (None, _) => false,
                (Some(s), Some(k)) => ticket_signed_by(*self, k@),
                (Some(s), None) => ticket_signed_by(*self, s.pub_key@),
            },
    {
        match self.signature {
            None => false,
            Some(signature) => match pub_key {
                Some(key) => signature.validate_signature(key, self.pow),
                None => signature.validate_signature(signature.pub_key, self.pow),
            },
        }
    }

    /// The joining node's side of REQUEST_CHALLENGE once the bootstrap answered `challange` at
    /// `difficulty`: the ticket for the first nonce whose proof of work meets the difficulty;
    /// `None` when no 32-bit nonce does.
    pub fn request_challange(host: &Node, challange: u32, difficulty: u32) -> (r: Option<NodeTicket>)
        ensures
            r matches Some(t) ==> {
                &&& t.challange == challange
                &&& t.pow@ == pow_hash(host.keys.public_key@, challange, t.nonce)
                &&& meets_difficulty(t.pow@, difficulty as nat)
                &&& forall|m: u32| m < t.nonce ==> !meets_difficulty(pow_hash(host.keys.public_key@, challange, m), difficulty as nat)
                &&& t.signature.is_none()
            },
            r is None ==> forall|m: u32| !meets_difficulty(pow_hash(host.keys.public_key@, challange, m), difficulty as nat),
    {
        match Self::brute_force_pow(host.keys.public_key, challange, difficulty) {
            Some((nonce, pow)) => Some(NodeTicket::new(pow, challange, nonce)),
            None => None,
        }
    }

    /// The joining node's side of SUBMIT_CHALLENGE once `bootstrap` answered with a public key
    /// and a signature: the ticket takes them, and when the signature verifies under the
    /// bootstrap's own key, `host` takes the ticket. `None` for answers of the wrong length or a
    /// signature that does not verify, and then `host` is unchanged.
    pub fn submit_challange(&mut self, host: &mut Node, bootstrap: &Node, pubkey: Vec<u8>, signature: Vec<u8>) -> (r: Option<()>)
        ensures
            (pubkey@.len() != 32 || signature@.len() != 64) ==> r is None && *final(self) == *old(self),
            (pubkey@.len() == 32 && signature@.len() == 64) ==> {
                &&& final(self).pow == old(self).pow
                &&& final(self).challange == old(self).challange
                &&& final(self).nonce == old(self).nonce
                &&& final(self).signature matches Some(s) && s.pub_key@ == pubkey@ && s.signature@ == signature@
                &&& r is Some <==> ticket_signed_by(*final(self), bootstrap.keys.public_key@)
            },
            r is Some ==> final(host).ticket == Some(*final(self)) && final(host).id == old(host).id
                && final(host).keys == old(host).keys,
            r is None ==> *final(host) == *old(host),
    {
        let Some(key) = to_32bytes(pubkey) else {
            return None;
        };
        let Some(sig) = to_64bytes(signature) else {
            return None;
        };
        self.set_signature(key, sig);
        if !self.validate_signature(Some(bootstrap.keys.public_key)) {
            return None;
        }
        host.set_ticket(self);
        Some(())
    }

    /// The proof-of-work hash of `pub_key` for `challange` and `nonce`.
    pub fn calculate_pow(pub_key: [u8; 32], challange: u32, nonce: u32) -> (r: [u8; 32])
        ensures
            r@ == pow_hash(pub_key@, challange, nonce),
    {
        let mut input: Vec<u8> = Vec::new();
        push_hex(&pub_key, &mut input);
        push_decimal(challange as u128, &mut input);
        push_decimal(nonce as u128, &mut input);
        assert(input@ =~= pow_input(pub_key@, challange, nonce));
        double_sha256_of(input.as_slice())
    }

    /// Whether `hash` has at least `difficulty` leading zero nibbles.
    pub fn validate_pow(hash: &[u8; 32], difficulty: u32) -> (r: bool)
        ensures
            r == meets_difficulty(hash@, difficulty as nat),
    {
        let full_bytes: usize = (difficulty / 2) as usize;
        let has_half_nibble = difficulty % 2 == 1;
        let mut i: usize = 0;
        while i < full_bytes && i < 32
            invariant
                i <= 32,
                hash@.len() == 32,
                full_bytes == difficulty as nat / 2,
                forall|j: int| 0 <= j < i ==> hash@[j] == 0,
            decreases 32 - i,
        {
            if hash[i] != 0 {
                return false;
            }
            i = i + 1;
        }
        if has_half_nibble && full_bytes < 32 {
            if (hash[full_bytes] >> 4) != 0 {
                return false;
            }
        }
        true
    }

    /// The first nonce, counting up from 0, whose proof of work meets `dificulty`, with that
    /// proof; `None` when no 32-bit nonce does.
    pub fn brute_force_pow(pub_key: [u8; 32], challange: u32, dificulty: u32) -> (r: Option<(u32, [u8; 32])>)
        ensures
            r matches Some((n, h)) ==> {
                &&& h@ == pow_hash(pub_key@, challange, n)
                &&& meets_difficulty(h@, dificulty as nat)
                &&& forall|m: u32| m < n ==> !meets_difficulty(pow_hash(pub_key@, challange, m), dificulty as nat)
            },
            r is None ==> forall|m: u32| !meets_difficulty(pow_hash(pub_key@, challange, m), dificulty as nat),
    {
        let mut nonce: u32 = 0;
        loop
            invariant
                forall|m: u32| m < nonce ==> !meets_difficulty(pow_hash(pub_key@, challange, m), dificulty as nat),
            decreases u32::MAX - nonce,
        {
            let proof_of_work = Self::calculate_pow(pub_key, challange, nonce);
            if Self::validate_pow(&proof_of_work, dificulty) {
                return Some((nonce, proof_of_work));
            }
            if nonce == u32::MAX {
                return None;
            }
            nonce = nonce + 1;
        }
    }
}

/// Difficulty 0 accepts every hash; a difficulty of 64 nibbles or more (512 among them) accepts
/// a 32-byte hash only when it is all zero.
pub proof fn lemma_difficulty_bounds(h: Seq<u8>, d: nat)
    requires
        h.len() == 32,
    ensures
        meets_difficulty(h, 0),
        d >= 64 ==> (meets_difficulty(h, d) <==> forall|i: int| 0 <= i < 32 ==> h[i] == 0),
{
}

} // verus!
