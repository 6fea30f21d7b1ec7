//! Signed transactions with an opaque payload.

use crate::encoding::{le_bytes, push_le};
use crate::hash_func::{double_sha256, double_sha256_of, sha256, sha256_of};
use crate::secret_key::{ed25519_signature, SecretPair};
use crate::signature::{HandleSignature, Signature};
use crate::utils::{decimal_ascii, hex_ascii, push_decimal, push_hex, slice_to_vec};
use vstd::prelude::*;

verus! {

/// What a transaction is, as a value.
pub struct TransactionView {
    pub from: [u8; 32],
    pub data: Seq<u8>,
    pub signature: Signature,
    pub nonce: u32,
    pub timestamp: i64,
}

/// A transaction: who sends it, its payload, a signature over its fingerprint, a nonce and the
/// time it was made (seconds since the epoch).
#[derive(Debug)]
pub struct Transaction {
    pub from: [u8; 32],
    pub data: Vec<u8>,
    pub signature: Signature,
    pub nonce: u32,
    pub timestamp: i64,
}

/// Decimal text of a signed number, with a leading `-` when negative.
pub open spec fn signed_decimal(t: int) -> Seq<u8> {
    if t < 0 {
        seq![45u8] + decimal_ascii((-t) as nat)
    } else {
        decimal_ascii(t as nat)
    }
}

/// The bytes that a transaction signs: `hex(H(payload)) || timestamp || nonce`, numbers in decimal.
pub open spec fn fingerprint_input(data: Seq<u8>, timestamp: i64, nonce: u32) -> Seq<u8> {
    hex_ascii(sha256_of(data)) + signed_decimal(timestamp as int) + decimal_ascii(nonce as nat)
}

/// The fingerprint `H²(fingerprint_input)` that the sender signs.
pub open spec fn fingerprint(data: Seq<u8>, timestamp: i64, nonce: u32) -> Seq<u8> {
    double_sha256(fingerprint_input(data, timestamp, nonce))
}

/// The canonical bytes of a transaction: sender key, payload length (8 bytes) and payload,
/// signature and signer key, nonce (4 bytes), timestamp (8 bytes); integers little-endian.
pub open spec fn tx_bytes(t: TransactionView) -> Seq<u8> {
    t.from@ + le_bytes(t.data.len(), 8) + t.data + t.signature.signature@ + t.signature.pub_key@
        + le_bytes(t.nonce as nat, 4) + le_bytes((t.timestamp as u64) as nat, 8)
}

/// Relies on chrono::DateTime::<Utc>::from_timestamp and DateTime::timestamp: the instant `secs`
/// seconds (and `nsecs` nanoseconds) after the epoch when chrono can represent it, read back in
/// whole seconds; `None` otherwise.
#[verifier::external_body]
fn utc_timestamp(secs: i64, nsecs: u32) -> (r: Option<i64>)
    ensures
        r matches Some(t) ==> t == secs,
{
    match chrono::DateTime::<chrono::Utc>::from_timestamp(secs, nsecs) {
        Some(d) => Some(d.timestamp()),
        None => None,
    }
}

impl Transaction {
    pub open spec fn view(&self) -> TransactionView {
        TransactionView {
            from: self.from,
            data: self.data@,
            signature: self.signature,
            nonce: self.nonce,
            timestamp: self.timestamp,
        }
    }

    /// A transaction of `data` from `pair`, stamped with the current time in seconds and a
    /// random nonce; `None` when the clock or the randomness cannot be read.
    pub fn new(pair: SecretPair, data: Vec<u8>) -> (r: Option<Transaction>)
        ensures
            r matches Some(t) ==> {
                &&& t.from == pair.public_key
                &&& t.data@ == data@
                &&& t.signature.pub_key == pair.public_key
                &&& t.signature.signature@ == ed25519_signature(pair.private_key@, fingerprint(data@, t.timestamp, t.nonce))
            },
    {
        let nanos = crate::block_builder::now_nanos();
        let secs = nanos / 1_000_000_000;
        if secs > i64::MAX as u128 {
            return None;
        }
        let timestamp = utc_timestamp(secs as i64, (nanos % 1_000_000_000) as u32)?;
        let nonce = crate::secret_key::random_u32()?;
        Some(Self::new_at(pair, data, timestamp, nonce))
    }

    /// The transaction of `data` from `pair` made at `timestamp` with `nonce`.
    pub fn new_at(pair: SecretPair, data: Vec<u8>, timestamp: i64, nonce: u32) -> (r: Transaction)
        ensures
            r.from == pair.public_key,
            r.data@ == data@,
            r.timestamp == timestamp,
            r.nonce == nonce,
            r.signature.pub_key == pair.public_key,
            r.signature.signature@ == ed25519_signature(pair.private_key@, fingerprint(data@, timestamp, nonce)),
    {
        let digest = sha256(data.as_slice());
        let mut input: Vec<u8> = Vec::new();
        push_hex(&digest, &mut input);
        if timestamp < 0 {
            input.push(45u8);
            push_decimal((-(timestamp as i128)) as u128, &mut input);
        } else {
            push_decimal(timestamp as u128, &mut input);
        }
        push_decimal(nonce as u128, &mut input);
        assert(input@ =~= fingerprint_input(data@, timestamp, nonce));
        let finger_print = double_sha256_of(input.as_slice());
        let signature = Signature::sign(pair, finger_print);
        Transaction { from: pair.public_key, data, signature, nonce, timestamp }
    }

    /// The payload.
    pub fn get_data(&self) -> (r: &Vec<u8>)
        ensures
            r@ == self.data@,
    {
        &self.data
    }

    /// The canonical bytes of this transaction.
    pub fn to_bytes(&self) -> (r: Vec<u8>)
        ensures
            r@ == tx_bytes(self.view()),
    {
        let mut out = slice_to_vec(&self.from);
        push_le(self.data.len() as u128, 8, &mut out);
        let mut i: usize = 0;
        let ghost start = out@;
        while i < self.data.len()
            invariant
                i <= self.data@.len(),
                out@ == start + self.data@.subrange(0, i as int),
            decreases self.data@.len() - i,
        {
            out.push(self.data[i]);
            i = i + 1;
        }
        let mut j: usize = 0;
        let ghost mid = out@;
        while j < 64
            invariant
                j <= 64,
                self.signature.signature@.len() == 64,
                out@ == mid + self.signature.signature@.subrange(0, j as int),
            decreases 64 - j,
        {
            out.push(self.signature.signature[j]);
            j = j + 1;
        }
        let mut k: usize = 0;
        let ghost mid2 = out@;
        while k < 32
            invariant
                k <= 32,
                self.signature.pub_key@.len() == 32,
                out@ == mid2 + self.signature.pub_key@.subrange(0, k as int),
            decreases 32 - k,
        {
            out.push(self.signature.pub_key[k]);
            k = k + 1;
        }
        push_le(self.nonce as u128, 4, &mut out);
        push_le((self.timestamp as u64) as u128, 8, &mut out);
        assert(self.data@.subrange(0, self.data@.len() as int) =~= self.data@);
        assert(self.signature.signature@.subrange(0, 64) =~= self.signature.signature@);
        assert(self.signature.pub_key@.subrange(0, 32) =~= self.signature.pub_key@);
        assert(out@ =~= tx_bytes(self.view()));
        out
    }
}

impl Clone for Transaction {
    fn clone(&self) -> (r: Self)
        ensures
            r.view() == self.view(),
    {
        Transaction {
            from: self.from,
            data: self.data.clone(),
            signature: self.signature,
            nonce: self.nonce,
            timestamp: self.timestamp,
        }
    }
}

} // verus!
