//! The two hash functions of the system: `H` (SHA-256) and `H²` (SHA-256 applied twice).

use sha2::Digest;
use vstd::prelude::*;

verus! {

/// The SHA-256 digest of a byte string.
pub uninterp spec fn sha256_of(data: Seq<u8>) -> Seq<u8>;

/// `H²(x) = H(H(x))`.
pub open spec fn double_sha256(data: Seq<u8>) -> Seq<u8> {
    sha256_of(sha256_of(data))
}

/// Relies on sha2::Sha256::digest: the 32-byte SHA-256 digest of the input bytes.
#[verifier::external_body]
fn sha256_digest(data: &[u8]) -> (r: [u8; 32])
    ensures
        r@ == sha256_of(data@),
{
    sha2::Sha256::digest(data).into()
}

/// `H(x)`.
pub fn sha256(data: &[u8]) -> (r: [u8; 32])
    ensures
        r@ == sha256_of(data@),
{
    sha256_digest(data)
}

/// `H²(x)`: the digest of the digest.
pub fn double_sha256_of(data: &[u8]) -> (r: [u8; 32])
    ensures
        r@ == double_sha256(data@),
{
    let first = sha256_digest(data);
    sha256_digest(&first)
}

/// Hashing `x` twice with `H²` is the same as hashing the digest of `x` once more: `H²(x) = H(H(x))`
/// for every byte string `x`.
pub proof fn lemma_double_hash_is_hash_of_hash(x: Seq<u8>)
    ensures
        double_sha256(x) == sha256_of(sha256_of(x)),
{
}

/// A hash function from bytes to 32 bytes.
pub trait HashFunc {
    fn hash(&self, value: &[u8]) -> [u8; 32];
}

/// `H`: a single SHA-256 pass.
#[derive(Clone, Copy, Debug, Default)]
pub struct DefaultHasher;

/// `H²`: SHA-256 of SHA-256.
#[derive(Clone, Copy, Debug, Default)]
pub struct DoubleHasher;

impl HashFunc for DefaultHasher {
    fn hash(&self, value: &[u8]) -> (r: [u8; 32])
        ensures
            r@ == sha256_of(value@),
    {
        sha256(value)
    }
}

impl HashFunc for DoubleHasher {
    fn hash(&self, value: &[u8]) -> (r: [u8; 32])
        ensures
            r@ == double_sha256(value@),
    {
        double_sha256_of(value)
    }
}

} // verus!
