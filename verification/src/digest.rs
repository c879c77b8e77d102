//! SHA-256 digests.

use sha2::{Digest, Sha256};
use sp1_primitives::io::sha256_hash;
use vstd::prelude::*;

verus! {

/// The SHA-256 digest of a byte string.
pub uninterp spec fn sha256(data: Seq<u8>) -> Seq<u8>;

/// Calls `Sha256::digest` of `sha2`. The result is the digest of the data, 32 bytes.
#[verifier::external_body]
pub(crate) fn sha256_32(data: &[u8]) -> (r: [u8; 32])
    ensures
        r@ == sha256(data@),
{
    Sha256::digest(data).into()
}

/// Calls `sha256_hash` of `sp1_primitives`, which hands the data to the same `Sha256` and returns the
/// digest as a vector of 32 bytes.
#[verifier::external_body]
pub(crate) fn sha256_vec(data: &[u8]) -> (r: Vec<u8>)
    ensures
        r@ == sha256(data@),
        r@.len() == 32,
{
    sha256_hash(data)
}

} // verus!
