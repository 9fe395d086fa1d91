//! SHA-256 digests.

use sha2::{Digest, Sha256};
use vstd::prelude::*;

verus! {

/// The SHA-256 digest of a byte string, as `sha2::Sha256::digest` computes it.
pub uninterp spec fn sha256_of(bytes: Seq<u8>) -> Seq<u8>;

/// Calls `sha2::Sha256::digest`. The digest depends on the bytes alone; which
/// bytes it holds is left to the name [`sha256_of`].
#[verifier::external_body]
fn call_sha256(bytes: &[u8]) -> (digest: [u8; 32])
    ensures
        digest@ == sha256_of(bytes@),
{
    Sha256::digest(bytes).into()
}

/// The SHA-256 digest of a byte string.
pub fn sha256(bytes: &[u8]) -> (digest: [u8; 32])
    ensures
        digest@ == sha256_of(bytes@),
{
    call_sha256(bytes)
}

} // verus!
