//! The cryptographic digest under a feature set's identity.

use digest::Digest;
use sha2::Sha256;
use vstd::prelude::*;

verus! {

/// The SHA-256 digest of `data`: the 32 bytes that the `sha2` crate computes
/// for it. Nothing else is assumed of these bytes.
pub uninterp spec fn sha256(data: Seq<u8>) -> [u8; 32];

/// Hashes `data` with `sha2::Sha256`: `Digest::new` makes the hasher,
/// `Digest::chain_update` feeds it all of `data`, and `Digest::finalize`
/// hands out the digest, whose 32 bytes are moved into a plain array.
///
/// Trusted, not proved: the bytes returned are `sha256(data@)`, that is, they
/// depend on the bytes of `data` alone.
#[verifier::external_body]
pub(crate) fn sha256_digest(data: &[u8]) -> (digest: [u8; 32])
    ensures
        digest == sha256(data@),
{
    Sha256::new().chain_update(data).finalize().into()
}

} // verus!
