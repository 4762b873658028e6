//! SHA-1, as the `sha1` crate computes it.

use sha1::{Digest, Sha1};
use vstd::prelude::*;

verus! {

/// The SHA-1 digest of `data`. The algorithm is not written out here: this is the
/// name of what the `sha1` crate computes.
pub uninterp spec fn sha1_digest(data: Seq<u8>) -> Seq<u8>;

/// Computes the SHA-1 digest of `data` with `Sha1::digest` of the `sha1` crate.
///
/// Taken on trust: that the 20 bytes handed back depend on the bytes of `data` and
/// on nothing else, so that they are `sha1_digest` of those bytes.
#[verifier::external_body]
pub(crate) fn sha1(data: &[u8]) -> (hash: [u8; 20])
    ensures
        hash@ == sha1_digest(data@),
{
    Sha1::digest(data).into()
}

} // verus!
