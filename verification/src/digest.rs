//! The MD5 digest, which the `md5` crate computes.

use vstd::prelude::*;

verus! {

/// The MD5 digest of `data`: what `md5::compute` returns for these bytes.
pub uninterp spec fn md5_digest(data: Seq<u8>) -> [u8; 16];

/// Calls `md5::compute`, which feeds the bytes to a fresh MD5 context and hands
/// back the sixteen bytes of the digest. The claim: the digest depends on the
/// bytes alone, so that it can be given the name `md5_digest`.
#[verifier::external_body]
pub(crate) fn compute(data: &[u8]) -> (r: [u8; 16])
    ensures
        r == md5_digest(data@),
{
    md5::compute(data).0
}

} // verus!
