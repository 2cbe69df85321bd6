//! The 32-bit key fingerprints used by the serializability check and by
//! the SST membership filter.

use vstd::prelude::*;

verus! {

/// The 32-bit hash that read- and write-sets are built from. The hash is
/// a pure function of the key bytes alone.
pub uninterp spec fn farmhash32_of(key: Seq<u8>) -> u32;

/// The 32-bit fingerprint inserted into the SST membership filter. The
/// fingerprint is a pure function of the key bytes alone.
pub uninterp spec fn fingerprint32_of(key: Seq<u8>) -> u32;

/// Relies on farmhash::hash32: a deterministic 32-bit hash of the bytes
/// alone.
#[verifier::external_body]
pub(crate) fn hash32(key: &[u8]) -> (r: u32)
    ensures
        r == farmhash32_of(key@),
{
    farmhash::hash32(key)
}

/// Relies on farmhash::fingerprint32: a stable, deterministic 32-bit
/// fingerprint of the bytes alone.
#[verifier::external_body]
pub(crate) fn fingerprint32(key: &[u8]) -> (r: u32)
    ensures
        r == fingerprint32_of(key@),
{
    farmhash::fingerprint32(key)
}

} // verus!
