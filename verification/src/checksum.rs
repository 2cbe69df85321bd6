//! The CRC-32 checksum used by every framed on-disk structure.

use vstd::prelude::*;

verus! {

/// The CRC-32 (IEEE) checksum of a byte string. The checksum is a pure
/// function of the bytes alone; its value is named rather than spelled
/// out, and contracts speak of this name.
pub uninterp spec fn crc32_of(data: Seq<u8>) -> u32;

/// Relies on crc32fast::hash: computes the CRC-32 (IEEE) checksum of the
/// bytes, a deterministic function of its input alone.
#[verifier::external_body]
pub(crate) fn crc32_hash(data: &[u8]) -> (r: u32)
    ensures
        r == crc32_of(data@),
{
    crc32fast::hash(data)
}

} // verus!
