//! The CRC-32 of a record.

use vstd::prelude::*;

verus! {

/// The CRC-32 (IEEE) checksum of `data`, as the `crc32fast` crate computes it.
pub uninterp spec fn crc32(data: Seq<u8>) -> u32;

/// Calls `crc32fast::hash`, which feeds the bytes to a fresh `Hasher` and
/// finalizes it. Trusted: the checksum depends on the bytes alone.
#[verifier::external_body]
pub(crate) fn checksum(data: &[u8]) -> (sum: u32)
    ensures
        sum == crc32(data@),
{
    crc32fast::hash(data)
}

} // verus!
