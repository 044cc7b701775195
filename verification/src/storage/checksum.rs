//! The checksum that guards log records and table footers.

use vstd::prelude::*;

verus! {

/// The CRC-32 of `data`, as `crc32fast::hash` computes it.
pub uninterp spec fn crc32(data: Seq<u8>) -> u32;

/// `crc32fast::hash`: the CRC-32 checksum of a byte slice.
#[verifier::external_body]
pub(crate) fn checksum(data: &[u8]) -> (crc: u32)
    ensures
        crc == crc32(data@),
{
    crc32fast::hash(data)
}

} // verus!
