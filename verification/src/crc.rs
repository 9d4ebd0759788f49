//! Checksumming of the encoded buffers.

use vstd::prelude::*;

verus! {

/// The CRC32 checksum of a byte sequence, as the `crc32fast` crate computes
/// it. The checksum is a function of the bytes alone.
pub uninterp spec fn crc32_of(data: Seq<u8>) -> u32;

/// Relies on crc32fast::hash: the CRC32 of a byte slice, determined by the
/// bytes alone.
#[verifier::external_body]
pub(crate) fn crc32(data: &[u8]) -> (r: u32)
    ensures
        r == crc32_of(data@),
{
    crc32fast::hash(data)
}

} // verus!
