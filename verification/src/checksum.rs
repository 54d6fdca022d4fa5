//! CRC-32 checksums of frame payloads.

use vstd::prelude::*;

verus! {

/// The CRC-32 (IEEE) checksum of a byte sequence.
pub uninterp spec fn crc32(data: Seq<u8>) -> u32;

/// Computes the CRC-32 checksum of `data`.
///
/// Calls `crc32fast::hash`, which feeds the whole slice to a fresh hasher and
/// returns its final state. The result depends on the bytes alone, whichever
/// implementation the crate selects for the processor at hand; that it equals
/// `crc32` of the slice's contents is taken on trust.
#[verifier::external_body]
pub(crate) fn checksum(data: &[u8]) -> (sum: u32)
    ensures
        sum == crc32(data@),
{
    crc32fast::hash(data)
}

} // verus!
