//! The CRC-64 integrity check used by the digest format.

use vstd::prelude::*;

verus! {

/// The CRC-64 checksum of a byte string.  The value is determined by
/// the bytes alone; the contracts never say what it is on particular
/// bytes, only that the same bytes give the same checksum.
pub uninterp spec fn crc64_of(data: Seq<u8>) -> u64;

/// Relies on `checksum::crc64::Crc64::checksum`: a table-driven CRC-64
/// over the given bytes, a function of the bytes alone.
#[verifier::external_body]
pub(crate) fn crc64(data: &[u8]) -> (r: u64)
    ensures
        r == crc64_of(data@),
{
    let mut c = checksum::crc64::Crc64::new();
    c.checksum(data)
}

} // verus!
