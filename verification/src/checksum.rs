//! The 32-bit integrity checksum stored in every record.

use vstd::prelude::*;

verus! {

/// The 32-bit cyclic redundancy check of a byte sequence, under the fixed
/// CRC-32/CKSUM algorithm. The value is a function of the bytes alone; it is
/// left uninterpreted here and computed by the `crc` crate.
pub uninterp spec fn crc32_of(data: Seq<u8>) -> u32;

/// Relies on `crc::Crc::<u32>::checksum` with the `CRC_32_CKSUM` algorithm:
/// a table-driven computation whose result depends on the input bytes alone.
#[verifier::external_body]
pub(crate) fn crc32(data: &[u8]) -> (r: u32)
    ensures
        r == crc32_of(data@),
{
    crc::Crc::<u32>::new(&crc::CRC_32_CKSUM).checksum(data)
}

} // verus!
