//! The checksum that guards a record's key and value.

use vstd::prelude::*;

verus! {

/// The CRC-32/CKSUM checksum of `data`, as the `crc` crate computes it.
pub uninterp spec fn crc32_cksum(data: Seq<u8>) -> u32;

/// Calls `crc::Crc::checksum` with the algorithm `crc::CRC_32_CKSUM`. The
/// checksummer is made without a lookup table, which would be built anew at
/// every call.
///
/// Not proved: that the call returns `crc32_cksum` of the bytes it was given,
/// which says no more than that the checksum depends on those bytes alone.
#[verifier::external_body]
pub(crate) fn checksum(data: &[u8]) -> (sum: u32)
    ensures
        sum == crc32_cksum(data@),
{
    crc::Crc::<u32, crc::NoTable>::new(&crc::CRC_32_CKSUM).checksum(data)
}

} // verus!
