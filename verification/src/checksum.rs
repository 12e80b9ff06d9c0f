//! The protocol identifier checksum.
//!
//! A protocol name is turned into a 32-bit magic number by CRC32-IEEE;
//! the number is appended to every datagram and checked on receipt, so
//! that traffic from unrelated programs is rejected outright.

use vstd::prelude::*;

verus! {

/// The CRC32-IEEE checksum of a byte sequence. The checksum is a pure
/// function of the bytes; its defining polynomial arithmetic is left
/// uninterpreted here and delegated to the `crc` crate.
pub uninterp spec fn crc32_of(data: Seq<u8>) -> u32;

/// Relies on `crc::crc32::checksum_ieee`: the IEEE CRC32 of the given
/// bytes, a pure function of its input that never fails.
#[verifier::external_body]
pub(crate) fn crc32_ieee(data: &[u8]) -> (checksum: u32)
    ensures
        checksum == crc32_of(data@),
{
    crc::crc32::checksum_ieee(data)
}

} // verus!
