//! Checksums guarding the section.  Computing them is delegated to the
//! `crc-any` crate; their values are only ever compared against the stored
//! ones, so the contracts name the results without spelling the polynomial
//! arithmetic out.

use vstd::prelude::*;

verus! {

/// The CRC-8/CCITT checksum (polynomial 0x07, no reflection, zero init) of a
/// byte string.
pub uninterp spec fn crc8_of(data: Seq<u8>) -> u8;

/// The CRC-32C (Castagnoli) checksum of a byte string.
pub uninterp spec fn crc32c_of(data: Seq<u8>) -> u32;

/// Relies on `crc_any::CRCu8`: `crc8()`, `digest` and `get_crc` compute a
/// checksum that depends on the digested bytes alone.
#[verifier::external_body]
pub(crate) fn crc8_checksum(data: &[u8]) -> (r: u8)
    ensures
        r == crc8_of(data@),
{
    let mut crc = crc_any::CRCu8::crc8();
    crc.digest(data);
    crc.get_crc()
}

/// Relies on `crc_any::CRCu32`: `crc32c()`, `digest` and `get_crc` compute a
/// checksum that depends on the digested bytes alone.
#[verifier::external_body]
pub(crate) fn crc32c_checksum(data: &[u8]) -> (r: u32)
    ensures
        r == crc32c_of(data@),
{
    let mut crc = crc_any::CRCu32::crc32c();
    crc.digest(data);
    crc.get_crc()
}

} // verus!
