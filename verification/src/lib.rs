//! Reader for plain-front-coded dictionary sections.
//!
//! A section maps a sorted set of strings to the dense identifiers
//! `1..=num_strings` and back.  Strings are grouped into blocks; the first
//! string of each block is stored whole and every later string as a
//! `(shared_prefix_len, suffix)` pair.  A bit-packed index gives the byte
//! offset of each block, and two checksums guard the header and the block
//! store.

use vstd::prelude::*;

pub mod crc;
pub mod dict_sect_pfc;
pub mod order;
pub mod sequence;
pub mod term;
pub mod vbyte;

verus! {

/// Which checksum of the section failed to validate.
#[derive(Debug, Clone, Copy, PartialEq, Eq, Structural)]
pub enum ChecksumKind {
    /// The CRC-8 over the section header fields.
    Header,
    /// A checksum of the packed index: the CRC-8 over its count and width
    /// fields, or the CRC-32C over its payload.
    Index,
    /// The CRC-32C over the front-coded block store.
    BlockStore,
}

/// The ways reading a section from bytes can fail.  Construction aborts on
/// the first error; a successfully constructed section never fails.
#[derive(Debug, Clone, Copy, PartialEq, Eq, Structural)]
pub enum DictError {
    /// The input ended before a field was fully read.
    TruncatedInput,
    /// A variable-length integer had no terminating byte or overflows 64 bits.
    MalformedVarint,
    /// A stored checksum disagrees with the one computed over the data read.
    ChecksumMismatch(ChecksumKind),
    /// A field holds a value the format does not allow.
    InvalidEncoding,
    /// A computed offset or index exceeds the buffer it points into.
    OutOfBounds,
}

} // verus!
