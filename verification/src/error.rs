//! The ways in which decoding a gzip member can fail.

use vstd::prelude::*;

verus! {

/// Why an input was rejected.
///
/// Every failure is fatal: the decoder stops at the first one and hands
/// back no partial output.
#[derive(Clone, Copy, Debug, PartialEq, Eq, Structural)]
pub enum GzipError {
    /// The input ended in the middle of a field.
    TruncatedInput,
    /// The magic bytes or the compression method are not those of gzip
    /// with DEFLATE.
    BadMagic,
    /// A reserved bit of the header's flag byte is set.
    UnsupportedFlag,
    /// A block announces the reserved block type.
    ReservedBlockType,
    /// A stored block's length and its complement disagree.
    StoredLengthMismatch,
    /// A vector of code lengths does not describe a complete prefix code.
    IncompleteHuffman,
    /// A decoded symbol lies outside its alphabet.
    InvalidHuffmanSymbol,
    /// A back-reference reaches before the start of the output.
    InvalidBackReference,
    /// The number of decoded bytes differs from the length in the trailer.
    LengthMismatch,
    /// The checksum of the decoded bytes differs from that in the trailer.
    CrcMismatch,
}

} // verus!
