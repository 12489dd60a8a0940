//! The bits of the gzip header's flag byte, and the block types of
//! DEFLATE.

use vstd::prelude::*;

verus! {

/// The content is probably text.
pub const FTEXT: u8 = 0x01;

/// A checksum of the header follows the optional fields.
pub const FHCRC: u8 = 0x02;

/// An extra field follows the fixed part of the header.
pub const FEXTRA: u8 = 0x04;

/// A file name, ended by a zero byte, follows.
pub const FNAME: u8 = 0x08;

/// A comment, ended by a zero byte, follows.
pub const FCOMMENT: u8 = 0x10;

/// The bits of the flag byte that have no meaning.
pub const RESERVED: u8 = 0xe0;

/// The type of a stored block.
pub const NO_COMPRESSION: u8 = 0;

/// The type of a block coded with the fixed code.
pub const FIXED_HUFF: u8 = 1;

/// The type of a block coded with a code of its own.
pub const DYNAMIC_HUFF: u8 = 2;

} // verus!
