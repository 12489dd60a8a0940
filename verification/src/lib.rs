//! A verified decoder for gzip members whose payload is a DEFLATE
//! stream.
//!
//! `gzip::ungzip` takes a member apart, decodes its stream with
//! `inflate::inflate`, and checks the content against the length and
//! the CRC-32 of the trailer.  Every function is proved to compute what
//! a spec function of the same module says that the format means; the
//! spec functions of the whole decoder come together in
//! `gzip::gunzipped`.
//!
//! The decoder reads one member from a byte slice that holds all of
//! it.  It does not compress, and it knows neither members in a row
//! nor preset dictionaries.

pub mod backref;
pub mod bits;
pub mod block;
pub mod crc;
pub mod driver;
pub mod dynamic;
pub mod encodings;
pub mod error;
pub mod fixed;
pub mod flag;
pub mod gzip;
pub mod huffman;
pub mod inflate;
pub mod stored;
