//! The gzip frame around a DEFLATE stream: a header with optional
//! fields in front, the checksum and the length of the content behind.

use crate::crc::{crc32, crc32_of};
use crate::error::GzipError;
use crate::flag;
use crate::inflate::{inflate, inflated};
use vstd::prelude::*;

verus! {

/// The first magic byte.
pub const ID1: u8 = 0x1f;

/// The second magic byte.
pub const ID2: u8 = 0x8b;

/// The compression method DEFLATE.
pub const CM_DEFLATE: u8 = 0x08;

/// The length of the header's fixed part.
pub const HEADER_LEN: usize = 10;

/// The length of the trailer.
pub const TRAILER_LEN: usize = 8;

/// The length of the shortest input that is looked at: the fixed part
/// of the header and the trailer.
pub const MIN_LEN: usize = 18;

/// The number that the four bytes from `at` on spell, least significant
/// byte first.
pub open spec fn le32(bytes: Seq<u8>, at: int) -> nat {
    (bytes[at] + 0x100 * bytes[at + 1] + 0x1_0000 * bytes[at + 2] + 0x100_0000 * bytes[at
        + 3]) as nat
}

/// The number that the two bytes from `at` on spell, least significant
/// byte first.
pub open spec fn le16(bytes: Seq<u8>, at: int) -> nat {
    (bytes[at] + 0x100 * bytes[at + 1]) as nat
}

/// The place of the first zero byte from `from` on and before `end`.
pub open spec fn first_nul(bytes: Seq<u8>, from: nat, end: nat) -> Option<nat>
    decreases end - from,
{
    if from >= end {
        None
    } else if bytes[from as int] == 0 {
        Some(from)
    } else {
        first_nul(bytes, from + 1, end)
    }
}

/// Where the header goes on behind the extra field that starts at
/// `at`, if the flags announce one: two bytes give its length.  No
/// part of the header reaches `end`, where the trailer starts.
pub open spec fn after_extra(bytes: Seq<u8>, flg: u8, at: nat, end: nat) -> Result<nat, GzipError> {
    if flg & flag::FEXTRA == 0 {
        Ok(at)
    } else if at + 2 > end || at + 2 + le16(bytes, at as int) > end {
        Err(GzipError::TruncatedInput)
    } else {
        Ok(at + 2 + le16(bytes, at as int))
    }
}

/// Where the header goes on behind the zero-terminated text that
/// starts at `at`, if there is one.
pub open spec fn after_text(bytes: Seq<u8>, present: bool, at: nat, end: nat) -> Result<
    nat,
    GzipError,
> {
    if !present {
        Ok(at)
    } else {
        match first_nul(bytes, at, end) {
            Some(nul) => Ok(nul + 1),
            None => Err(GzipError::TruncatedInput),
        }
    }
}

/// Where the header goes on behind its checksum at `at`, if the flags
/// announce one.
pub open spec fn after_hcrc(flg: u8, at: nat, end: nat) -> Result<nat, GzipError> {
    if flg & flag::FHCRC == 0 {
        Ok(at)
    } else if at + 2 > end {
        Err(GzipError::TruncatedInput)
    } else {
        Ok(at + 2)
    }
}

/// Where the compressed data starts: behind the fixed part of the
/// header and the optional fields, which come in the order extra field,
/// file name, comment, header checksum.
pub open spec fn payload_start(bytes: Seq<u8>) -> Result<nat, GzipError> {
    let flg = bytes[3];
    let end = (bytes.len() - TRAILER_LEN) as nat;
    match after_extra(bytes, flg, HEADER_LEN as nat, end) {
        Err(e) => Err(e),
        Ok(name) => match after_text(bytes, flg & flag::FNAME != 0, name, end) {
            Err(e) => Err(e),
            Ok(comment) => match after_text(bytes, flg & flag::FCOMMENT != 0, comment, end) {
                Err(e) => Err(e),
                Ok(hcrc) => after_hcrc(flg, hcrc, end),
            },
        },
    }
}

/// The file name in the header, without the zero byte that ends it.
pub open spec fn filename_of(bytes: Seq<u8>) -> Option<Seq<u8>> {
    let flg = bytes[3];
    let end = (bytes.len() - TRAILER_LEN) as nat;
    if flg & flag::FNAME == 0 {
        None
    } else {
        match after_extra(bytes, flg, HEADER_LEN as nat, end) {
            Err(_) => None,
            Ok(name) => match first_nul(bytes, name, end) {
                Some(nul) => Some(bytes.subrange(name as int, nul as int)),
                None => None,
            },
        }
    }
}

/// What contracts see of a gzip member.
pub struct Member {
    pub id1: u8,
    pub id2: u8,
    pub cm: u8,
    pub flg: u8,
    pub mtime: u32,
    pub xfl: u8,
    pub os: u8,
    pub filename: Option<Seq<u8>>,
    pub cdata: Seq<u8>,
    pub crc32: u32,
    pub isize: u32,
}

/// The member that `bytes` hold, or the reason why they are rejected:
/// too short for a header and a trailer, wrong magic bytes or
/// compression method, a reserved flag, or an optional field that does
/// not end before the trailer.
pub open spec fn member_of(bytes: Seq<u8>) -> Result<Member, GzipError> {
    if bytes.len() < MIN_LEN {
        Err(GzipError::TruncatedInput)
    } else if bytes[0] != ID1 || bytes[1] != ID2 || bytes[2] != CM_DEFLATE {
        Err(GzipError::BadMagic)
    } else if bytes[3] & flag::RESERVED != 0 {
        Err(GzipError::UnsupportedFlag)
    } else {
        match payload_start(bytes) {
            Err(e) => Err(e),
            Ok(start) => {
                let end = bytes.len() - TRAILER_LEN;
                Ok(
                    Member {
                        id1: bytes[0],
                        id2: bytes[1],
                        cm: bytes[2],
                        flg: bytes[3],
                        mtime: le32(bytes, 4) as u32,
                        xfl: bytes[8],
                        os: bytes[9],
                        filename: filename_of(bytes),
                        cdata: bytes.subrange(start as int, end),
                        crc32: le32(bytes, end) as u32,
                        isize: le32(bytes, end + 4) as u32,
                    },
                )
            },
        }
    }
}

/// The content of a member, or the reason why it is rejected.  The
/// content is checked against the trailer only once it was decoded in
/// full: its length modulo `2^32` first, then its checksum.
pub open spec fn content_of(member: Member) -> Result<Seq<u8>, GzipError> {
    match inflated(member.cdata) {
        Err(e) => Err(e),
        Ok(data) => {
            if data.len() % 0x1_0000_0000 != member.isize {
                Err(GzipError::LengthMismatch)
            } else if crc32_of(data) != member.crc32 {
                Err(GzipError::CrcMismatch)
            } else {
                Ok(data)
            }
        },
    }
}

/// The content of the gzip member `bytes`, or the reason why it is
/// rejected.
pub open spec fn gunzipped(bytes: Seq<u8>) -> Result<Seq<u8>, GzipError> {
    match member_of(bytes) {
        Err(e) => Err(e),
        Ok(member) => content_of(member),
    }
}

/// The header and trailer of a gzip member, and the compressed data
/// between them.
#[derive(Debug)]
pub struct GzipMeta<'a> {
    pub id1: u8,
    pub id2: u8,
    pub cm: u8,
    pub flg: u8,
    pub mtime: u32,
    pub xfl: u8,
    pub os: u8,
    /// The file name as the header holds it, if it holds one.
    pub filename: Option<Vec<u8>>,
    pub cdata: &'a [u8],
    pub crc32: u32,
    pub isize: u32,
}

impl<'a> View for GzipMeta<'a> {
    type V = Member;

    open spec fn view(&self) -> Member {
        Member {
            id1: self.id1,
            id2: self.id2,
            cm: self.cm,
            flg: self.flg,
            mtime: self.mtime,
            xfl: self.xfl,
            os: self.os,
            filename: match self.filename {
                Some(name) => Some(name@),
                None => None,
            },
            cdata: self.cdata@,
            crc32: self.crc32,
            isize: self.isize,
        }
    }
}

/// A gzip member with its content.
#[derive(Debug)]
pub struct Gzip<'a> {
    pub meta: GzipMeta<'a>,
    pub data: Vec<u8>,
}

/// Reads four bytes as a number, least significant byte first.
fn read_u32_le(bytes: &[u8], at: usize) -> (v: u32)
    requires
        at + 4 <= bytes@.len(),
    ensures
        v == le32(bytes@, at as int),
{
    let b0 = bytes[at] as u32;
    let b1 = bytes[at + 1] as u32;
    let b2 = bytes[at + 2] as u32;
    let b3 = bytes[at + 3] as u32;
    assert(b0 | (b1 << 8) | (b2 << 16) | (b3 << 24) == b0 + 0x100 * b1 + 0x1_0000 * b2 + 0x100_0000
        * b3) by (bit_vector)
        requires
            b0 < 0x100,
            b1 < 0x100,
            b2 < 0x100,
            b3 < 0x100,
    ;
    b0 | (b1 << 8) | (b2 << 16) | (b3 << 24)
}

/// Looks for the first zero byte from `from` on and before `end`.
fn find_nul(bytes: &[u8], from: usize, end: usize) -> (r: Option<usize>)
    requires
        from <= end <= bytes@.len(),
    ensures
        match first_nul(bytes@, from as nat, end as nat) {
            Some(nul) => r == Some(nul as usize) && from <= nul < end,
            None => r.is_none(),
        },
{
    let mut i = from;
    while i < end
        invariant
            from <= i <= end <= bytes@.len(),
            first_nul(bytes@, from as nat, end as nat) == first_nul(bytes@, i as nat, end as nat),
        decreases end - i,
    {
        if bytes[i] == 0 {
            return Some(i);
        }
        i += 1;
    }
    None
}

/// Skips the extra field at `at`, if the flags announce one.
fn skip_extra(bytes: &[u8], flg: u8, at: usize, end: usize) -> (r: Result<usize, GzipError>)
    requires
        at <= end <= bytes@.len(),
    ensures
        match after_extra(bytes@, flg, at as nat, end as nat) {
            Ok(next) => r == Ok::<usize, GzipError>(next as usize) && at <= next <= end,
            Err(e) => r == Err::<usize, GzipError>(e),
        },
{
    if flg & flag::FEXTRA == 0 {
        return Ok(at);
    }
    if end - at < 2 {
        return Err(GzipError::TruncatedInput);
    }
    let xlen: usize = bytes[at] as usize + 0x100 * (bytes[at + 1] as usize);
    if end - at - 2 < xlen {
        return Err(GzipError::TruncatedInput);
    }
    Ok(at + 2 + xlen)
}

/// Skips the zero-terminated text at `at`, if there is one.
fn skip_text(bytes: &[u8], present: bool, at: usize, end: usize) -> (r: Result<usize, GzipError>)
    requires
        at <= end <= bytes@.len(),
    ensures
        match after_text(bytes@, present, at as nat, end as nat) {
            Ok(next) => r == Ok::<usize, GzipError>(next as usize) && at <= next <= end,
            Err(e) => r == Err::<usize, GzipError>(e),
        },
        present && r.is_ok() ==> at < r.unwrap() && first_nul(bytes@, at as nat, end as nat)
            == Some((r.unwrap() - 1) as nat),
{
    if !present {
        return Ok(at);
    }
    match find_nul(bytes, at, end) {
        Some(nul) => Ok(nul + 1),
        None => Err(GzipError::TruncatedInput),
    }
}

/// Skips the header checksum at `at`, if the flags announce one.
fn skip_hcrc(flg: u8, at: usize, end: usize) -> (r: Result<usize, GzipError>)
    requires
        at <= end,
    ensures
        match after_hcrc(flg, at as nat, end as nat) {
            Ok(next) => r == Ok::<usize, GzipError>(next as usize) && at <= next <= end,
            Err(e) => r == Err::<usize, GzipError>(e),
        },
{
    if flg & flag::FHCRC == 0 {
        Ok(at)
    } else if end - at < 2 {
        Err(GzipError::TruncatedInput)
    } else {
        Ok(at + 2)
    }
}

/// Takes a gzip member apart: checks the header, skips its optional
/// fields, and reads the trailer.
pub fn parse_gzip_meta<'a>(bytes: &'a [u8]) -> (r: Result<GzipMeta<'a>, GzipError>)
    ensures
        match member_of(bytes@) {
            Ok(member) => r matches Ok(meta) && meta@ == member,
            Err(e) => r matches Err(x) && x == e,
        },
{
    if bytes.len() < MIN_LEN {
        return Err(GzipError::TruncatedInput);
    }
    if bytes[0] != ID1 || bytes[1] != ID2 || bytes[2] != CM_DEFLATE {
        return Err(GzipError::BadMagic);
    }
    let flg = bytes[3];
    if flg & flag::RESERVED != 0 {
        return Err(GzipError::UnsupportedFlag);
    }
    let end: usize = bytes.len() - TRAILER_LEN;
    let name_at = skip_extra(bytes, flg, HEADER_LEN, end)?;
    let comment_at = skip_text(bytes, flg & flag::FNAME != 0, name_at, end)?;
    let hcrc_at = skip_text(bytes, flg & flag::FCOMMENT != 0, comment_at, end)?;
    let start = skip_hcrc(flg, hcrc_at, end)?;
    let filename = if flg & flag::FNAME != 0 {
        let mut name: Vec<u8> = Vec::new();
        name.extend_from_slice(&bytes[name_at..comment_at - 1]);
        Some(name)
    } else {
        None
    };
    let meta = GzipMeta {
        id1: bytes[0],
        id2: bytes[1],
        cm: bytes[2],
        flg,
        mtime: read_u32_le(bytes, 4),
        xfl: bytes[8],
        os: bytes[9],
        filename,
        cdata: &bytes[start..end],
        crc32: read_u32_le(bytes, end),
        isize: read_u32_le(bytes, end + 4),
    };
    proof {
        let member = member_of(bytes@).unwrap();
        assert(meta@.filename == member.filename);
        assert(meta@.cdata == member.cdata);
    }
    Ok(meta)
}

/// Decodes a gzip member and checks its content against the trailer.
pub fn ungzip<'a>(bytes: &'a [u8]) -> (r: Result<Gzip<'a>, GzipError>)
    ensures
        match gunzipped(bytes@) {
            Ok(data) => r matches Ok(gz) && gz.data@ == data && member_of(bytes@) == Ok::<
                Member,
                GzipError,
            >(gz.meta@),
            Err(e) => r matches Err(x) && x == e,
        },
{
    let meta = parse_gzip_meta(bytes)?;
    let data = inflate(meta.cdata)?;
    if data.len() as u64 % 0x1_0000_0000 != meta.isize as u64 {
        return Err(GzipError::LengthMismatch);
    }
    if crc32(data.as_slice()) != meta.crc32 {
        return Err(GzipError::CrcMismatch);
    }
    Ok(Gzip { meta, data })
}

} // verus!
