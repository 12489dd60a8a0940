//! Stored blocks: bytes that are copied as they are.

use crate::bits::{align_up, read_bytes, read_lsb, BitStream};
use crate::block::Decoded;
use crate::error::GzipError;
use vstd::prelude::*;

verus! {

/// What a stored block adds to `out`: behind the block header the
/// stream skips to a byte boundary, gives the length and its
/// complement in sixteen bits each, and then that many bytes as they
/// are.
pub open spec fn stored_block(bytes: Seq<u8>, pos: nat, out: Seq<u8>) -> Decoded {
    match read_lsb(bytes, align_up(pos), 16) {
        Err(e) => Err(e),
        Ok((len, pos1)) => match read_lsb(bytes, pos1, 16) {
            Err(e) => Err(e),
            Ok((nlen, pos2)) => {
                if len + nlen != 0xffff {
                    Err(GzipError::StoredLengthMismatch)
                } else {
                    match read_bytes(bytes, pos2, len) {
                        Err(e) => Err(e),
                        Ok((data, pos3)) => Ok((out + data, pos3)),
                    }
                }
            },
        },
    }
}

/// Copies a stored block, from behind the block header on, to the end
/// of `out`.  When the block is rejected, nothing is consumed.
pub fn inflate_stored(bs: &mut BitStream, out: Vec<u8>) -> (r: Result<Vec<u8>, GzipError>)
    requires
        old(bs).wf(),
    ensures
        final(bs).wf(),
        final(bs)@.bytes == old(bs)@.bytes,
        match stored_block(old(bs)@.bytes, old(bs)@.pos, out@) {
            Ok((data, p)) => r matches Ok(v) && v@ == data && final(bs)@.pos == p,
            Err(e) => r matches Err(x) && x == e && final(bs)@.pos == old(bs)@.pos,
        },
{
    let mut cur = *bs;
    cur.clear_bits();
    let len = cur.get_nbit(16)?;
    let nlen = cur.get_nbit(16)?;
    if len as u32 + nlen as u32 != 0xffff {
        return Err(GzipError::StoredLengthMismatch);
    }
    let mut data = cur.get_nbytes(len as usize)?;
    let mut buf = out;
    buf.append(&mut data);
    *bs = cur;
    Ok(buf)
}

} // verus!
