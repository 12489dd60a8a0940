//! The DEFLATE decoder: a stream is a run of blocks, each stored, coded
//! with the fixed Huffman code, or coded with a code of its own.
//!
//! Each part of the format has a spec function that says what a
//! conforming stream holds at a bit position: either the decoded value
//! with the position behind it, or the reason why the stream is
//! rejected there.  The executable functions are proved to compute
//! exactly that.

use crate::bits::{bit_len, read_lsb, BitStream};
use crate::block::Decoded;
use crate::dynamic::{dynamic_block, inflate_dynamic_huff, lemma_dynamic_block_advances};
use crate::error::GzipError;
use crate::fixed::{fixed_block, inflate_fixed_huff, lemma_fixed_block_advances};
use crate::flag;
use crate::stored::{inflate_stored, stored_block};
use vstd::prelude::*;

verus! {

/// What the block of type `btype` at `pos`, behind the block header,
/// adds to `out`.
#[verifier::opaque]
pub open spec fn block_at(bytes: Seq<u8>, pos: nat, btype: nat, out: Seq<u8>) -> Decoded {
    if btype == flag::NO_COMPRESSION {
        stored_block(bytes, pos, out)
    } else if btype == flag::FIXED_HUFF {
        fixed_block(bytes, pos, out)
    } else if btype == flag::DYNAMIC_HUFF {
        dynamic_block(bytes, pos, out)
    } else {
        Err(GzipError::ReservedBlockType)
    }
}

/// What the blocks from `pos` on, up to and with the first one marked
/// final, add to `out`.
pub open spec fn blocks(bytes: Seq<u8>, pos: nat, out: Seq<u8>) -> Decoded
    decreases bit_len(bytes) - pos,
{
    match read_lsb(bytes, pos, 1) {
        Err(e) => Err(e),
        Ok((bfinal, pos1)) => match read_lsb(bytes, pos1, 2) {
            Err(e) => Err(e),
            Ok((btype, pos2)) => match block_at(bytes, pos2, btype, out) {
                Err(e) => Err(e),
                Ok((data, pos3)) => {
                    if bfinal == 1 {
                        Ok((data, pos3))
                    } else {
                        proof {
                            lemma_block_advances(bytes, pos2, btype, out);
                        }
                        blocks(bytes, pos3, data)
                    }
                },
            },
        },
    }
}

/// The bytes that the DEFLATE stream `bytes` stands for, or the reason
/// why it is rejected.
pub open spec fn inflated(bytes: Seq<u8>) -> Result<Seq<u8>, GzipError> {
    match blocks(bytes, 0, Seq::empty()) {
        Ok((data, _)) => Ok(data),
        Err(e) => Err(e),
    }
}

/// A block ends no earlier than it starts, and within the input.
pub proof fn lemma_block_advances(bytes: Seq<u8>, pos: nat, btype: nat, out: Seq<u8>)
    ensures
        block_at(bytes, pos, btype, out) matches Ok((_, p)) ==> pos <= p <= bit_len(bytes),
{
    reveal(block_at);
    if btype == flag::FIXED_HUFF {
        lemma_fixed_block_advances(bytes, pos, out);
    } else if btype == flag::DYNAMIC_HUFF {
        lemma_dynamic_block_advances(bytes, pos, out);
    }
}

/// Decodes a DEFLATE stream: block after block, up to and with the
/// first one marked final.
pub fn inflate(bytes: &[u8]) -> (r: Result<Vec<u8>, GzipError>)
    ensures
        match inflated(bytes@) {
            Ok(data) => r matches Ok(v) && v@ == data,
            Err(e) => r matches Err(x) && x == e,
        },
{
    let mut bs = BitStream::new(bytes);
    let mut out: Vec<u8> = Vec::new();
    loop
        invariant
            bs.wf(),
            bs@.bytes == bytes@,
            blocks(bytes@, bs@.pos, out@) == blocks(bytes@, 0, Seq::empty()),
        decreases bit_len(bs@.bytes) - bs@.pos,
    {
        proof {
            bs.lemma_pos_in_range();
        }
        let bfinal = bs.get_nbit(1)?;
        let btype = bs.get_nbit(2)?;
        proof {
            reveal(block_at);
            lemma_block_advances(bs@.bytes, bs@.pos, btype as nat, out@);
        }
        let block = if btype == flag::NO_COMPRESSION as u16 {
            inflate_stored(&mut bs, out)
        } else if btype == flag::FIXED_HUFF as u16 {
            inflate_fixed_huff(&mut bs, out)
        } else if btype == flag::DYNAMIC_HUFF as u16 {
            inflate_dynamic_huff(&mut bs, out)
        } else {
            Err(GzipError::ReservedBlockType)
        };
        out = block?;
        if bfinal == 1 {
            return Ok(out);
        }
    }
}

} // verus!
