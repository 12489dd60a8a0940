//! The body of a Huffman-coded block: literals, back-references, and
//! the symbol that ends the block.

use crate::backref::{
    copy_back, copy_match, distance_at, get_dis, get_len, lemma_copy_back_repeats, length_at,
};
use crate::bits::{bit_len, BitStream};
use crate::error::GzipError;
use crate::huffman::{decode_symbol, get_code_from_huff, lemma_decode_advances, CodeMap, HuffCode};
use vstd::prelude::*;

verus! {

/// The symbol that ends a block.
pub const END_OF_BLOCK: u16 = 256;

/// The first symbol that stands for a match length.
pub const FIRST_LENGTH_SYMBOL: u16 = 257;

/// The last symbol that stands for a match length.
pub const LAST_LENGTH_SYMBOL: u16 = 285;

/// The number of distance codes.
pub const DISTANCE_CODES: u16 = 30;

/// What a decoder hands on: the output so far and the position of the
/// next bit, or the reason for stopping.
pub type Decoded = Result<(Seq<u8>, nat), GzipError>;

/// What follows a length symbol: the pair of match length and
/// distance, with the position behind the distance's extra bits.
pub open spec fn back_reference(dist: CodeMap, bytes: Seq<u8>, pos: nat, len_code: nat) -> Result<
    ((nat, nat), nat),
    GzipError,
> {
    match length_at(bytes, pos, len_code) {
        Err(e) => Err(e),
        Ok((length, pos1)) => match decode_symbol(dist, bytes, pos1) {
            Err(e) => Err(e),
            Ok((code, pos2)) => if code >= DISTANCE_CODES {
                Err(GzipError::InvalidHuffmanSymbol)
            } else {
                match distance_at(bytes, pos2, code) {
                    Err(e) => Err(e),
                    Ok((distance, pos3)) => Ok(((length, distance), pos3)),
                }
            },
        },
    }
}

/// What the body of a Huffman-coded block at `pos` adds to `out`, up
/// to and with its end-of-block symbol.
pub open spec fn huffman_block(
    lit: CodeMap,
    dist: CodeMap,
    bytes: Seq<u8>,
    pos: nat,
    out: Seq<u8>,
) -> Decoded
    decreases bit_len(bytes) - pos,
{
    match decode_symbol(lit, bytes, pos) {
        Err(e) => Err(e),
        Ok((sym, p)) => {
            if sym < END_OF_BLOCK {
                proof {
                    lemma_decode_advances(lit, bytes, pos);
                }
                huffman_block(lit, dist, bytes, p, out.push(sym as u8))
            } else if sym == END_OF_BLOCK {
                Ok((out, p))
            } else if sym > LAST_LENGTH_SYMBOL {
                Err(GzipError::InvalidHuffmanSymbol)
            } else {
                match back_reference(dist, bytes, p, (sym - FIRST_LENGTH_SYMBOL) as nat) {
                    Err(e) => Err(e),
                    Ok(((length, distance), pos2)) => {
                        if distance == 0 || distance > out.len() {
                            Err(GzipError::InvalidBackReference)
                        } else {
                            proof {
                                lemma_decode_advances(lit, bytes, pos);
                                lemma_back_reference_advances(
                                    dist,
                                    bytes,
                                    p,
                                    (sym - FIRST_LENGTH_SYMBOL) as nat,
                                );
                            }
                            huffman_block(lit, dist, bytes, pos2, copy_back(out, distance, length))
                        }
                    },
                }
            }
        },
    }
}

/// A back-reference ends no earlier than it starts, and within the
/// input.
pub proof fn lemma_back_reference_advances(
    dist: CodeMap,
    bytes: Seq<u8>,
    pos: nat,
    len_code: nat,
)
    ensures
        back_reference(dist, bytes, pos, len_code) matches Ok((_, p)) ==> pos < p <= bit_len(bytes),
{
    if let Ok((_, pos1)) = length_at(bytes, pos, len_code) {
        lemma_decode_advances(dist, bytes, pos1);
    }
}

/// The body of a Huffman-coded block ends behind where it starts.
pub proof fn lemma_huffman_block_advances(
    lit: CodeMap,
    dist: CodeMap,
    bytes: Seq<u8>,
    pos: nat,
    out: Seq<u8>,
)
    ensures
        huffman_block(lit, dist, bytes, pos, out) matches Ok((_, p)) ==> pos < p <= bit_len(bytes),
    decreases bit_len(bytes) - pos,
{
    lemma_decode_advances(lit, bytes, pos);
    if let Ok((sym, p)) = decode_symbol(lit, bytes, pos) {
        if sym < END_OF_BLOCK {
            lemma_huffman_block_advances(lit, dist, bytes, p, out.push(sym as u8));
        } else if END_OF_BLOCK < sym <= LAST_LENGTH_SYMBOL {
            let code = (sym - FIRST_LENGTH_SYMBOL) as nat;
            lemma_back_reference_advances(dist, bytes, p, code);
            if let Ok(((length, distance), pos2)) = back_reference(dist, bytes, p, code) {
                if 0 < distance <= out.len() {
                    lemma_huffman_block_advances(
                        lit,
                        dist,
                        bytes,
                        pos2,
                        copy_back(out, distance, length),
                    );
                }
            }
        }
    }
}

/// A literal followed by a match of `length` bytes at distance one
/// comes out as one more than `length` copies of the literal: where a
/// block holds at `pos0` the literal `byte`, at `pos1` the length symbol
/// `sym` with a back-reference of that length and distance, and at `pos3`
/// the end of the block, it adds just these copies to the output.
pub proof fn lemma_literal_then_run(
    lit: CodeMap,
    dist: CodeMap,
    bytes: Seq<u8>,
    out: Seq<u8>,
    byte: u8,
    sym: nat,
    length: nat,
    pos0: nat,
    pos1: nat,
    pos2: nat,
    pos3: nat,
    pos4: nat,
)
    requires
        decode_symbol(lit, bytes, pos0) == Ok::<(nat, nat), GzipError>((byte as nat, pos1)),
        decode_symbol(lit, bytes, pos1) == Ok::<(nat, nat), GzipError>((sym, pos2)),
        FIRST_LENGTH_SYMBOL <= sym <= LAST_LENGTH_SYMBOL,
        back_reference(dist, bytes, pos2, (sym - FIRST_LENGTH_SYMBOL) as nat) == Ok::<
            ((nat, nat), nat),
            GzipError,
        >(((length, 1), pos3)),
        decode_symbol(lit, bytes, pos3) == Ok::<(nat, nat), GzipError>((END_OF_BLOCK as nat, pos4)),
    ensures
        huffman_block(lit, dist, bytes, pos0, out) == Ok::<(Seq<u8>, nat), GzipError>(
            (out + Seq::new(length + 1, |i: int| byte), pos4),
        ),
{
    let first = out.push(byte);
    let all = copy_back(first, 1, length);
    lemma_copy_back_repeats(first, length);
    assert(all =~= out + Seq::new(length + 1, |i: int| byte));
    let behind_run = huffman_block(lit, dist, bytes, pos3, all);
    let behind_literal = huffman_block(lit, dist, bytes, pos1, first);
    assert(behind_run == Ok::<(Seq<u8>, nat), GzipError>((all, pos4)));
    assert(behind_literal == behind_run);
    assert(huffman_block(lit, dist, bytes, pos0, out) == behind_literal);
}

/// Decodes the body of a Huffman-coded block with the given tables for
/// literals and lengths and for distances, and appends what it holds
/// to `out`.  A back-reference may reach into what `out` held before.
/// When the block is rejected, nothing is consumed.
pub fn decode_dynamic_huff(
    bs: &mut BitStream,
    ll_hf: &HuffCode,
    dis_hf: &HuffCode,
    out: Vec<u8>,
) -> (r: Result<Vec<u8>, GzipError>)
    requires
        old(bs).wf(),
    ensures
        final(bs).wf(),
        final(bs)@.bytes == old(bs)@.bytes,
        match huffman_block(ll_hf@, dis_hf@, old(bs)@.bytes, old(bs)@.pos, out@) {
            Ok((data, p)) => r matches Ok(v) && v@ == data && final(bs)@.pos == p,
            Err(e) => r matches Err(x) && x == e && final(bs)@.pos == old(bs)@.pos,
        },
{
    let mut cur = *bs;
    let mut buf = out;
    loop
        invariant
            *bs == *old(bs),
            bs.wf(),
            cur.wf(),
            cur@.bytes == old(bs)@.bytes,
            huffman_block(ll_hf@, dis_hf@, cur@.bytes, cur@.pos, buf@) == huffman_block(
                ll_hf@,
                dis_hf@,
                old(bs)@.bytes,
                old(bs)@.pos,
                out@,
            ),
        decreases bit_len(cur@.bytes) - cur@.pos,
    {
        proof {
            cur.lemma_pos_in_range();
            lemma_decode_advances(ll_hf@, cur@.bytes, cur@.pos);
        }
        let value = get_code_from_huff(&mut cur, ll_hf)?;
        if value < END_OF_BLOCK {
            buf.push(value as u8);
        } else if value == END_OF_BLOCK {
            *bs = cur;
            return Ok(buf);
        } else if value > LAST_LENGTH_SYMBOL {
            return Err(GzipError::InvalidHuffmanSymbol);
        } else {
            proof {
                lemma_back_reference_advances(
                    dis_hf@,
                    cur@.bytes,
                    cur@.pos,
                    (value - FIRST_LENGTH_SYMBOL) as nat,
                );
            }
            let len = get_len(&mut cur, value - FIRST_LENGTH_SYMBOL)?;
            let dis_code = get_code_from_huff(&mut cur, dis_hf)?;
            if dis_code >= DISTANCE_CODES {
                return Err(GzipError::InvalidHuffmanSymbol);
            }
            let dis = get_dis(&mut cur, dis_code)?;
            if dis == 0 || dis as usize > buf.len() {
                return Err(GzipError::InvalidBackReference);
            }
            copy_match(&mut buf, dis, len);
        }
    }
}

} // verus!
