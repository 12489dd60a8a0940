//! Blocks with a code of their own: the head of such a block describes
//! its two codes by their code lengths, which are themselves coded
//! with a third code.

use crate::bits::{bit_len, lemma_value_bound, lsb_value, read_lsb, BitStream};
use crate::block::{decode_dynamic_huff, huffman_block, lemma_huffman_block_advances, Decoded};
use crate::error::GzipError;
use crate::huffman::{
    build_huff, canonical_table, decode_symbol, get_code_from_huff, is_complete,
    lemma_decode_advances, valid_lengths, CodeMap, HuffCode,
};
use vstd::arithmetic::power2::lemma2_to64;
use vstd::prelude::*;

verus! {

/// The order in which a dynamic block lists the code lengths of the
/// code-length alphabet.
pub const CODE_LENGTH_ORDER: [usize; 19] = [
    16, 17, 18, 0, 8, 7, 9, 6, 10, 5, 11, 4, 12, 3, 13, 2, 14, 1, 15,
];

/// The code lengths of the code-length alphabet after the first `k`
/// three-bit fields at `pos` were put in their places; the places not
/// listed hold zero.
pub open spec fn code_length_lengths(bytes: Seq<u8>, pos: nat, k: nat) -> Seq<u8>
    decreases k,
{
    if k == 0 {
        Seq::new(19, |i: int| 0u8)
    } else {
        let j = (k - 1) as nat;
        code_length_lengths(bytes, pos, j).update(
            CODE_LENGTH_ORDER[j as int] as int,
            lsb_value(bytes, pos + 3 * j, 3) as u8,
        )
    }
}

/// What a repeat symbol of the code-length alphabet at `pos` stands
/// for, behind the `lengths` decoded so far: the length to repeat and
/// how often, with the position behind the symbol's extra bits.  Symbol
/// 16 repeats the length before it and is rejected where there is none;
/// 17 and 18 repeat zero.
pub open spec fn repeat_at(bytes: Seq<u8>, pos: nat, sym: nat, lengths: Seq<u8>) -> Result<
    ((u8, nat), nat),
    GzipError,
> {
    if sym == 16 {
        if lengths.len() == 0 {
            Err(GzipError::IncompleteHuffman)
        } else {
            match read_lsb(bytes, pos, 2) {
                Ok((extra, p)) => Ok(((lengths.last(), 3 + extra), p)),
                Err(e) => Err(e),
            }
        }
    } else if sym == 17 {
        match read_lsb(bytes, pos, 3) {
            Ok((extra, p)) => Ok(((0u8, 3 + extra), p)),
            Err(e) => Err(e),
        }
    } else {
        match read_lsb(bytes, pos, 7) {
            Ok((extra, p)) => Ok(((0u8, 11 + extra), p)),
            Err(e) => Err(e),
        }
    }
}

/// The vector of `total` code lengths that is coded at `pos` with the
/// code-length code `cl`, after `lengths` were decoded already, and the
/// position behind it.  A repeat that would pass `total` is rejected.
pub open spec fn code_lengths(
    cl: CodeMap,
    bytes: Seq<u8>,
    pos: nat,
    total: nat,
    lengths: Seq<u8>,
) -> Decoded
    decreases total - lengths.len(),
{
    if lengths.len() >= total {
        Ok((lengths, pos))
    } else {
        match decode_symbol(cl, bytes, pos) {
            Err(e) => Err(e),
            Ok((sym, p)) => {
                if sym <= 15 {
                    code_lengths(cl, bytes, p, total, lengths.push(sym as u8))
                } else if sym > 18 {
                    Err(GzipError::InvalidHuffmanSymbol)
                } else {
                    match repeat_at(bytes, p, sym, lengths) {
                        Err(e) => Err(e),
                        Ok(((fill, count), pos2)) => {
                            if lengths.len() + count > total {
                                Err(GzipError::IncompleteHuffman)
                            } else {
                                code_lengths(
                                    cl,
                                    bytes,
                                    pos2,
                                    total,
                                    lengths + Seq::new(count, |i: int| fill),
                                )
                            }
                        },
                    }
                }
            },
        }
    }
}

/// The two tables of a dynamic block, for literals and lengths and for
/// distances, whose `n_lit + n_dist` code lengths are coded at `pos` as
/// one vector, and the position behind them.
pub open spec fn dynamic_tables(
    cl: CodeMap,
    bytes: Seq<u8>,
    pos: nat,
    n_lit: nat,
    n_dist: nat,
) -> Result<((CodeMap, CodeMap), nat), GzipError> {
    match code_lengths(cl, bytes, pos, n_lit + n_dist, Seq::empty()) {
        Err(e) => Err(e),
        Ok((lengths, p)) => {
            let lit = lengths.subrange(0, n_lit as int);
            let dist = lengths.subrange(n_lit as int, (n_lit + n_dist) as int);
            if is_complete(lit) && is_complete(dist) {
                Ok(((canonical_table(lit), canonical_table(dist)), p))
            } else {
                Err(GzipError::IncompleteHuffman)
            }
        },
    }
}

/// What a block with a code of its own adds to `out`, given the three
/// counts from its head and the position `pos` behind them: `hclen + 4`
/// code lengths of three bits each for the code-length alphabet, then
/// the `hlit + 257` and `hdist + 1` code lengths, then the body.
pub open spec fn dynamic_body(
    bytes: Seq<u8>,
    pos: nat,
    hlit: nat,
    hdist: nat,
    hclen: nat,
    out: Seq<u8>,
) -> Decoded {
    let behind = pos + 3 * (hclen + 4);
    let cl_lengths = code_length_lengths(bytes, pos, hclen + 4);
    if behind > bit_len(bytes) {
        Err(GzipError::TruncatedInput)
    } else if !is_complete(cl_lengths) {
        Err(GzipError::IncompleteHuffman)
    } else {
        match dynamic_tables(canonical_table(cl_lengths), bytes, behind, hlit + 257, hdist + 1) {
            Err(e) => Err(e),
            Ok(((lit, dist), p)) => huffman_block(lit, dist, bytes, p, out),
        }
    }
}

/// What a block with a code of its own at `pos`, behind the block
/// header, adds to `out`: the counts `HLIT` and `HDIST` of five bits
/// each and `HCLEN` of four come first.
pub open spec fn dynamic_block(bytes: Seq<u8>, pos: nat, out: Seq<u8>) -> Decoded {
    match read_lsb(bytes, pos, 5) {
        Err(e) => Err(e),
        Ok((hlit, pos1)) => match read_lsb(bytes, pos1, 5) {
            Err(e) => Err(e),
            Ok((hdist, pos2)) => match read_lsb(bytes, pos2, 4) {
                Err(e) => Err(e),
                Ok((hclen, pos3)) => dynamic_body(bytes, pos3, hlit, hdist, hclen, out),
            },
        },
    }
}

/// A vector of code lengths ends no earlier than it starts.
pub proof fn lemma_code_lengths_advances(
    cl: CodeMap,
    bytes: Seq<u8>,
    pos: nat,
    total: nat,
    lengths: Seq<u8>,
)
    ensures
        code_lengths(cl, bytes, pos, total, lengths) matches Ok((_, p)) ==> pos <= p,
    decreases total - lengths.len(),
{
    if lengths.len() < total {
        lemma_decode_advances(cl, bytes, pos);
        if let Ok((sym, p)) = decode_symbol(cl, bytes, pos) {
            if sym <= 15 {
                lemma_code_lengths_advances(cl, bytes, p, total, lengths.push(sym as u8));
            } else if sym <= 18 {
                if let Ok(((fill, count), pos2)) = repeat_at(bytes, p, sym, lengths) {
                    if lengths.len() + count <= total {
                        lemma_code_lengths_advances(
                            cl,
                            bytes,
                            pos2,
                            total,
                            lengths + Seq::new(count, |i: int| fill),
                        );
                    }
                }
            }
        }
    }
}

/// A block with a code of its own ends behind where it starts, and
/// within the input.
pub proof fn lemma_dynamic_block_advances(bytes: Seq<u8>, pos: nat, out: Seq<u8>)
    ensures
        dynamic_block(bytes, pos, out) matches Ok((_, p)) ==> pos < p <= bit_len(bytes),
{
    if let Ok((hlit, pos1)) = read_lsb(bytes, pos, 5) {
        if let Ok((hdist, pos2)) = read_lsb(bytes, pos1, 5) {
            if let Ok((hclen, pos3)) = read_lsb(bytes, pos2, 4) {
                let behind = pos3 + 3 * (hclen + 4);
                let cl = canonical_table(code_length_lengths(bytes, pos3, hclen + 4));
                lemma_code_lengths_advances(
                    cl,
                    bytes,
                    behind,
                    hlit + 257 + (hdist + 1),
                    Seq::empty(),
                );
                if let Ok(((lit, dist), p)) = dynamic_tables(
                    cl,
                    bytes,
                    behind,
                    hlit + 257,
                    hdist + 1,
                ) {
                    lemma_huffman_block_advances(lit, dist, bytes, p, out);
                }
            }
        }
    }
}

/// Reads the extra bits of the repeat symbol `sym` and returns the
/// length to repeat and how often.  When that fails, nothing is
/// consumed.
fn get_repeat(bs: &mut BitStream, sym: u16, lengths: &Vec<u8>) -> (r: Result<(u8, u16), GzipError>)
    requires
        old(bs).wf(),
        16 <= sym <= 18,
    ensures
        final(bs).wf(),
        final(bs)@.bytes == old(bs)@.bytes,
        match repeat_at(old(bs)@.bytes, old(bs)@.pos, sym as nat, lengths@) {
            Ok(((fill, count), p)) => {
                &&& r matches Ok(v)
                &&& v.0 == fill
                &&& v.1 == count
                &&& final(bs)@.pos == p
            },
            Err(e) => r matches Err(x) && x == e && final(bs)@.pos == old(bs)@.pos,
        },
{
    assert(lsb_value(bs@.bytes, bs@.pos, 2) < 4 && lsb_value(bs@.bytes, bs@.pos, 3) < 8
        && lsb_value(bs@.bytes, bs@.pos, 7) < 128) by {
        lemma_value_bound(bs@.bytes, bs@.pos, 2);
        lemma_value_bound(bs@.bytes, bs@.pos, 3);
        lemma_value_bound(bs@.bytes, bs@.pos, 7);
        lemma2_to64();
    }
    if sym == 16 {
        if lengths.len() == 0 {
            return Err(GzipError::IncompleteHuffman);
        }
        let last = lengths[lengths.len() - 1];
        Ok((last, 3 + bs.get_nbit(2)?))
    } else if sym == 17 {
        Ok((0, 3 + bs.get_nbit(3)?))
    } else {
        Ok((0, 11 + bs.get_nbit(7)?))
    }
}

/// Decodes a vector of `total` code lengths with the code-length table
/// `cl_hf`.  Each length that comes out is at most 15.  When the vector
/// is rejected, nothing is consumed.
pub fn read_code_lengths(bs: &mut BitStream, cl_hf: &HuffCode, total: usize) -> (r: Result<
    Vec<u8>,
    GzipError,
>)
    requires
        old(bs).wf(),
    ensures
        final(bs).wf(),
        final(bs)@.bytes == old(bs)@.bytes,
        match code_lengths(cl_hf@, old(bs)@.bytes, old(bs)@.pos, total as nat, Seq::empty()) {
            Ok((lengths, p)) => r matches Ok(v) && v@ == lengths && final(bs)@.pos == p,
            Err(e) => r matches Err(x) && x == e && final(bs)@.pos == old(bs)@.pos,
        },
        r matches Ok(v) ==> v@.len() == total && forall|i: int|
            0 <= i < v@.len() ==> #[trigger] v@[i] <= 15,
{
    let mut cur = *bs;
    let mut lengths: Vec<u8> = Vec::new();
    while lengths.len() < total
        invariant
            *bs == *old(bs),
            bs.wf(),
            cur.wf(),
            cur@.bytes == old(bs)@.bytes,
            lengths@.len() <= total,
            forall|i: int| 0 <= i < lengths@.len() ==> #[trigger] lengths@[i] <= 15,
            code_lengths(cl_hf@, cur@.bytes, cur@.pos, total as nat, lengths@) == code_lengths(
                cl_hf@,
                old(bs)@.bytes,
                old(bs)@.pos,
                total as nat,
                Seq::empty(),
            ),
        decreases total - lengths@.len(),
    {
        let value = get_code_from_huff(&mut cur, cl_hf)?;
        if value <= 15 {
            lengths.push(value as u8);
        } else if value > 18 {
            return Err(GzipError::InvalidHuffmanSymbol);
        } else {
            let (fill, count) = get_repeat(&mut cur, value, &lengths)?;
            if count as usize > total - lengths.len() {
                return Err(GzipError::IncompleteHuffman);
            }
            let ghost before = lengths@;
            let mut i: u16 = 0;
            while i < count
                invariant
                    i <= count,
                    fill <= 15,
                    before.len() + count <= total,
                    lengths@ == before + Seq::new(i as nat, |k: int| fill),
                    forall|k: int| 0 <= k < lengths@.len() ==> #[trigger] lengths@[k] <= 15,
                decreases count - i,
            {
                lengths.push(fill);
                i += 1;
            }
        }
    }
    *bs = cur;
    Ok(lengths)
}

/// Decodes the code lengths of a dynamic block, `n_lit` for literals
/// and lengths followed by `n_dist` for distances, as one vector, and
/// builds the two tables.  When that fails, nothing is consumed.
pub fn generate_hf_from_cl(bs: &mut BitStream, cl_hf: &HuffCode, n_lit: u16, n_dist: u16) -> (r:
    Result<(HuffCode, HuffCode), GzipError>)
    requires
        old(bs).wf(),
        n_lit <= 288,
        n_dist <= 288,
    ensures
        final(bs).wf(),
        final(bs)@.bytes == old(bs)@.bytes,
        match dynamic_tables(
            cl_hf@,
            old(bs)@.bytes,
            old(bs)@.pos,
            n_lit as nat,
            n_dist as nat,
        ) {
            Ok(((lit, dist), p)) => {
                &&& r matches Ok(v)
                &&& v.0@ == lit
                &&& v.1@ == dist
                &&& final(bs)@.pos == p
            },
            Err(e) => r matches Err(x) && x == e && final(bs)@.pos == old(bs)@.pos,
        },
{
    let mut cur = *bs;
    let total: usize = n_lit as usize + n_dist as usize;
    let lengths = read_code_lengths(&mut cur, cl_hf, total)?;
    let all = lengths.as_slice();
    let ll_hf = build_huff(&all[0..n_lit as usize]);
    let dis_hf = build_huff(&all[n_lit as usize..total]);
    match (ll_hf, dis_hf) {
        (Ok(a), Ok(b)) => {
            *bs = cur;
            Ok((a, b))
        },
        _ => Err(GzipError::IncompleteHuffman),
    }
}

/// Reads the code lengths of the code-length alphabet, `count` fields
/// of three bits each, and puts them in their places.  When the fields
/// are not all there, nothing is consumed.
fn get_code_length_lengths(bs: &mut BitStream, count: u16) -> (r: Result<[u8; 19], GzipError>)
    requires
        old(bs).wf(),
        count <= 19,
    ensures
        final(bs).wf(),
        final(bs)@.bytes == old(bs)@.bytes,
        if old(bs)@.pos + 3 * count <= bit_len(old(bs)@.bytes) {
            &&& r matches Ok(lengths)
            &&& lengths@ == code_length_lengths(old(bs)@.bytes, old(bs)@.pos, count as nat)
            &&& valid_lengths(lengths@)
            &&& final(bs)@.pos == old(bs)@.pos + 3 * count
        } else {
            r matches Err(e) && e == GzipError::TruncatedInput && final(bs)@.pos == old(bs)@.pos
        },
{
    let ghost start = bs@.pos;
    let mut cur = *bs;
    let mut lengths: [u8; 19] = [0; 19];
    assert(lengths@ =~= code_length_lengths(bs@.bytes, start, 0));
    let mut i: usize = 0;
    while i < count as usize
        invariant
            *bs == *old(bs),
            bs.wf(),
            cur.wf(),
            cur@.bytes == old(bs)@.bytes,
            start == old(bs)@.pos,
            i <= count <= 19,
            cur@.pos == start + 3 * i,
            lengths@ == code_length_lengths(cur@.bytes, start, i as nat),
            forall|k: int| 0 <= k < 19 ==> #[trigger] lengths@[k] <= 7,
        decreases count - i,
    {
        assert(lsb_value(cur@.bytes, cur@.pos, 3) < 8) by {
            lemma_value_bound(cur@.bytes, cur@.pos, 3);
            lemma2_to64();
        }
        let len = cur.get_nbit(3)?;
        lengths[CODE_LENGTH_ORDER[i]] = len as u8;
        i += 1;
    }
    proof {
        cur.lemma_pos_in_range();
    }
    *bs = cur;
    Ok(lengths)
}

/// Decodes a block with a code of its own, from behind the block
/// header on, and appends what it holds to `out`.  When the block is
/// rejected, nothing is consumed.
pub fn inflate_dynamic_huff(bs: &mut BitStream, out: Vec<u8>) -> (r: Result<Vec<u8>, GzipError>)
    requires
        old(bs).wf(),
    ensures
        final(bs).wf(),
        final(bs)@.bytes == old(bs)@.bytes,
        match dynamic_block(old(bs)@.bytes, old(bs)@.pos, out@) {
            Ok((data, p)) => r matches Ok(v) && v@ == data && final(bs)@.pos == p,
            Err(e) => r matches Err(x) && x == e && final(bs)@.pos == old(bs)@.pos,
        },
{
    assert(lsb_value(bs@.bytes, bs@.pos, 5) < 32 && lsb_value(bs@.bytes, bs@.pos + 5, 5) < 32
        && lsb_value(bs@.bytes, bs@.pos + 10, 4) < 16) by {
        lemma_value_bound(bs@.bytes, bs@.pos, 5);
        lemma_value_bound(bs@.bytes, bs@.pos + 5, 5);
        lemma_value_bound(bs@.bytes, bs@.pos + 10, 4);
        lemma2_to64();
    }
    let mut cur = *bs;
    let hlit = cur.get_nbit(5)?;
    let hdist = cur.get_nbit(5)?;
    let hclen = cur.get_nbit(4)?;
    let code_length = get_code_length_lengths(&mut cur, hclen + 4)?;
    let cl_hf = build_huff(code_length.as_slice())?;
    let (ll_hf, dis_hf) = generate_hf_from_cl(&mut cur, &cl_hf, hlit + 257, hdist + 1)?;
    let data = decode_dynamic_huff(&mut cur, &ll_hf, &dis_hf, out)?;
    *bs = cur;
    Ok(data)
}

} // verus!
