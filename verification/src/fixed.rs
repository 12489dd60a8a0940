//! Blocks coded with the fixed code.

use crate::bits::{bit_len, BitStream};
use crate::block::{decode_dynamic_huff, huffman_block, lemma_huffman_block_advances, Decoded};
use crate::error::GzipError;
use crate::huffman::{
    build_huff, canonical_code, canonical_table, count_upto, first_code, is_complete,
    lemma_count_run, lemma_kraft_run, valid_lengths, weight,
};
use vstd::arithmetic::power2::{lemma2_to64, pow2};
use vstd::prelude::*;

verus! {

/// The code lengths of the fixed code for literals and lengths.
pub open spec fn fixed_literal_lengths() -> Seq<u8> {
    Seq::new(
        288,
        |i: int|
            if i < 144 {
                8u8
            } else if i < 256 {
                9u8
            } else if i < 280 {
                7u8
            } else {
                8u8
            },
    )
}

/// The code lengths of the fixed code for distances: five bits each, so
/// that a distance symbol is coded by its own number.
pub open spec fn fixed_distance_lengths() -> Seq<u8> {
    Seq::new(32, |i: int| 5u8)
}

/// What a block coded with the fixed code at `pos`, behind the block
/// header, adds to `out`.
pub open spec fn fixed_block(bytes: Seq<u8>, pos: nat, out: Seq<u8>) -> Decoded {
    huffman_block(
        canonical_table(fixed_literal_lengths()),
        canonical_table(fixed_distance_lengths()),
        bytes,
        pos,
        out,
    )
}

/// The codeword that the fixed code gives to a literal or length
/// symbol: 8 bits from `00110000` on for 0 to 143, 9 bits from
/// `110010000` on for 144 to 255, 7 bits from `0000000` on for 256 to
/// 279, and 8 bits from `11000000` on for 280 to 287.
pub open spec fn fixed_literal_code(sym: int) -> int {
    if sym < 144 {
        0x30 + sym
    } else if sym < 256 {
        0x190 + (sym - 144)
    } else if sym < 280 {
        sym - 256
    } else {
        0xc0 + (sym - 280)
    }
}

/// The fixed codes are complete.
pub proof fn lemma_fixed_codes_complete()
    ensures
        valid_lengths(fixed_literal_lengths()),
        valid_lengths(fixed_distance_lengths()),
        is_complete(fixed_literal_lengths()),
        is_complete(fixed_distance_lengths()),
{
    let lit = fixed_literal_lengths();
    lemma_kraft_run(lit, 0, 144, 8);
    lemma_kraft_run(lit, 144, 256, 9);
    lemma_kraft_run(lit, 256, 280, 7);
    lemma_kraft_run(lit, 280, 288, 8);
    lemma_kraft_run(fixed_distance_lengths(), 0, 32, 5);
    assert(weight(5) == 1024 && weight(7) == 256 && weight(8) == 128 && weight(9) == 64 && pow2(15)
        == 32768) by {
        lemma2_to64();
    }
}

/// How many symbols of the fixed code for literals and lengths have a
/// codeword of `len` bits, among the first `k` and in all.
proof fn lemma_fixed_literal_counts(len: nat, k: nat)
    requires
        k <= 288,
    ensures
        len != 7 && len != 8 && len != 9 ==> count_upto(fixed_literal_lengths(), len, k) == 0,
        count_upto(fixed_literal_lengths(), 7, k) == if k <= 256 {
            0
        } else if k <= 280 {
            k - 256
        } else {
            24
        },
        count_upto(fixed_literal_lengths(), 8, k) == if k <= 144 {
            k as int
        } else if k <= 280 {
            144
        } else {
            k - 136
        },
        count_upto(fixed_literal_lengths(), 9, k) == if k <= 144 {
            0
        } else if k <= 256 {
            k - 144
        } else {
            112
        },
{
    let lit = fixed_literal_lengths();
    let a: nat = if k <= 144 { k } else { 144 };
    let b: nat = if k <= 256 { k } else { 256 };
    let c: nat = if k <= 280 { k } else { 280 };
    lemma_count_run(lit, len, 0, a, 8);
    lemma_count_run(lit, 7, 0, a, 8);
    lemma_count_run(lit, 8, 0, a, 8);
    lemma_count_run(lit, 9, 0, a, 8);
    if k > 144 {
        lemma_count_run(lit, len, 144, b, 9);
        lemma_count_run(lit, 7, 144, b, 9);
        lemma_count_run(lit, 8, 144, b, 9);
        lemma_count_run(lit, 9, 144, b, 9);
    }
    if k > 256 {
        lemma_count_run(lit, len, 256, c, 7);
        lemma_count_run(lit, 7, 256, c, 7);
        lemma_count_run(lit, 8, 256, c, 7);
        lemma_count_run(lit, 9, 256, c, 7);
    }
    if k > 280 {
        lemma_count_run(lit, len, 280, k, 8);
        lemma_count_run(lit, 7, 280, k, 8);
        lemma_count_run(lit, 8, 280, k, 8);
        lemma_count_run(lit, 9, 280, k, 8);
    }
}

/// The fixed code for literals and lengths is the canonical code of its
/// lengths.
pub proof fn lemma_fixed_literal_codes(sym: int)
    requires
        0 <= sym < 288,
    ensures
        canonical_code(fixed_literal_lengths(), sym) == fixed_literal_code(sym),
{
    let lit = fixed_literal_lengths();
    lemma_fixed_literal_counts(1, 288);
    lemma_fixed_literal_counts(2, 288);
    lemma_fixed_literal_counts(3, 288);
    lemma_fixed_literal_counts(4, 288);
    lemma_fixed_literal_counts(5, 288);
    lemma_fixed_literal_counts(6, 288);
    assert(first_code(lit, 7) == 0) by {
        reveal_with_fuel(first_code, 8);
    }
    assert(first_code(lit, 8) == 0x30);
    assert(first_code(lit, 9) == 0x190);
    lemma_fixed_literal_counts(1, sym as nat);
}

/// The fixed code for distances codes each symbol by its own number, in
/// five bits.
pub proof fn lemma_fixed_distance_codes(sym: int)
    requires
        0 <= sym < 32,
    ensures
        canonical_code(fixed_distance_lengths(), sym) == sym,
{
    let dist = fixed_distance_lengths();
    lemma_count_run(dist, 1, 0, 32, 5);
    lemma_count_run(dist, 2, 0, 32, 5);
    lemma_count_run(dist, 3, 0, 32, 5);
    lemma_count_run(dist, 4, 0, 32, 5);
    lemma_count_run(dist, 5, 0, sym as nat, 5);
    assert(first_code(dist, 5) == 0) by {
        reveal_with_fuel(first_code, 6);
    }
}

/// A block coded with the fixed code ends behind where it starts, and
/// within the input.
pub proof fn lemma_fixed_block_advances(bytes: Seq<u8>, pos: nat, out: Seq<u8>)
    ensures
        fixed_block(bytes, pos, out) matches Ok((_, p)) ==> pos < p <= bit_len(bytes),
{
    lemma_huffman_block_advances(
        canonical_table(fixed_literal_lengths()),
        canonical_table(fixed_distance_lengths()),
        bytes,
        pos,
        out,
    );
}

/// Decodes a block coded with the fixed code, from behind the block
/// header on, and appends what it holds to `out`.  When the block is
/// rejected, nothing is consumed.
pub fn inflate_fixed_huff(bs: &mut BitStream, out: Vec<u8>) -> (r: Result<Vec<u8>, GzipError>)
    requires
        old(bs).wf(),
    ensures
        final(bs).wf(),
        final(bs)@.bytes == old(bs)@.bytes,
        match fixed_block(old(bs)@.bytes, old(bs)@.pos, out@) {
            Ok((data, p)) => r matches Ok(v) && v@ == data && final(bs)@.pos == p,
            Err(e) => r matches Err(x) && x == e && final(bs)@.pos == old(bs)@.pos,
        },
{
    let mut lit: Vec<u8> = Vec::new();
    let mut i: usize = 0;
    while i < 288
        invariant
            i <= 288,
            lit@ == fixed_literal_lengths().subrange(0, i as int),
        decreases 288 - i,
    {
        let len: u8 = if i < 144 {
            8
        } else if i < 256 {
            9
        } else if i < 280 {
            7
        } else {
            8
        };
        lit.push(len);
        i += 1;
    }
    let mut dist: Vec<u8> = Vec::new();
    let mut j: usize = 0;
    while j < 32
        invariant
            j <= 32,
            dist@ == fixed_distance_lengths().subrange(0, j as int),
        decreases 32 - j,
    {
        dist.push(5);
        j += 1;
    }
    proof {
        assert(lit@ == fixed_literal_lengths());
        assert(dist@ == fixed_distance_lengths());
        lemma_fixed_codes_complete();
    }
    let ll_hf = build_huff(lit.as_slice())?;
    let dis_hf = build_huff(dist.as_slice())?;
    decode_dynamic_huff(bs, &ll_hf, &dis_hf, out)
}

} // verus!
