//! Back-references: the match lengths and distances that the symbols
//! of a block stand for, and the copying of a match from the output
//! that is already there.

use crate::bits::{lemma_value_bound, lsb_value, read_lsb, BitStream};
use crate::error::GzipError;
use vstd::arithmetic::power2::{lemma2_to64, lemma_pow2_strictly_increases, pow2};
use vstd::prelude::*;

verus! {

/// The shortest match that each length code stands for.
pub const LENGTH_BASE: [u16; 29] = [
    3, 4, 5, 6, 7, 8, 9, 10, 11, 13, 15, 17, 19, 23, 27, 31, 35, 43, 51, 59, 67, 83, 99, 115, 131,
    163, 195, 227, 258,
];

/// The number of extra bits that follow each length code.
pub const LENGTH_EXTRA: [u16; 29] = [
    0, 0, 0, 0, 0, 0, 0, 0, 1, 1, 1, 1, 2, 2, 2, 2, 3, 3, 3, 3, 4, 4, 4, 4, 5, 5, 5, 5, 0,
];

/// The shortest distance that each distance code stands for.
pub const DISTANCE_BASE: [u16; 30] = [
    1, 2, 3, 4, 5, 7, 9, 13, 17, 25, 33, 49, 65, 97, 129, 193, 257, 385, 513, 769, 1025, 1537, 2049,
    3073, 4097, 6145, 8193, 12289, 16385, 24577,
];

/// The number of extra bits that follow each distance code.
pub const DISTANCE_EXTRA: [u16; 30] = [
    0, 0, 0, 0, 1, 1, 2, 2, 3, 3, 4, 4, 5, 5, 6, 6, 7, 7, 8, 8, 9, 9, 10, 10, 11, 11, 12, 12, 13,
    13,
];

/// The match length that length code `code` and its extra bits at
/// `pos` stand for, with the position behind them.
pub open spec fn length_at(bytes: Seq<u8>, pos: nat, code: nat) -> Result<(nat, nat), GzipError> {
    match read_lsb(bytes, pos, LENGTH_EXTRA[code as int] as nat) {
        Ok((extra, p)) => Ok((LENGTH_BASE[code as int] as nat + extra, p)),
        Err(e) => Err(e),
    }
}

/// The distance that distance code `code` and its extra bits at `pos`
/// stand for, with the position behind them.
pub open spec fn distance_at(bytes: Seq<u8>, pos: nat, code: nat) -> Result<(nat, nat), GzipError> {
    match read_lsb(bytes, pos, DISTANCE_EXTRA[code as int] as nat) {
        Ok((extra, p)) => Ok((DISTANCE_BASE[code as int] as nat + extra, p)),
        Err(e) => Err(e),
    }
}

/// The output after a match of `length` bytes at `distance` bytes back
/// was appended to `out`, one byte after the other: a byte that the
/// match has just written may be its source further on.
pub open spec fn copy_back(out: Seq<u8>, distance: nat, length: nat) -> Seq<u8>
    decreases length,
{
    if length == 0 {
        out
    } else {
        copy_back(out.push(out[out.len() - distance]), distance, (length - 1) as nat)
    }
}

/// A match is 3 to 258 bytes long.
pub proof fn lemma_length_range(bytes: Seq<u8>, pos: nat, code: nat)
    requires
        code < 29,
    ensures
        length_at(bytes, pos, code) matches Ok((length, _)) ==> 3 <= length <= 258,
{
    let bits = LENGTH_EXTRA[code as int] as nat;
    lemma_value_bound(bytes, pos, bits);
    assert(pow2(0) == 1 && pow2(1) == 2 && pow2(2) == 4 && pow2(3) == 8 && pow2(4) == 16 && pow2(5)
        == 32) by {
        lemma2_to64();
    }
}

/// A match starts 1 to 32768 bytes back.
pub proof fn lemma_distance_range(bytes: Seq<u8>, pos: nat, code: nat)
    requires
        code < 30,
    ensures
        distance_at(bytes, pos, code) matches Ok((distance, _)) ==> 1 <= distance <= 32768,
{
    let bits = DISTANCE_EXTRA[code as int] as nat;
    lemma_value_bound(bytes, pos, bits);
    assert(pow2(0) == 1 && pow2(1) == 2 && pow2(2) == 4 && pow2(3) == 8 && pow2(4) == 16 && pow2(5)
        == 32 && pow2(6) == 64 && pow2(7) == 128 && pow2(8) == 256 && pow2(9) == 512 && pow2(10)
        == 1024 && pow2(11) == 2048 && pow2(12) == 4096 && pow2(13) == 8192) by {
        lemma2_to64();
    }
}

/// A match at distance one repeats the last byte of the output.
pub proof fn lemma_copy_back_repeats(out: Seq<u8>, length: nat)
    requires
        out.len() > 0,
    ensures
        copy_back(out, 1, length) == out + Seq::new(length, |i: int| out.last()),
    decreases length,
{
    if length == 0 {
        assert(out + Seq::new(0, |i: int| out.last()) =~= out);
    } else {
        let next = out.push(out[out.len() - 1]);
        lemma_copy_back_repeats(next, (length - 1) as nat);
        assert(next + Seq::new((length - 1) as nat, |i: int| next.last()) =~= out + Seq::new(
            length,
            |i: int| out.last(),
        ));
    }
}

/// Reads the extra bits of length code `len_code` and returns the
/// match length.  When the extra bits are not all there, nothing is
/// consumed.
pub fn get_len(bs: &mut BitStream, len_code: u16) -> (r: Result<u16, GzipError>)
    requires
        old(bs).wf(),
        len_code < 29,
    ensures
        final(bs).wf(),
        final(bs)@.bytes == old(bs)@.bytes,
        match length_at(old(bs)@.bytes, old(bs)@.pos, len_code as nat) {
            Ok((length, p)) => r matches Ok(v) && v == length && final(bs)@.pos == p,
            Err(e) => r matches Err(x) && x == e && final(bs)@.pos == old(bs)@.pos,
        },
{
    let extra_bits = LENGTH_EXTRA[len_code as usize];
    let base = LENGTH_BASE[len_code as usize];
    assert(lsb_value(bs@.bytes, bs@.pos, extra_bits as nat) < 64) by {
        lemma_value_bound(bs@.bytes, bs@.pos, extra_bits as nat);
        lemma2_to64();
        lemma_pow2_strictly_increases(extra_bits as nat, 6);
    }
    Ok(base + bs.get_nbit(extra_bits)?)
}

/// Reads the extra bits of distance code `dis_code` and returns the
/// distance.  When the extra bits are not all there, nothing is
/// consumed.
pub fn get_dis(bs: &mut BitStream, dis_code: u16) -> (r: Result<u16, GzipError>)
    requires
        old(bs).wf(),
        dis_code < 30,
    ensures
        final(bs).wf(),
        final(bs)@.bytes == old(bs)@.bytes,
        match distance_at(old(bs)@.bytes, old(bs)@.pos, dis_code as nat) {
            Ok((distance, p)) => r matches Ok(v) && v == distance && final(bs)@.pos == p,
            Err(e) => r matches Err(x) && x == e && final(bs)@.pos == old(bs)@.pos,
        },
{
    let extra_bits = DISTANCE_EXTRA[dis_code as usize];
    let base = DISTANCE_BASE[dis_code as usize];
    assert(lsb_value(bs@.bytes, bs@.pos, extra_bits as nat) < 16384) by {
        lemma_value_bound(bs@.bytes, bs@.pos, extra_bits as nat);
        lemma2_to64();
        lemma_pow2_strictly_increases(extra_bits as nat, 14);
    }
    Ok(base + bs.get_nbit(extra_bits)?)
}

/// Appends a match of `length` bytes that starts `distance` bytes
/// before the end of `out`.
pub fn copy_match(out: &mut Vec<u8>, distance: u16, length: u16)
    requires
        1 <= distance <= old(out)@.len(),
    ensures
        final(out)@ == copy_back(old(out)@, distance as nat, length as nat),
{
    let mut i: u16 = 0;
    while i < length
        invariant
            i <= length,
            1 <= distance <= old(out)@.len(),
            out@.len() == old(out)@.len() + i,
            copy_back(out@, distance as nat, (length - i) as nat) == copy_back(
                old(out)@,
                distance as nat,
                length as nat,
            ),
        decreases length - i,
    {
        let byte = out[out.len() - distance as usize];
        out.push(byte);
        i += 1;
    }
}

} // verus!
