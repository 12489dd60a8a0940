//! A reader that hands out the bits of a byte slice one after another,
//! least significant bit of each byte first.
//!
//! A position in the stream is a count of bits from the start: bit `p`
//! is bit `p % 8` of byte `p / 8`.  Integer fields are packed with
//! their least significant bit first, Huffman codewords with their most
//! significant bit first; `lsb_value` and `msb_value` say what a run of
//! bits means under either reading.

use crate::error::GzipError;
use vstd::arithmetic::power2::{
    lemma2_to64, lemma_pow2_strictly_increases, lemma_pow2_unfold, pow2,
};
use vstd::bits::{lemma_u16_shl_is_mul, lemma_u32_shl_is_mul};
use vstd::prelude::*;
use vstd::slice::axiom_spec_len;

verus! {

/// Bit `k` of `byte`, counted from the least significant one.
pub open spec fn bit_of(byte: u8, k: u8) -> nat {
    ((byte >> k) & 1) as nat
}

/// The number of bits in `bytes`.
pub open spec fn bit_len(bytes: Seq<u8>) -> nat {
    8 * bytes.len()
}

/// The bit at position `pos` of the stream over `bytes`.
pub open spec fn bit_at(bytes: Seq<u8>, pos: nat) -> nat {
    bit_of(bytes[(pos / 8) as int], (pos % 8) as u8)
}

/// The number spelled by the `n` bits from `pos` on when the first of
/// them is the least significant.
pub open spec fn lsb_value(bytes: Seq<u8>, pos: nat, n: nat) -> nat
    decreases n,
{
    if n == 0 {
        0
    } else {
        let m = (n - 1) as nat;
        lsb_value(bytes, pos, m) + bit_at(bytes, pos + m) * pow2(m)
    }
}

/// The number spelled by the `n` bits from `pos` on when the first of
/// them is the most significant.
pub open spec fn msb_value(bytes: Seq<u8>, pos: nat, n: nat) -> nat
    decreases n,
{
    if n == 0 {
        0
    } else {
        let m = (n - 1) as nat;
        2 * msb_value(bytes, pos, m) + bit_at(bytes, pos + m)
    }
}

/// The first byte boundary at or after `pos`.
pub open spec fn align_up(pos: nat) -> nat {
    ((pos + 7) / 8) * 8
}

/// What reading `n` bits at `pos`, least significant first, yields: the
/// value and the position after it, or `TruncatedInput` when fewer than
/// `n` bits are left.
pub open spec fn read_lsb(bytes: Seq<u8>, pos: nat, n: nat) -> Result<(nat, nat), GzipError> {
    if pos + n <= bit_len(bytes) {
        Ok((lsb_value(bytes, pos, n), pos + n))
    } else {
        Err(GzipError::TruncatedInput)
    }
}

/// What reading `n` bits at `pos`, most significant first, yields.
pub open spec fn read_msb(bytes: Seq<u8>, pos: nat, n: nat) -> Result<(nat, nat), GzipError> {
    if pos + n <= bit_len(bytes) {
        Ok((msb_value(bytes, pos, n), pos + n))
    } else {
        Err(GzipError::TruncatedInput)
    }
}

/// What copying `n` whole bytes at the byte boundary `pos` yields.
pub open spec fn read_bytes(bytes: Seq<u8>, pos: nat, n: nat) -> Result<(Seq<u8>, nat), GzipError> {
    if pos + 8 * n <= bit_len(bytes) {
        Ok((bytes.subrange((pos / 8) as int, (pos / 8 + n) as int), pos + 8 * n))
    } else {
        Err(GzipError::TruncatedInput)
    }
}

/// A byte boundary is its own next boundary, and the next boundary is
/// less than a byte away.
pub proof fn lemma_align_up(pos: nat)
    ensures
        align_up(pos) % 8 == 0,
        pos <= align_up(pos) < pos + 8,
        pos % 8 == 0 ==> align_up(pos) == pos,
        align_up(align_up(pos)) == align_up(pos),
{
}

/// A single bit is 0 or 1.
pub proof fn lemma_bit_at_bound(bytes: Seq<u8>, pos: nat)
    ensures
        bit_at(bytes, pos) <= 1,
{
    let byte = bytes[(pos / 8) as int];
    let k = (pos % 8) as u8;
    assert((byte >> k) & 1 <= 1) by (bit_vector);
}

/// `n` bits spell a number below `2^n`, whichever end comes first.
pub proof fn lemma_value_bound(bytes: Seq<u8>, pos: nat, n: nat)
    ensures
        lsb_value(bytes, pos, n) < pow2(n),
        msb_value(bytes, pos, n) < pow2(n),
    decreases n,
{
    if n == 0 {
        lemma2_to64();
    } else {
        let m = (n - 1) as nat;
        lemma_value_bound(bytes, pos, m);
        lemma_bit_at_bound(bytes, pos + m);
        lemma_pow2_unfold(n);
        let b = bit_at(bytes, pos + m);
        assert(b * pow2(m) <= pow2(m)) by (nonlinear_arith)
            requires
                b <= 1,
        ;
    }
}

/// The lowest `n` bits of `v`.
spec fn low_bits(v: u32, n: u32) -> u32 {
    v & (((1u32 << n) - 1) as u32)
}

/// Where two bytes hold `v`, least significant byte first, the first
/// `n` bits from the first of them on spell the lowest `n` bits of `v`.
proof fn lemma_lsb_value_low_bits(bytes: Seq<u8>, at: nat, v: u32, n: u32)
    requires
        n <= 16,
        v < 0x10000,
        at + 2 <= bytes.len(),
        bytes[at as int] == v % 256,
        bytes[(at + 1) as int] == v / 256,
    ensures
        lsb_value(bytes, 8 * at, n as nat) == low_bits(v, n),
    decreases n,
{
    if n == 0 {
        assert(low_bits(v, 0) == 0) by (bit_vector);
    } else {
        let m = (n - 1) as u32;
        lemma_lsb_value_low_bits(bytes, at, v, m);
        let b0 = bytes[at as int];
        let b1 = bytes[(at + 1) as int];
        assert(bit_at(bytes, (8 * at + m) as nat) == (v >> m) & 1) by {
            if m < 8 {
                let k = m as u8;
                assert(((b0 >> k) & 1) as u32 == (v >> m) & 1) by (bit_vector)
                    requires
                        b0 as u32 == v % 256,
                        k as u32 == m,
                        m < 8,
                ;
            } else {
                let k = (m - 8) as u8;
                assert(((b1 >> k) & 1) as u32 == (v >> m) & 1) by (bit_vector)
                    requires
                        b1 as u32 == v / 256,
                        k as u32 == m - 8,
                        8 <= m < 16,
                        v < 0x10000,
                ;
            }
        }
        assert(1u32 << m == pow2(m as nat)) by {
            lemma2_to64();
            lemma_pow2_strictly_increases(m as nat, 16);
            lemma_u32_shl_is_mul(1, m);
        }
        assert(low_bits(v, n) == low_bits(v, m) + ((v >> m) & 1) * (1u32 << m)) by (bit_vector)
            requires
                n == m + 1,
                m < 16,
        ;
    }
}

/// Reading gives back what was written: where two bytes of the input
/// hold a number `v` below `2^n`, least significant byte first, reading
/// `n` bits at the first of them yields `v`.
pub proof fn lemma_read_lsb_round_trip(bytes: Seq<u8>, at: nat, n: nat, v: nat)
    requires
        n <= 16,
        v < pow2(n),
        at + 2 <= bytes.len(),
        bytes[at as int] == v % 256,
        bytes[(at + 1) as int] == v / 256,
    ensures
        read_lsb(bytes, 8 * at, n) == Ok::<(nat, nat), GzipError>((v, 8 * at + n)),
{
    assert(pow2(n) <= 0x10000 && pow2(n) == 1u32 << (n as u32)) by {
        lemma2_to64();
        if n < 16 {
            lemma_pow2_strictly_increases(n, 16);
        }
        lemma_u32_shl_is_mul(1, n as u32);
    }
    let w = v as u32;
    let k = n as u32;
    lemma_lsb_value_low_bits(bytes, at, w, k);
    assert(low_bits(w, k) == w) by (bit_vector)
        requires
            w < (1u32 << k),
            k <= 16,
    ;
}

/// The state of a reader as contracts see it: the bytes it reads from
/// and the position of the next bit.
pub struct Cursor {
    pub bytes: Seq<u8>,
    pub pos: nat,
}

/// A cursor over a borrowed byte slice.
#[derive(Clone, Copy)]
pub struct BitStream<'a> {
    bytes: &'a [u8],
    /// The byte that holds the next bit.
    index: usize,
    /// The place of the next bit in that byte, below 8.
    bit: u8,
}

impl<'a> View for BitStream<'a> {
    type V = Cursor;

    closed spec fn view(&self) -> Cursor {
        Cursor { bytes: self.bytes@, pos: (self.index * 8 + self.bit) as nat }
    }
}

impl<'a> BitStream<'a> {
    /// The cursor lies within the bytes or just behind them, and a
    /// cursor behind the last byte points at no bit of it.
    pub closed spec fn wf(&self) -> bool {
        &&& self.bit < 8
        &&& self.index <= self.bytes@.len()
        &&& self.index == self.bytes@.len() ==> self.bit == 0
    }

    /// A well-formed reader never stands beyond the end of its input.
    pub proof fn lemma_pos_in_range(&self)
        requires
            self.wf(),
        ensures
            self@.pos <= bit_len(self@.bytes),
    {
    }

    /// A reader at the first bit of `bytes`.
    pub fn new(bytes: &'a [u8]) -> (bs: BitStream<'a>)
        ensures
            bs.wf(),
            bs@.bytes == bytes@,
            bs@.pos == 0,
    {
        BitStream { bytes, index: 0, bit: 0 }
    }

    /// Whether at least `cnt` bits are left.
    fn has_bits(&self, cnt: u16) -> (b: bool)
        requires
            self.wf(),
            cnt <= 16,
        ensures
            b == (self@.pos + cnt <= bit_len(self@.bytes)),
    {
        let rest: usize = self.bytes.len() - self.index;
        rest >= 3 || rest * 8 - self.bit as usize >= cnt as usize
    }

    /// Reads the next bit.
    pub fn get_bit(&mut self) -> (r: Result<u16, GzipError>)
        requires
            old(self).wf(),
        ensures
            final(self).wf(),
            final(self)@.bytes == old(self)@.bytes,
            match r {
                Ok(b) => {
                    &&& old(self)@.pos < bit_len(old(self)@.bytes)
                    &&& b == bit_at(old(self)@.bytes, old(self)@.pos)
                    &&& b <= 1
                    &&& final(self)@.pos == old(self)@.pos + 1
                },
                Err(e) => {
                    &&& old(self)@.pos >= bit_len(old(self)@.bytes)
                    &&& e == GzipError::TruncatedInput
                    &&& final(self)@.pos == old(self)@.pos
                },
            },
    {
        if self.index >= self.bytes.len() {
            return Err(GzipError::TruncatedInput);
        }
        let b: u8 = (self.bytes[self.index] >> self.bit) & 1;
        proof {
            lemma_bit_at_bound(self@.bytes, self@.pos);
        }
        if self.bit == 7 {
            self.bit = 0;
            self.index += 1;
        } else {
            self.bit += 1;
        }
        Ok(b as u16)
    }

    /// Reads `cnt` bits as a number whose least significant bit comes
    /// first.  When fewer are left, nothing is consumed.
    pub fn get_nbit(&mut self, cnt: u16) -> (r: Result<u16, GzipError>)
        requires
            old(self).wf(),
            cnt <= 16,
        ensures
            final(self).wf(),
            final(self)@.bytes == old(self)@.bytes,
            match read_lsb(old(self)@.bytes, old(self)@.pos, cnt as nat) {
                Ok((v, p)) => r matches Ok(x) && x == v && final(self)@.pos == p,
                Err(e) => r == Err::<u16, GzipError>(e) && final(self)@.pos == old(self)@.pos,
            },
    {
        if !self.has_bits(cnt) {
            return Err(GzipError::TruncatedInput);
        }
        let ghost start = self@.pos;
        let mut n: u16 = 0;
        let mut i: u16 = 0;
        while i < cnt
            invariant
                self.wf(),
                self@.bytes == old(self)@.bytes,
                start == old(self)@.pos,
                self@.pos == start + i,
                i <= cnt <= 16,
                start + cnt <= bit_len(self@.bytes),
                n == lsb_value(self@.bytes, start, i as nat),
            decreases cnt - i,
        {
            let b = self.get_bit()?;
            proof {
                let w = pow2(i as nat);
                lemma_value_bound(self@.bytes, start, i as nat);
                assert(w <= 0x8000) by {
                    lemma2_to64();
                    if i < 15 {
                        lemma_pow2_strictly_increases(i as nat, 15);
                    }
                }
                assert(b * w <= w) by (nonlinear_arith)
                    requires
                        b <= 1,
                ;
                lemma_u16_shl_is_mul(b, i);
                lemma_u16_shl_is_mul(1, i);
                assert(n | (b << i) == n + (b << i)) by (bit_vector)
                    requires
                        i < 16,
                        b <= 1,
                        n < (1u16 << i),
                ;
            }
            n |= b << i;
            i += 1;
        }
        Ok(n)
    }

    /// Reads `cnt` bits as a number whose most significant bit comes
    /// first.  When fewer are left, nothing is consumed.
    pub fn get_nbit_rev(&mut self, cnt: u16) -> (r: Result<u16, GzipError>)
        requires
            old(self).wf(),
            cnt <= 16,
        ensures
            final(self).wf(),
            final(self)@.bytes == old(self)@.bytes,
            match read_msb(old(self)@.bytes, old(self)@.pos, cnt as nat) {
                Ok((v, p)) => r matches Ok(x) && x == v && final(self)@.pos == p,
                Err(e) => r == Err::<u16, GzipError>(e) && final(self)@.pos == old(self)@.pos,
            },
    {
        if !self.has_bits(cnt) {
            return Err(GzipError::TruncatedInput);
        }
        let ghost start = self@.pos;
        let mut n: u16 = 0;
        let mut i: u16 = 0;
        while i < cnt
            invariant
                self.wf(),
                self@.bytes == old(self)@.bytes,
                start == old(self)@.pos,
                self@.pos == start + i,
                i <= cnt <= 16,
                start + cnt <= bit_len(self@.bytes),
                n == msb_value(self@.bytes, start, i as nat),
            decreases cnt - i,
        {
            let b = self.get_bit()?;
            proof {
                lemma_value_bound(self@.bytes, start, i as nat);
                assert(pow2(i as nat) <= 0x8000) by {
                    lemma2_to64();
                    if i < 15 {
                        lemma_pow2_strictly_increases(i as nat, 15);
                    }
                }
                assert((n << 1) | b == 2 * n + b) by (bit_vector)
                    requires
                        n < 0x8000,
                        b <= 1,
                ;
            }
            n = (n << 1) | b;
            i += 1;
        }
        Ok(n)
    }

    /// Skips what is left of a byte that was begun, so that the next
    /// read starts at a byte boundary.
    pub fn clear_bits(&mut self)
        requires
            old(self).wf(),
        ensures
            final(self).wf(),
            final(self)@.bytes == old(self)@.bytes,
            final(self)@.pos == align_up(old(self)@.pos),
    {
        if self.bit != 0 {
            proof {
                let i = self.index as int;
                let k = self.bit as int;
                axiom_spec_len(self.bytes);
                assert((i * 8 + k + 7) / 8 == i + 1);
            }
            self.bit = 0;
            self.index += 1;
        } else {
            proof {
                let i = self.index as int;
                assert((i * 8 + 7) / 8 == i);
            }
        }
    }

    /// Copies the next `len` bytes.  When fewer are left, nothing is
    /// consumed.
    pub fn get_nbytes(&mut self, len: usize) -> (r: Result<Vec<u8>, GzipError>)
        requires
            old(self).wf(),
            old(self)@.pos % 8 == 0,
        ensures
            final(self).wf(),
            final(self)@.bytes == old(self)@.bytes,
            match read_bytes(old(self)@.bytes, old(self)@.pos, len as nat) {
                Ok((s, p)) => r matches Ok(v) && v@ == s && final(self)@.pos == p,
                Err(e) => r == Err::<Vec<u8>, GzipError>(e) && final(self)@.pos == old(self)@.pos,
            },
    {
        if len > self.bytes.len() - self.index {
            return Err(GzipError::TruncatedInput);
        }
        let mut v: Vec<u8> = Vec::new();
        v.extend_from_slice(&self.bytes[self.index..self.index + len]);
        self.index += len;
        Ok(v)
    }
}

} // verus!
