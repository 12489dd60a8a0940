//! Canonical Huffman codes: the code that a vector of code lengths
//! stands for, the table that decodes it, and the decoder.
//!
//! A code is given by one length per symbol, 0 for a symbol that has no
//! codeword.  Codewords are handed out in increasing order of length
//! and, within a length, in increasing order of symbol.  The vector is
//! accepted only when the code is complete, that is when the codewords'
//! weights `2^-length` add up to exactly one.

use crate::bits::{bit_len, lemma_bit_at_bound, lemma_value_bound, msb_value, BitStream};
use crate::error::GzipError;
use std::collections::HashMap;
use vstd::arithmetic::power2::{
    lemma2_to64, lemma_pow2_adds, lemma_pow2_pos, lemma_pow2_strictly_increases, lemma_pow2_unfold,
    pow2,
};
use vstd::bits::lemma_u32_shl_is_mul;
use vstd::prelude::*;

verus! {

/// The longest codeword, in bits.
pub const MAX_BITS: u8 = 15;

/// The largest alphabet a table is built for.
pub const MAX_SYMBOLS: usize = 288;

/// What a decoding table is to a contract: the symbol that each pair of
/// codeword and length in bits stands for.
pub type CodeMap = Map<(nat, nat), nat>;

/// A vector of code lengths that a table can be built from.
pub open spec fn valid_lengths(lengths: Seq<u8>) -> bool {
    &&& lengths.len() <= MAX_SYMBOLS
    &&& forall|i: int| 0 <= i < lengths.len() ==> #[trigger] lengths[i] <= MAX_BITS
}

/// How many of the first `k` symbols have a codeword of `len` bits.
pub open spec fn count_upto(lengths: Seq<u8>, len: nat, k: nat) -> nat
    decreases k,
{
    if k == 0 {
        0
    } else {
        let j = (k - 1) as nat;
        count_upto(lengths, len, j) + if lengths[j as int] == len {
            1nat
        } else {
            0nat
        }
    }
}

/// How many symbols have a codeword of `len` bits.
pub open spec fn length_count(lengths: Seq<u8>, len: nat) -> nat {
    count_upto(lengths, len, lengths.len())
}

/// The smallest codeword of `len` bits: codes of one bit start at 0,
/// and each further length starts behind the codewords of the length
/// before it, with one more bit.
pub open spec fn first_code(lengths: Seq<u8>, len: nat) -> nat
    decreases len,
{
    if len <= 1 {
        0
    } else {
        let shorter = (len - 1) as nat;
        2 * (first_code(lengths, shorter) + length_count(lengths, shorter))
    }
}

/// The codeword of symbol `sym`: its length's first codeword plus the
/// number of earlier symbols of the same length.
pub open spec fn canonical_code(lengths: Seq<u8>, sym: int) -> nat {
    first_code(lengths, lengths[sym] as nat) + count_upto(lengths, lengths[sym] as nat, sym as nat)
}

/// Symbol `sym` has the codeword `code` of `len` bits.
pub open spec fn has_code(lengths: Seq<u8>, sym: int, code: nat, len: nat) -> bool {
    &&& 0 <= sym < lengths.len()
    &&& len > 0
    &&& lengths[sym] == len
    &&& canonical_code(lengths, sym) == code
}

/// The decoding table of the canonical code with these lengths: it
/// holds a pair of codeword and length exactly when some symbol has
/// that codeword, and maps the pair to that symbol.
pub open spec fn canonical_table(lengths: Seq<u8>) -> CodeMap {
    Map::new(
        |k: (nat, nat)| exists|s: int| has_code(lengths, s, k.0, k.1),
        |k: (nat, nat)| (choose|s: int| has_code(lengths, s, k.0, k.1)) as nat,
    )
}

/// The weight of a codeword of `len` bits, in units of `2^-15`.
pub open spec fn weight(len: u8) -> nat {
    if 1 <= len <= MAX_BITS {
        pow2((MAX_BITS - len) as nat)
    } else {
        0
    }
}

/// The weights of the first `k` symbols' codewords, added up.
pub open spec fn kraft_upto(lengths: Seq<u8>, k: nat) -> nat
    decreases k,
{
    if k == 0 {
        0
    } else {
        let j = (k - 1) as nat;
        kraft_upto(lengths, j) + weight(lengths[j as int])
    }
}

/// The weights of all codewords, added up, in units of `2^-15`.
pub open spec fn kraft_sum(lengths: Seq<u8>) -> nat {
    kraft_upto(lengths, lengths.len())
}

/// The code is complete: the weights add up to exactly one.
pub open spec fn is_complete(lengths: Seq<u8>) -> bool {
    kraft_sum(lengths) == pow2(MAX_BITS as nat)
}

/// What decoding one symbol at `pos` yields when no codeword shorter
/// than `len` bits matched: the symbol of the shortest codeword that
/// the bits at `pos` spell, most significant bit first, and the
/// position behind it.  The input is truncated when it ends before a
/// codeword is complete, and the symbol invalid when 15 bits spell
/// none.
pub open spec fn decode_from(table: CodeMap, bytes: Seq<u8>, pos: nat, len: nat) -> Result<
    (nat, nat),
    GzipError,
>
    decreases 16 - len,
{
    if len > MAX_BITS {
        Err(GzipError::InvalidHuffmanSymbol)
    } else if pos + len > bit_len(bytes) {
        Err(GzipError::TruncatedInput)
    } else if table.contains_key((msb_value(bytes, pos, len), len)) {
        Ok((table[(msb_value(bytes, pos, len), len)], pos + len))
    } else {
        decode_from(table, bytes, pos, len + 1)
    }
}

/// What decoding one symbol at `pos` yields.
pub open spec fn decode_symbol(table: CodeMap, bytes: Seq<u8>, pos: nat) -> Result<
    (nat, nat),
    GzipError,
> {
    decode_from(table, bytes, pos, 1)
}

/// The part of the code space of `len`-bit strings that the first `k`
/// symbols use up: the strings that are a codeword of one of them or
/// begin with a shorter one.
pub open spec fn code_space(lengths: Seq<u8>, len: nat, k: nat) -> nat
    decreases len,
{
    if len == 0 {
        0
    } else {
        2 * code_space(lengths, (len - 1) as nat, k) + count_upto(lengths, len, k)
    }
}

/// Counting goes up with the number of symbols counted, by at most one
/// per symbol.
pub proof fn lemma_count_upto_monotonic(lengths: Seq<u8>, len: nat, i: nat, j: nat)
    requires
        i <= j,
    ensures
        count_upto(lengths, len, i) <= count_upto(lengths, len, j) <= count_upto(lengths, len, i)
            + (j - i),
    decreases j,
{
    if i < j {
        lemma_count_upto_monotonic(lengths, len, i, (j - 1) as nat);
    }
}

/// One more symbol, with a codeword of `m` bits, takes `2^(len-m)` of
/// the strings of every length `len` from `m` on.
proof fn lemma_code_space_step(lengths: Seq<u8>, len: nat, k: nat)
    requires
        k < lengths.len(),
    ensures
        code_space(lengths, len, k + 1) == code_space(lengths, len, k) + if 1 <= lengths[k as int]
            <= len {
            pow2((len - lengths[k as int]) as nat)
        } else {
            0
        },
    decreases len,
{
    let m = lengths[k as int] as nat;
    if len > 0 {
        lemma_code_space_step(lengths, (len - 1) as nat, k);
        if 1 <= m < len {
            lemma_pow2_unfold((len - m) as nat);
        } else if m == len {
            lemma2_to64();
        }
    }
}

/// The weights of the first `k` codewords add up to what they use of
/// the 15-bit strings.
proof fn lemma_kraft_is_code_space(lengths: Seq<u8>, k: nat)
    requires
        k <= lengths.len(),
        valid_lengths(lengths),
    ensures
        kraft_upto(lengths, k) == code_space(lengths, MAX_BITS as nat, k),
    decreases k,
{
    if k == 0 {
        lemma_code_space_empty(lengths, MAX_BITS as nat);
    } else {
        lemma_kraft_is_code_space(lengths, (k - 1) as nat);
        lemma_code_space_step(lengths, MAX_BITS as nat, (k - 1) as nat);
    }
}

/// No symbols use nothing of the code space.
proof fn lemma_code_space_empty(lengths: Seq<u8>, len: nat)
    ensures
        code_space(lengths, len, 0) == 0,
    decreases len,
{
    if len > 0 {
        lemma_code_space_empty(lengths, (len - 1) as nat);
    }
}

/// What is used of the strings of one length is used twice over of the
/// strings one bit longer, so the used share never shrinks.
proof fn lemma_code_space_scales(lengths: Seq<u8>, len: nat, upto: nat, k: nat)
    requires
        len <= upto,
    ensures
        code_space(lengths, len, k) * pow2((upto - len) as nat) <= code_space(lengths, upto, k),
    decreases upto - len,
{
    if len == upto {
        lemma2_to64();
    } else {
        lemma_code_space_scales(lengths, len + 1, upto, k);
        let a = code_space(lengths, len, k);
        let b = code_space(lengths, len + 1, k);
        let p = pow2((upto - len - 1) as nat);
        lemma_pow2_unfold((upto - len) as nat);
        assert(a * (2 * p) <= b * p) by (nonlinear_arith)
            requires
                2 * a <= b,
        ;
    }
}

/// The codewords of a complete code fit their lengths: the first
/// codeword of `len` bits and all codewords of that length lie below
/// `2^len`.
pub proof fn lemma_codes_fit(lengths: Seq<u8>, len: nat)
    requires
        valid_lengths(lengths),
        kraft_sum(lengths) <= pow2(MAX_BITS as nat),
        1 <= len <= MAX_BITS,
    ensures
        first_code(lengths, len) + length_count(lengths, len) <= pow2(len),
        first_code(lengths, len) + length_count(lengths, len) == code_space(
            lengths,
            len,
            lengths.len(),
        ),
{
    let n = lengths.len();
    lemma_first_code_is_code_space(lengths, len);
    lemma_kraft_is_code_space(lengths, n);
    lemma_code_space_scales(lengths, len, MAX_BITS as nat, n);
    let a = code_space(lengths, len, n);
    let p = pow2((MAX_BITS - len) as nat);
    lemma_pow2_adds(len, (MAX_BITS - len) as nat);
    lemma_pow2_pos((MAX_BITS - len) as nat);
    assert(a <= pow2(len)) by (nonlinear_arith)
        requires
            a * p <= pow2(len) * p,
            p > 0,
    ;
}

/// The first codeword of a length and the codewords of that length
/// together make up what is used of the strings of that length.
proof fn lemma_first_code_is_code_space(lengths: Seq<u8>, len: nat)
    requires
        len >= 1,
    ensures
        first_code(lengths, len) + length_count(lengths, len) == code_space(
            lengths,
            len,
            lengths.len(),
        ),
    decreases len,
{
    if len == 1 {
        assert(code_space(lengths, 0, lengths.len()) == 0);
    } else {
        lemma_first_code_is_code_space(lengths, (len - 1) as nat);
    }
}

/// No two symbols share a codeword.
pub proof fn lemma_codes_unique(lengths: Seq<u8>, s: int, t: int, code: nat, len: nat)
    requires
        has_code(lengths, s, code, len),
        has_code(lengths, t, code, len),
    ensures
        s == t,
{
    if s < t {
        lemma_count_upto_monotonic(lengths, len, (s + 1) as nat, t as nat);
    } else if t < s {
        lemma_count_upto_monotonic(lengths, len, (t + 1) as nat, s as nat);
    }
}

/// The canonical table maps every symbol's codeword to that symbol.
pub proof fn lemma_table_holds_codes(lengths: Seq<u8>, s: int)
    requires
        0 <= s < lengths.len(),
        lengths[s] > 0,
    ensures
        canonical_table(lengths).contains_key((canonical_code(lengths, s), lengths[s] as nat)),
        canonical_table(lengths)[(canonical_code(lengths, s), lengths[s] as nat)] == s,
{
    let k = (canonical_code(lengths, s), lengths[s] as nat);
    assert(has_code(lengths, s, k.0, k.1));
    let t = choose|t: int| has_code(lengths, t, k.0, k.1);
    lemma_codes_unique(lengths, s, t, k.0, k.1);
    assert(canonical_table(lengths).dom().contains(k));
}

/// The bits behind a prefix can only add to it: `long` bits spell less
/// than what the first `short` of them spell, plus one, spells when
/// zeros follow.
proof fn lemma_msb_extension_bound(bytes: Seq<u8>, pos: nat, short: nat, long: nat)
    requires
        short <= long,
    ensures
        msb_value(bytes, pos, long) < (msb_value(bytes, pos, short) + 1) * pow2(
            (long - short) as nat,
        ),
    decreases long - short,
{
    let a = msb_value(bytes, pos, short);
    if short == long {
        assert(pow2(0) == 1) by {
            lemma2_to64();
        }
    } else {
        let m = (long - 1) as nat;
        lemma_msb_extension_bound(bytes, pos, short, m);
        lemma_bit_at_bound(bytes, pos + m);
        lemma_pow2_unfold((long - short) as nat);
        let p = pow2((m - short) as nat);
        assert((a + 1) * (2 * p) == 2 * ((a + 1) * p)) by (nonlinear_arith);
    }
}

/// No codeword begins with a shorter codeword: the bits of a codeword
/// of `long` bits, cut off after fewer bits, spell no codeword of that
/// length.
proof fn lemma_no_prefix(lengths: Seq<u8>, s: int, t: int, bytes: Seq<u8>, pos: nat)
    requires
        0 <= s < lengths.len(),
        0 <= t < lengths.len(),
        0 < lengths[t] < lengths[s],
        msb_value(bytes, pos, lengths[s] as nat) == canonical_code(lengths, s),
    ensures
        msb_value(bytes, pos, lengths[t] as nat) != canonical_code(lengths, t),
{
    let n = lengths.len();
    let short = lengths[t] as nat;
    let long = lengths[s] as nat;
    let gap = (long - short) as nat;
    let m = (long - 1) as nat;
    // The codewords of the shorter length lie below what is used of that length.
    lemma_first_code_is_code_space(lengths, short);
    lemma_count_upto_monotonic(lengths, short, (t + 1) as nat, n);
    assert(canonical_code(lengths, t) + 1 <= code_space(lengths, short, n));
    // The codewords of the longer length lie above all that begins with a shorter one.
    lemma_first_code_is_code_space(lengths, m);
    lemma_code_space_scales(lengths, short, m, n);
    lemma_pow2_unfold(gap);
    let used = code_space(lengths, short, n);
    let half = pow2((m - short) as nat);
    assert(used * (2 * half) == 2 * (used * half)) by (nonlinear_arith);
    assert(used * pow2(gap) <= canonical_code(lengths, s));
    if msb_value(bytes, pos, short) == canonical_code(lengths, t) {
        lemma_msb_extension_bound(bytes, pos, short, long);
        let c = canonical_code(lengths, t);
        let p = pow2(gap);
        assert((c + 1) * p <= used * p) by (nonlinear_arith)
            requires
                c + 1 <= used,
        ;
    }
}

/// Where the bits at `pos` spell the codeword of `sym`, no shorter
/// run of them spells a codeword, so that the search from `len` bits on
/// ends with `sym`.
proof fn lemma_decode_from_codeword(
    lengths: Seq<u8>,
    sym: int,
    bytes: Seq<u8>,
    pos: nat,
    len: nat,
)
    requires
        valid_lengths(lengths),
        0 <= sym < lengths.len(),
        1 <= len <= lengths[sym],
        pos + lengths[sym] <= bit_len(bytes),
        msb_value(bytes, pos, lengths[sym] as nat) == canonical_code(lengths, sym),
    ensures
        decode_from(canonical_table(lengths), bytes, pos, len) == Ok::<(nat, nat), GzipError>(
            (sym as nat, pos + lengths[sym] as nat),
        ),
    decreases lengths[sym] - len,
{
    let table = canonical_table(lengths);
    if len == lengths[sym] {
        lemma_table_holds_codes(lengths, sym);
    } else {
        let k = (msb_value(bytes, pos, len), len);
        if table.contains_key(k) {
            let t = choose|t: int| has_code(lengths, t, k.0, k.1);
            lemma_no_prefix(lengths, sym, t, bytes, pos);
        }
        lemma_decode_from_codeword(lengths, sym, bytes, pos, len + 1);
    }
}

/// Decoding a codeword gives back its symbol: where the bits at `pos`
/// spell the codeword of `sym`, most significant bit first, the table
/// built from `lengths` decodes `sym` and stops behind the codeword.
pub proof fn lemma_decode_codeword(lengths: Seq<u8>, sym: int, bytes: Seq<u8>, pos: nat)
    requires
        valid_lengths(lengths),
        0 <= sym < lengths.len(),
        lengths[sym] > 0,
        pos + lengths[sym] <= bit_len(bytes),
        msb_value(bytes, pos, lengths[sym] as nat) == canonical_code(lengths, sym),
    ensures
        decode_symbol(canonical_table(lengths), bytes, pos) == Ok::<(nat, nat), GzipError>(
            (sym as nat, pos + lengths[sym] as nat),
        ),
{
    lemma_decode_from_codeword(lengths, sym, bytes, pos, 1);
}

/// Among the first `k` symbols, each rank below the count of a length
/// belongs to a symbol of that length.
proof fn lemma_symbol_of_rank(lengths: Seq<u8>, len: nat, k: nat, rank: nat) -> (sym: int)
    requires
        k <= lengths.len(),
        rank < count_upto(lengths, len, k),
    ensures
        0 <= sym < k,
        lengths[sym] == len,
        count_upto(lengths, len, sym as nat) == rank,
    decreases k,
{
    let j = (k - 1) as nat;
    if lengths[j as int] == len && rank == count_upto(lengths, len, j) {
        j as int
    } else {
        lemma_symbol_of_rank(lengths, len, j, rank)
    }
}

/// Where the bits before the last of `len` spell a number beyond all
/// that the shorter codewords use, the search from `len` bits on finds
/// a codeword: the codewords of each length follow on what the shorter
/// ones use, and those of 15 bits fill the code space.
proof fn lemma_decode_from_complete(lengths: Seq<u8>, bytes: Seq<u8>, pos: nat, len: nat)
    requires
        valid_lengths(lengths),
        is_complete(lengths),
        1 <= len <= 16,
        msb_value(bytes, pos, (len - 1) as nat) >= code_space(
            lengths,
            (len - 1) as nat,
            lengths.len(),
        ),
    ensures
        match decode_from(canonical_table(lengths), bytes, pos, len) {
            Ok((sym, p)) => sym < lengths.len() && lengths[sym as int] > 0 && p == pos
                + lengths[sym as int],
            Err(e) => e == GzipError::TruncatedInput && pos + MAX_BITS > bit_len(bytes),
        },
    decreases 16 - len,
{
    let n = lengths.len();
    let table = canonical_table(lengths);
    let shorter = (len - 1) as nat;
    if len > MAX_BITS {
        lemma_value_bound(bytes, pos, shorter);
        lemma_kraft_is_code_space(lengths, n);
    } else if pos + len <= bit_len(bytes) {
        let word = msb_value(bytes, pos, len);
        if len > 1 {
            lemma_first_code_is_code_space(lengths, shorter);
        }
        lemma_first_code_is_code_space(lengths, len);
        assert(word >= first_code(lengths, len));
        if word < code_space(lengths, len, n) {
            let rank = (word - first_code(lengths, len)) as nat;
            let sym = lemma_symbol_of_rank(lengths, len, n, rank);
            lemma_table_holds_codes(lengths, sym);
        } else {
            if table.contains_key((word, len)) {
                let t = choose|t: int| has_code(lengths, t, word, len);
                lemma_count_upto_monotonic(lengths, len, (t + 1) as nat, n);
            }
            lemma_decode_from_complete(lengths, bytes, pos, len + 1);
        }
    }
}

/// With a complete code every run of bits spells a codeword: decoding
/// yields a symbol of the code and stops behind its codeword, and
/// fails only where the input ends within 15 bits.
pub proof fn lemma_complete_code_decodes(lengths: Seq<u8>, bytes: Seq<u8>, pos: nat)
    requires
        valid_lengths(lengths),
        is_complete(lengths),
    ensures
        match decode_symbol(canonical_table(lengths), bytes, pos) {
            Ok((sym, p)) => sym < lengths.len() && lengths[sym as int] > 0 && p == pos
                + lengths[sym as int],
            Err(e) => e == GzipError::TruncatedInput && pos + MAX_BITS > bit_len(bytes),
        },
{
    lemma_decode_from_complete(lengths, bytes, pos, 1);
}

/// A run of equal lengths counts once per symbol for its own length
/// and not at all for any other.
pub proof fn lemma_count_run(lengths: Seq<u8>, len: nat, from: nat, to: nat, run: u8)
    requires
        from <= to <= lengths.len(),
        forall|i: int| from <= i < to ==> lengths[i] == run,
    ensures
        count_upto(lengths, len, to) == count_upto(lengths, len, from) + if run == len {
            (to - from) as nat
        } else {
            0
        },
    decreases to,
{
    if from < to {
        lemma_count_run(lengths, len, from, (to - 1) as nat, run);
    }
}

/// A run of equal lengths adds its weight once per symbol.
pub proof fn lemma_kraft_run(lengths: Seq<u8>, from: nat, to: nat, len: u8)
    requires
        from <= to <= lengths.len(),
        forall|i: int| from <= i < to ==> lengths[i] == len,
    ensures
        kraft_upto(lengths, to) == kraft_upto(lengths, from) + (to - from) * weight(len),
    decreases to,
{
    if from < to {
        lemma_kraft_run(lengths, from, (to - 1) as nat, len);
        let w = weight(len);
        assert((to - from) * w == (to - 1 - from) * w + w) by (nonlinear_arith);
    } else {
        assert((to - from) * weight(len) == 0) by (nonlinear_arith)
            requires
                to == from,
        ;
    }
}

/// A decoded symbol takes at least one bit and at most what is left.
pub proof fn lemma_decode_advances(table: CodeMap, bytes: Seq<u8>, pos: nat)
    ensures
        decode_symbol(table, bytes, pos) matches Ok((_, p)) ==> pos < p <= bit_len(bytes),
{
    lemma_decode_from_advances(table, bytes, pos, 1);
}

/// A symbol found from `len` bits on takes at least `len` bits.
proof fn lemma_decode_from_advances(table: CodeMap, bytes: Seq<u8>, pos: nat, len: nat)
    requires
        len >= 1,
    ensures
        decode_from(table, bytes, pos, len) matches Ok((_, p)) ==> pos < p <= bit_len(bytes),
    decreases 16 - len,
{
    if len <= 15 && pos + len <= bit_len(bytes) {
        lemma_decode_from_advances(table, bytes, pos, len + 1);
    }
}

/// A decoding table: for each pair of codeword and length, the symbol.
#[derive(Debug)]
pub struct HuffCode {
    /// Keyed by the length in the upper and the codeword in the lower
    /// sixteen bits.
    hm: HashMap<u32, u16>,
}

/// The table's key for a codeword of `len` bits.
spec fn packed(code: nat, len: nat) -> u32 {
    (len * 0x10000 + code) as u32
}

impl View for HuffCode {
    type V = CodeMap;

    closed spec fn view(&self) -> CodeMap {
        Map::new(
            |k: (nat, nat)| k.0 < 0x10000 && k.1 < 0x100 && self.hm@.contains_key(packed(k.0, k.1)),
            |k: (nat, nat)| self.hm@[packed(k.0, k.1)] as nat,
        )
    }
}

impl HuffCode {
    /// A table without codewords.
    fn empty() -> (table: HuffCode)
        ensures
            table@ == Map::<(nat, nat), nat>::empty(),
    {
        let table = HuffCode { hm: HashMap::new() };
        assert(table@ =~= Map::<(nat, nat), nat>::empty());
        table
    }

    /// Lets the codeword `key` of `len` bits stand for `sym`.
    fn insert(&mut self, key: u16, len: u8, sym: u16)
        ensures
            final(self)@ == old(self)@.insert((key as nat, len as nat), sym as nat),
    {
        broadcast use vstd::std_specs::hash::group_hash_axioms;

        let k: u32 = len as u32 * 0x10000 + key as u32;
        self.hm.insert(k, sym);
        assert(self@ =~= old(self)@.insert((key as nat, len as nat), sym as nat)) by {
            assert forall|c: (nat, nat)|
                c.0 < 0x10000 && c.1 < 0x100 && c != (key as nat, len as nat) implies packed(
                    c.0,
                    c.1,
                ) != k by {}
        }
    }

    /// The symbol whose codeword is `key`, of `len` bits, if there is
    /// one.
    pub fn find(&self, key: u16, len: u8) -> (r: Option<u16>)
        ensures
            match r {
                Some(sym) => self@.contains_key((key as nat, len as nat)) && self@[(
                    key as nat,
                    len as nat,
                )] == sym,
                None => !self@.contains_key((key as nat, len as nat)),
            },
    {
        broadcast use vstd::std_specs::hash::group_hash_axioms;

        let k: u32 = len as u32 * 0x10000 + key as u32;
        match self.hm.get(&k) {
            Some(sym) => Some(*sym),
            None => None,
        }
    }
}

/// Whether the code with these lengths is complete.
pub fn valid_huff(huff: &[u8]) -> (ok: bool)
    requires
        valid_lengths(huff@),
    ensures
        ok == is_complete(huff@),
{
    let mut sum: u32 = 0;
    let mut i: usize = 0;
    proof {
        lemma2_to64();
    }
    while i < huff.len()
        invariant
            i <= huff@.len(),
            valid_lengths(huff@),
            sum == kraft_upto(huff@, i as nat),
            sum <= i * 0x4000,
        decreases huff@.len() - i,
    {
        let len = huff[i];
        if len != 0 {
            let shift: u32 = (MAX_BITS - len) as u32;
            proof {
                lemma2_to64();
                lemma_pow2_strictly_increases(shift as nat, 15);
                lemma_u32_shl_is_mul(1, shift);
            }
            sum += 1u32 << shift;
        }
        i += 1;
    }
    sum == 0x8000
}

/// Builds the decoding table of the canonical code with the given
/// lengths, one per symbol.  A code that is not complete is rejected.
pub fn build_huff(bit_length: &[u8]) -> (r: Result<HuffCode, GzipError>)
    requires
        valid_lengths(bit_length@),
    ensures
        match r {
            Ok(table) => is_complete(bit_length@) && table@ == canonical_table(bit_length@),
            Err(e) => !is_complete(bit_length@) && e == GzipError::IncompleteHuffman,
        },
{
    if !valid_huff(bit_length) {
        return Err(GzipError::IncompleteHuffman);
    }
    let ghost lengths = bit_length@;
    let n = bit_length.len();
    let mut bl_count: [u16; 16] = [0; 16];
    let mut i: usize = 0;
    while i < n
        invariant
            i <= n == lengths.len(),
            lengths == bit_length@,
            valid_lengths(lengths),
            bl_count[0] == 0,
            forall|len: int|
                1 <= len < 16 ==> bl_count[len] == count_upto(lengths, len as nat, i as nat),
        decreases n - i,
    {
        let len = bit_length[i];
        if len != 0 {
            proof {
                lemma_count_upto_monotonic(lengths, len as nat, 0, i as nat);
            }
            bl_count[len as usize] += 1;
        }
        i += 1;
    }
    let mut next_code: [u16; 16] = [0; 16];
    let mut code: u16 = 0;
    let mut bits: usize = 1;
    while bits < 16
        invariant
            1 <= bits <= 16,
            n == lengths.len(),
            valid_lengths(lengths),
            is_complete(lengths),
            bl_count[0] == 0,
            forall|len: int| 1 <= len < 16 ==> bl_count[len] == length_count(lengths, len as nat),
            code == first_code(lengths, (bits - 1) as nat),
            forall|len: int| 1 <= len < bits ==> next_code[len] == first_code(lengths, len as nat),
        decreases 16 - bits,
    {
        proof {
            lemma2_to64();
            if bits >= 2 {
                lemma_codes_fit(lengths, (bits - 1) as nat);
                lemma_pow2_strictly_increases((bits - 1) as nat, 15);
            }
        }
        code = 2 * (code + bl_count[bits - 1]);
        next_code[bits] = code;
        bits += 1;
    }
    let mut table = HuffCode::empty();
    let mut sym: usize = 0;
    while sym < n
        invariant
            sym <= n == lengths.len(),
            lengths == bit_length@,
            valid_lengths(lengths),
            is_complete(lengths),
            forall|len: int|
                1 <= len < 16 ==> next_code[len] == first_code(lengths, len as nat) + count_upto(
                    lengths,
                    len as nat,
                    sym as nat,
                ),
            forall|s: int|
                0 <= s < sym && lengths[s] > 0 ==> table@.contains_key(
                    (#[trigger] canonical_code(lengths, s), lengths[s] as nat),
                ) && table@[(canonical_code(lengths, s), lengths[s] as nat)] == s,
            forall|k: (nat, nat)| #[trigger]
                table@.contains_key(k) ==> table@[k] < sym && has_code(
                    lengths,
                    table@[k] as int,
                    k.0,
                    k.1,
                ),
        decreases n - sym,
    {
        let len = bit_length[sym];
        if len != 0 {
            let code = next_code[len as usize];
            proof {
                lemma2_to64();
                lemma_codes_fit(lengths, len as nat);
                lemma_pow2_strictly_increases(len as nat, 16);
                lemma_count_upto_monotonic(lengths, len as nat, (sym + 1) as nat, n as nat);
                assert(has_code(lengths, sym as int, code as nat, len as nat));
                assert forall|s: int| 0 <= s < sym && lengths[s] > 0 implies (
                    canonical_code(lengths, s),
                    lengths[s] as nat,
                ) != (code as nat, len as nat) by {
                    if lengths[s] == len && canonical_code(lengths, s) == code {
                        lemma_codes_unique(lengths, s, sym as int, code as nat, len as nat);
                    }
                }
            }
            table.insert(code, len, sym as u16);
            next_code[len as usize] += 1;
        }
        sym += 1;
    }
    proof {
        assert forall|k: (nat, nat)| #[trigger]
            canonical_table(lengths).contains_key(k) implies table@.contains_key(k) by {
            let s = choose|s: int| has_code(lengths, s, k.0, k.1);
            assert(table@.contains_key((canonical_code(lengths, s), lengths[s] as nat)));
        }
        assert forall|k: (nat, nat)| #[trigger]
            table@.contains_key(k) implies canonical_table(lengths).contains_key(k)
            && canonical_table(lengths)[k] == table@[k] by {
            let s = table@[k] as int;
            assert(has_code(lengths, s, k.0, k.1));
            lemma_table_holds_codes(lengths, s);
        }
        assert(table@ =~= canonical_table(lengths));
    }
    Ok(table)
}

/// Decodes one symbol: reads bits, most significant first, until they
/// spell a codeword of the table.  When no symbol comes out, nothing is
/// consumed.
pub fn get_code_from_huff(bs: &mut BitStream, hf: &HuffCode) -> (r: Result<u16, GzipError>)
    requires
        old(bs).wf(),
    ensures
        final(bs).wf(),
        final(bs)@.bytes == old(bs)@.bytes,
        match decode_symbol(hf@, old(bs)@.bytes, old(bs)@.pos) {
            Ok((sym, p)) => r matches Ok(v) && v == sym && final(bs)@.pos == p,
            Err(e) => r == Err::<u16, GzipError>(e) && final(bs)@.pos == old(bs)@.pos,
        },
{
    let ghost bytes = bs@.bytes;
    let ghost start = bs@.pos;
    let mut cur = *bs;
    let mut key: u16 = cur.get_bit()?;
    let mut len: u8 = 1;
    proof {
        reveal_with_fuel(msb_value, 2);
    }
    loop
        invariant
            *bs == *old(bs),
            bs.wf(),
            cur.wf(),
            bytes == old(bs)@.bytes,
            start == old(bs)@.pos,
            cur@.bytes == bytes,
            cur@.pos == start + len,
            1 <= len <= MAX_BITS,
            start + len <= bit_len(bytes),
            key == msb_value(bytes, start, len as nat),
            decode_symbol(hf@, bytes, start) == decode_from(hf@, bytes, start, len as nat),
        decreases 16 - len,
    {
        if let Some(sym) = hf.find(key, len) {
            *bs = cur;
            return Ok(sym);
        }
        assert(decode_from(hf@, bytes, start, len as nat) == decode_from(
            hf@,
            bytes,
            start,
            (len + 1) as nat,
        ));
        if len == MAX_BITS {
            return Err(GzipError::InvalidHuffmanSymbol);
        }
        let b = cur.get_bit()?;
        proof {
            lemma_value_bound(bytes, start, len as nat);
            assert(pow2(len as nat) <= 0x4000) by {
                lemma2_to64();
                if len < 14 {
                    lemma_pow2_strictly_increases(len as nat, 14);
                }
            }
            assert((key << 1) | b == 2 * key + b) by (bit_vector)
                requires
                    key < 0x8000,
                    b <= 1,
            ;
        }
        key = (key << 1) | b;
        len += 1;
    }
}

} // verus!
