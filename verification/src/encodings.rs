//! Streams as encoders write them, and proofs that the decoder reads
//! them back.
//!
//! An encoder puts out bits; `packed` fills bytes with them from the
//! least significant bit on.  Codewords go into the stream with their
//! most significant bit first, the fields of extra bits with their
//! least significant bit first.
//!
//! Two encoders are followed through the decoder.  One stores the data
//! as it is, in one stored block.  The other writes one block in the
//! fixed code: literals and matches of its choosing, which `Token`
//! stands for.  The body of a block is covered for any complete code,
//! the fixed one or one that a block brings along.

use crate::bits::{
    align_up, bit_at, bit_len, bit_of, lemma_read_lsb_round_trip, lsb_value, msb_value, read_bytes,
    read_lsb,
};
use crate::backref::{
    copy_back, distance_at, lemma_copy_back_repeats, length_at, DISTANCE_BASE, DISTANCE_EXTRA,
    LENGTH_BASE, LENGTH_EXTRA,
};
use crate::block::{
    back_reference, huffman_block, DISTANCE_CODES, END_OF_BLOCK, FIRST_LENGTH_SYMBOL,
};
use crate::crc::crc32_of;
use crate::error::GzipError;
use crate::fixed::{
    fixed_block, fixed_distance_lengths, fixed_literal_lengths, lemma_fixed_codes_complete,
};
use crate::flag;
use crate::gzip::{
    content_of, gunzipped, le32, member_of, payload_start, Member, CM_DEFLATE, ID1, ID2,
};
use crate::huffman::{
    canonical_code, canonical_table, decode_symbol, is_complete, lemma_codes_fit,
    lemma_count_upto_monotonic, lemma_decode_codeword, valid_lengths, CodeMap,
};
use crate::inflate::{block_at, blocks, inflated};
use crate::stored::stored_block;
use vstd::arithmetic::power2::{lemma2_to64, lemma_pow2_unfold, pow2};
use vstd::prelude::*;

verus! {

/// Bit `i` of a string of bits, as a number; zero behind its end.
pub open spec fn bit_in(bits: Seq<bool>, i: int) -> nat {
    if 0 <= i < bits.len() && bits[i] {
        1
    } else {
        0
    }
}

/// The byte that holds the bits `8 * k` to `8 * k + 7`, the first of
/// them as its least significant bit.
pub open spec fn byte_of_bits(bits: Seq<bool>, k: int) -> u8 {
    (bit_in(bits, 8 * k) + 2 * bit_in(bits, 8 * k + 1) + 4 * bit_in(bits, 8 * k + 2) + 8 * bit_in(
        bits,
        8 * k + 3,
    ) + 16 * bit_in(bits, 8 * k + 4) + 32 * bit_in(bits, 8 * k + 5) + 64 * bit_in(bits, 8 * k + 6)
        + 128 * bit_in(bits, 8 * k + 7)) as u8
}

/// The bytes that hold `bits`; the last byte is filled up with zeros.
pub open spec fn packed(bits: Seq<bool>) -> Seq<u8> {
    Seq::new(((bits.len() + 7) / 8) as nat, |k: int| byte_of_bits(bits, k))
}

/// The number that the `n` bits from `pos` on spell, most significant
/// bit first.
pub open spec fn msb_of(bits: Seq<bool>, pos: int, n: nat) -> nat
    decreases n,
{
    if n == 0 {
        0
    } else {
        let m = (n - 1) as nat;
        2 * msb_of(bits, pos, m) + bit_in(bits, pos + m)
    }
}

/// The number that the `n` bits from `pos` on spell, least significant
/// bit first.
pub open spec fn lsb_of(bits: Seq<bool>, pos: int, n: nat) -> nat
    decreases n,
{
    if n == 0 {
        0
    } else {
        let m = (n - 1) as nat;
        lsb_of(bits, pos, m) + bit_in(bits, pos + m) * pow2(m)
    }
}

/// The `len` bits of the codeword `code`, most significant bit first.
pub open spec fn word_bits(code: nat, len: nat) -> Seq<bool>
    decreases len,
{
    if len == 0 {
        Seq::empty()
    } else {
        word_bits(code / 2, (len - 1) as nat).push(code % 2 == 1)
    }
}

/// Eight bits in a byte, read back one by one.
proof fn lemma_bit_of_sum(x: Seq<u8>, k: u8)
    requires
        x.len() == 8,
        forall|j: int| 0 <= j < 8 ==> #[trigger] x[j] <= 1,
        k < 8,
    ensures
        bit_of(
            (x[0] + 2 * x[1] + 4 * x[2] + 8 * x[3] + 16 * x[4] + 32 * x[5] + 64 * x[6] + 128
                * x[7]) as u8,
            k,
        ) == x[k as int],
{
    let x0 = x[0];
    let x1 = x[1];
    let x2 = x[2];
    let x3 = x[3];
    let x4 = x[4];
    let x5 = x[5];
    let x6 = x[6];
    let x7 = x[7];
    let byte = (x0 + 2 * x1 + 4 * x2 + 8 * x3 + 16 * x4 + 32 * x5 + 64 * x6 + 128 * x7) as u8;
    let picked = x[k as int];
    assert(((byte >> k) & 1) == picked) by (bit_vector)
        requires
            x0 <= 1 && x1 <= 1 && x2 <= 1 && x3 <= 1 && x4 <= 1 && x5 <= 1 && x6 <= 1 && x7 <= 1,
            byte == (x0 + 2 * x1 + 4 * x2 + 8 * x3 + 16 * x4 + 32 * x5 + 64 * x6 + 128 * x7) as u8,
            k < 8,
            picked == (if k == 0 {
                x0
            } else if k == 1 {
                x1
            } else if k == 2 {
                x2
            } else if k == 3 {
                x3
            } else if k == 4 {
                x4
            } else if k == 5 {
                x5
            } else if k == 6 {
                x6
            } else {
                x7
            }),
    ;
}

/// The bits of the packed bytes are the bits that were packed.
pub proof fn lemma_bit_at_packed(bits: Seq<bool>, i: nat)
    requires
        i < bit_len(packed(bits)),
    ensures
        bit_at(packed(bits), i) == bit_in(bits, i as int),
{
    let k = (i / 8) as int;
    let x = Seq::new(8, |j: int| bit_in(bits, 8 * k + j) as u8);
    lemma_bit_of_sum(x, (i % 8) as u8);
    assert(packed(bits)[k] == byte_of_bits(bits, k));
}

/// The bytes hold all the bits.
pub proof fn lemma_packed_len(bits: Seq<bool>)
    ensures
        bits.len() <= bit_len(packed(bits)) < bits.len() + 8,
{
}

/// Bits spell the same number before and after they were packed.
pub proof fn lemma_value_packed(bits: Seq<bool>, pos: nat, n: nat)
    requires
        pos + n <= bits.len(),
    ensures
        msb_value(packed(bits), pos, n) == msb_of(bits, pos as int, n),
        lsb_value(packed(bits), pos, n) == lsb_of(bits, pos as int, n),
    decreases n,
{
    if n > 0 {
        let m = (n - 1) as nat;
        lemma_value_packed(bits, pos, m);
        lemma_packed_len(bits);
        lemma_bit_at_packed(bits, pos + m);
    }
}

/// A codeword of `len` bits has `len` bits.
pub proof fn lemma_word_bits_len(code: nat, len: nat)
    ensures
        word_bits(code, len).len() == len,
    decreases len,
{
    if len > 0 {
        lemma_word_bits_len(code / 2, (len - 1) as nat);
    }
}

/// The bits of a codeword spell the codeword.
pub proof fn lemma_msb_of_word(bits: Seq<bool>, pos: int, code: nat, len: nat)
    requires
        code < pow2(len),
        0 <= pos,
        pos + len <= bits.len(),
        bits.subrange(pos, pos + len) == word_bits(code, len),
    ensures
        msb_of(bits, pos, len) == code,
    decreases len,
{
    if len == 0 {
        assert(pow2(0) == 1) by {
            lemma2_to64();
        }
    } else {
        let m = (len - 1) as nat;
        let word = word_bits(code, len);
        let shorter = word_bits(code / 2, m);
        lemma_pow2_unfold(len);
        lemma_word_bits_len(code / 2, m);
        assert(word == shorter.push(code % 2 == 1));
        assert(bits.subrange(pos, pos + m) =~= shorter) by {
            assert forall|i: int| 0 <= i < m implies bits[pos + i] == shorter[i] by {
                assert(bits.subrange(pos, pos + len)[i] == word[i]);
            }
        }
        lemma_msb_of_word(bits, pos, code / 2, m);
        assert(bits[pos + m] == (code % 2 == 1)) by {
            assert(bits.subrange(pos, pos + len)[m as int] == word[m as int]);
        }
    }
}

/// The `n` bits of the field with the value `v`, least significant bit
/// first.
pub open spec fn field_bits(v: nat, n: nat) -> Seq<bool>
    decreases n,
{
    if n == 0 {
        Seq::empty()
    } else {
        seq![v % 2 == 1] + field_bits(v / 2, (n - 1) as nat)
    }
}

/// A field of `n` bits has `n` bits.
pub proof fn lemma_field_bits_len(v: nat, n: nat)
    ensures
        field_bits(v, n).len() == n,
    decreases n,
{
    if n > 0 {
        lemma_field_bits_len(v / 2, (n - 1) as nat);
    }
}

/// The first of the bits of a number counts once, the bits behind it
/// spell the number's other half.
proof fn lemma_lsb_of_front(bits: Seq<bool>, pos: int, n: nat)
    requires
        n > 0,
    ensures
        lsb_of(bits, pos, n) == bit_in(bits, pos) + 2 * lsb_of(bits, pos + 1, (n - 1) as nat),
    decreases n,
{
    let m = (n - 1) as nat;
    if m == 0 {
        assert(pow2(0) == 1) by {
            lemma2_to64();
        }
        assert(lsb_of(bits, pos, 0) == 0 && lsb_of(bits, pos + 1, 0) == 0);
    } else {
        let k = (m - 1) as nat;
        lemma_lsb_of_front(bits, pos, m);
        lemma_pow2_unfold(m);
        let b = bit_in(bits, pos + m);
        let q = pow2(k);
        assert(b * (2 * q) == 2 * (b * q)) by (nonlinear_arith);
        assert(lsb_of(bits, pos + 1, m) == lsb_of(bits, pos + 1, k) + bit_in(bits, pos + 1 + k)
            * pow2(k));
    }
}

/// The bits of a field spell its value.
pub proof fn lemma_lsb_of_field(bits: Seq<bool>, pos: int, v: nat, n: nat)
    requires
        v < pow2(n),
        0 <= pos,
        pos + n <= bits.len(),
        bits.subrange(pos, pos + n) == field_bits(v, n),
    ensures
        lsb_of(bits, pos, n) == v,
    decreases n,
{
    if n > 0 {
        let m = (n - 1) as nat;
        let field = field_bits(v, n);
        let shorter = field_bits(v / 2, m);
        lemma_pow2_unfold(n);
        lemma_field_bits_len(v / 2, m);
        assert(field == seq![v % 2 == 1] + shorter);
        assert(bits.subrange(pos + 1, pos + 1 + m) =~= shorter) by {
            assert forall|i: int| 0 <= i < m implies bits[pos + 1 + i] == shorter[i] by {
                assert(bits.subrange(pos, pos + n)[i + 1] == field[i + 1]);
            }
        }
        lemma_lsb_of_field(bits, pos + 1, v / 2, m);
        assert(bits[pos] == (v % 2 == 1)) by {
            assert(bits.subrange(pos, pos + n)[0] == field[0]);
        }
        lemma_lsb_of_front(bits, pos, n);
    } else {
        assert(pow2(0) == 1) by {
            lemma2_to64();
        }
    }
}

/// The codeword of `sym` in the canonical code with the given lengths,
/// bit by bit.
pub open spec fn code_word(lengths: Seq<u8>, sym: int) -> Seq<bool> {
    word_bits(canonical_code(lengths, sym), lengths[sym] as nat)
}

/// A code that an encoder can write with: its lengths are valid and it
/// is complete.
pub open spec fn is_code(lengths: Seq<u8>) -> bool {
    valid_lengths(lengths) && is_complete(lengths)
}

/// The decoder finds a codeword where the encoder put it: behind
/// `head`, it decodes `sym` and stops in front of `tail`.
pub proof fn lemma_decode_written(lengths: Seq<u8>, sym: int, head: Seq<bool>, tail: Seq<bool>)
    requires
        is_code(lengths),
        0 <= sym < lengths.len(),
        lengths[sym] > 0,
    ensures
        code_word(lengths, sym).len() == lengths[sym],
        decode_symbol(
            canonical_table(lengths),
            packed(head + code_word(lengths, sym) + tail),
            head.len(),
        ) == Ok::<(nat, nat), GzipError>((sym as nat, head.len() + lengths[sym] as nat)),
{
    let len = lengths[sym] as nat;
    let code = canonical_code(lengths, sym);
    let word = code_word(lengths, sym);
    let bits = head + word + tail;
    let pos = head.len();
    lemma_word_bits_len(code, len);
    assert(code < pow2(len)) by {
        lemma_codes_fit(lengths, len);
        lemma_count_upto_monotonic(lengths, len, (sym + 1) as nat, lengths.len());
    }
    assert(bits.subrange(pos as int, pos as int + len) =~= word);
    lemma_msb_of_word(bits, pos as int, code, len);
    lemma_value_packed(bits, pos, len);
    lemma_packed_len(bits);
    lemma_decode_codeword(lengths, sym, packed(bits), pos);
}

/// The decoder finds a field where the encoder put it: behind `head`,
/// it reads `v` and stops in front of `tail`.
pub proof fn lemma_read_written(v: nat, n: nat, head: Seq<bool>, tail: Seq<bool>)
    requires
        v < pow2(n),
    ensures
        field_bits(v, n).len() == n,
        read_lsb(packed(head + field_bits(v, n) + tail), head.len(), n) == Ok::<
            (nat, nat),
            GzipError,
        >((v, head.len() + n)),
{
    let field = field_bits(v, n);
    let bits = head + field + tail;
    let pos = head.len();
    lemma_field_bits_len(v, n);
    assert(bits.subrange(pos as int, pos as int + n) =~= field);
    lemma_lsb_of_field(bits, pos as int, v, n);
    lemma_value_packed(bits, pos, n);
    lemma_packed_len(bits);
}

/// What an encoder puts into the body of a block: a byte as it is, or
/// a match, given by the codes of its length and distance with the
/// values of their extra bits.
pub enum Token {
    Literal { byte: u8 },
    Match { length_code: nat, length_extra: nat, distance_code: nat, distance_extra: nat },
}

impl Token {
    /// The length of a match.
    pub open spec fn length(self) -> nat {
        LENGTH_BASE[self->length_code as int] as nat + self->length_extra
    }

    /// The distance of a match.
    pub open spec fn distance(self) -> nat {
        DISTANCE_BASE[self->distance_code as int] as nat + self->distance_extra
    }

    /// The literal or length symbol that the token starts with.
    pub open spec fn symbol(self) -> int {
        match self {
            Token::Literal { byte } => byte as int,
            Token::Match { length_code, .. } => FIRST_LENGTH_SYMBOL + length_code,
        }
    }

    /// The output behind the token, where `out` is the output before
    /// it.
    pub open spec fn applied(self, out: Seq<u8>) -> Seq<u8> {
        match self {
            Token::Literal { byte } => out.push(byte),
            Token::Match { .. } => copy_back(out, self.distance(), self.length()),
        }
    }

    /// The token can be written with the codes `lit` and `dist` where
    /// the output so far is `out`: its symbols have codewords, its
    /// extra bits fit their fields, and a match starts within `out`.
    pub open spec fn fits(self, lit: Seq<u8>, dist: Seq<u8>, out: Seq<u8>) -> bool {
        match self {
            Token::Literal { byte } => byte < lit.len() && lit[byte as int] > 0,
            Token::Match { length_code, length_extra, distance_code, distance_extra } => {
                &&& length_code < 29
                &&& length_extra < pow2(LENGTH_EXTRA[length_code as int] as nat)
                &&& FIRST_LENGTH_SYMBOL + length_code < lit.len()
                &&& lit[FIRST_LENGTH_SYMBOL + length_code] > 0
                &&& distance_code < DISTANCE_CODES
                &&& distance_extra < pow2(DISTANCE_EXTRA[distance_code as int] as nat)
                &&& distance_code < dist.len()
                &&& dist[distance_code as int] > 0
                &&& 1 <= self.distance() <= out.len()
            },
        }
    }

    /// The bits that the token is written with: the codeword of a
    /// literal; or the codeword of the length symbol, the extra bits of
    /// the length, the codeword of the distance symbol, and the extra
    /// bits of the distance.
    pub open spec fn bits(self, lit: Seq<u8>, dist: Seq<u8>) -> Seq<bool> {
        match self {
            Token::Literal { byte } => code_word(lit, byte as int),
            Token::Match { length_code, length_extra, distance_code, distance_extra } => {
                code_word(lit, FIRST_LENGTH_SYMBOL + length_code) + field_bits(
                    length_extra,
                    LENGTH_EXTRA[length_code as int] as nat,
                ) + code_word(dist, distance_code as int) + field_bits(
                    distance_extra,
                    DISTANCE_EXTRA[distance_code as int] as nat,
                )
            },
        }
    }
}

/// The output behind the tokens, where `out` is the output before
/// them.
pub open spec fn expanded(tokens: Seq<Token>, out: Seq<u8>) -> Seq<u8>
    decreases tokens.len(),
{
    if tokens.len() == 0 {
        out
    } else {
        expanded(tokens.drop_first(), tokens[0].applied(out))
    }
}

/// Each of the tokens can be written where it stands.
pub open spec fn all_fit(tokens: Seq<Token>, lit: Seq<u8>, dist: Seq<u8>, out: Seq<u8>) -> bool
    decreases tokens.len(),
{
    tokens.len() == 0 || (tokens[0].fits(lit, dist, out) && all_fit(
        tokens.drop_first(),
        lit,
        dist,
        tokens[0].applied(out),
    ))
}

/// The bits of the body of a block: the tokens one after the other and
/// the codeword that ends the block.
pub open spec fn body_bits(tokens: Seq<Token>, lit: Seq<u8>, dist: Seq<u8>) -> Seq<bool>
    decreases tokens.len(),
{
    if tokens.len() == 0 {
        code_word(lit, END_OF_BLOCK as int)
    } else {
        tokens[0].bits(lit, dist) + body_bits(tokens.drop_first(), lit, dist)
    }
}

/// A back-reference is what its parts are: the extra bits of the
/// length, read from `pos1` to `pos2`, the distance symbol, from `pos2` to
/// `pos3`, and the extra bits of the distance, from `pos3` to `pos4`.
proof fn lemma_back_reference_parts(
    dist: CodeMap,
    bytes: Seq<u8>,
    token: Token,
    pos1: nat,
    pos2: nat,
    pos3: nat,
    pos4: nat,
)
    requires
        token is Match,
        token->length_code < 29,
        token->distance_code < DISTANCE_CODES,
        read_lsb(bytes, pos1, LENGTH_EXTRA[token->length_code as int] as nat) == Ok::<
            (nat, nat),
            GzipError,
        >((token->length_extra, pos2)),
        decode_symbol(dist, bytes, pos2) == Ok::<(nat, nat), GzipError>(
            (token->distance_code, pos3),
        ),
        read_lsb(bytes, pos3, DISTANCE_EXTRA[token->distance_code as int] as nat) == Ok::<
            (nat, nat),
            GzipError,
        >((token->distance_extra, pos4)),
    ensures
        back_reference(dist, bytes, pos1, token->length_code) == Ok::<((nat, nat), nat), GzipError>(
            ((token.length(), token.distance()), pos4),
        ),
{
    assert(length_at(bytes, pos1, token->length_code) == Ok::<(nat, nat), GzipError>(
        (token.length(), pos2),
    ));
    assert(distance_at(bytes, pos3, token->distance_code) == Ok::<(nat, nat), GzipError>(
        (token.distance(), pos4),
    ));
}

/// Four words between a head and a tail, grouped around each of them.
proof fn lemma_regroup(
    head: Seq<bool>,
    w1: Seq<bool>,
    w2: Seq<bool>,
    w3: Seq<bool>,
    w4: Seq<bool>,
    tail: Seq<bool>,
)
    ensures
        head + (w1 + w2 + w3 + w4) + tail == head + w1 + (w2 + w3 + w4 + tail),
        head + (w1 + w2 + w3 + w4) + tail == (head + w1) + w2 + (w3 + w4 + tail),
        head + (w1 + w2 + w3 + w4) + tail == (head + w1 + w2) + w3 + (w4 + tail),
        head + (w1 + w2 + w3 + w4) + tail == (head + w1 + w2 + w3) + w4 + tail,
{
    let bits = head + (w1 + w2 + w3 + w4) + tail;
    assert(bits =~= head + w1 + (w2 + w3 + w4 + tail));
    assert(bits =~= (head + w1) + w2 + (w3 + w4 + tail));
    assert(bits =~= (head + w1 + w2) + w3 + (w4 + tail));
    assert(bits =~= (head + w1 + w2 + w3) + w4 + tail);
}

/// The decoder reads the four parts of a match where the encoder put
/// them.
proof fn lemma_match_parts(
    lit: Seq<u8>,
    dist: Seq<u8>,
    sym: int,
    length_extra: nat,
    length_bits: nat,
    distance_code: int,
    distance_extra: nat,
    distance_bits: nat,
    head: Seq<bool>,
    tail: Seq<bool>,
)
    requires
        is_code(lit),
        is_code(dist),
        0 <= sym < lit.len(),
        lit[sym] > 0,
        length_extra < pow2(length_bits),
        0 <= distance_code < dist.len(),
        dist[distance_code] > 0,
        distance_extra < pow2(distance_bits),
    ensures
        ({
            let word = code_word(lit, sym) + field_bits(length_extra, length_bits) + code_word(
                dist,
                distance_code,
            ) + field_bits(distance_extra, distance_bits);
            let bytes = packed(head + word + tail);
            let pos0 = head.len();
            let pos1 = pos0 + lit[sym] as nat;
            let pos2 = pos1 + length_bits;
            let pos3 = pos2 + dist[distance_code] as nat;
            let pos4 = pos3 + distance_bits;
            &&& pos4 == pos0 + word.len()
            &&& decode_symbol(canonical_table(lit), bytes, pos0) == Ok::<(nat, nat), GzipError>(
                (sym as nat, pos1),
            )
            &&& read_lsb(bytes, pos1, length_bits) == Ok::<(nat, nat), GzipError>(
                (length_extra, pos2),
            )
            &&& decode_symbol(canonical_table(dist), bytes, pos2) == Ok::<(nat, nat), GzipError>(
                (distance_code as nat, pos3),
            )
            &&& read_lsb(bytes, pos3, distance_bits) == Ok::<(nat, nat), GzipError>(
                (distance_extra, pos4),
            )
        }),
{
    let w1 = code_word(lit, sym);
    let w2 = field_bits(length_extra, length_bits);
    let w3 = code_word(dist, distance_code);
    let w4 = field_bits(distance_extra, distance_bits);
    lemma_regroup(head, w1, w2, w3, w4, tail);
    lemma_decode_written(lit, sym, head, w2 + w3 + w4 + tail);
    lemma_read_written(length_extra, length_bits, head + w1, w3 + w4 + tail);
    lemma_decode_written(dist, distance_code, head + w1 + w2, w4 + tail);
    lemma_read_written(distance_extra, distance_bits, head + w1 + w2 + w3, tail);
}

/// The decoder reads a match where the encoder put it.
proof fn lemma_match_written(
    token: Token,
    lit: Seq<u8>,
    dist: Seq<u8>,
    out: Seq<u8>,
    head: Seq<bool>,
    tail: Seq<bool>,
)
    requires
        is_code(lit),
        is_code(dist),
        token is Match,
        token.fits(lit, dist, out),
    ensures
        ({
            let bytes = packed(head + token.bits(lit, dist) + tail);
            let behind = head.len() + token.bits(lit, dist).len();
            let first = head.len() + lit[token.symbol()] as nat;
            &&& decode_symbol(canonical_table(lit), bytes, head.len()) == Ok::<
                (nat, nat),
                GzipError,
            >((token.symbol() as nat, first))
            &&& back_reference(canonical_table(dist), bytes, first, token->length_code) == Ok::<
                ((nat, nat), nat),
                GzipError,
            >(((token.length(), token.distance()), behind))
        }),
{
    let length_code = token->length_code;
    let distance_code = token->distance_code;
    let length_bits = LENGTH_EXTRA[length_code as int] as nat;
    let distance_bits = DISTANCE_EXTRA[distance_code as int] as nat;
    let bytes = packed(head + token.bits(lit, dist) + tail);
    let pos1 = head.len() + lit[token.symbol()] as nat;
    let pos2 = pos1 + length_bits;
    let pos3 = pos2 + dist[distance_code as int] as nat;
    let pos4 = pos3 + distance_bits;
    lemma_match_parts(
        lit,
        dist,
        token.symbol(),
        token->length_extra,
        length_bits,
        distance_code as int,
        token->distance_extra,
        distance_bits,
        head,
        tail,
    );
    lemma_back_reference_parts(canonical_table(dist), bytes, token, pos1, pos2, pos3, pos4);
}

/// The decoder goes over a token as the encoder meant it: at a token
/// behind `head`, the body of a block goes on behind the token with
/// what the token stands for added to the output.
proof fn lemma_token_read(
    token: Token,
    lit: Seq<u8>,
    dist: Seq<u8>,
    head: Seq<bool>,
    tail: Seq<bool>,
    out: Seq<u8>,
)
    requires
        is_code(lit),
        is_code(dist),
        token.fits(lit, dist, out),
    ensures
        ({
            let bytes = packed(head + token.bits(lit, dist) + tail);
            huffman_block(canonical_table(lit), canonical_table(dist), bytes, head.len(), out)
                == huffman_block(
                canonical_table(lit),
                canonical_table(dist),
                bytes,
                head.len() + token.bits(lit, dist).len(),
                token.applied(out),
            )
        }),
{
    match token {
        Token::Literal { byte } => {
            lemma_decode_written(lit, byte as int, head, tail);
        },
        Token::Match { .. } => {
            lemma_match_written(token, lit, dist, out, head, tail);
        },
    }
}

/// The decoder finds the end of a block where the encoder put it.
proof fn lemma_end_read(lit: Seq<u8>, dist: CodeMap, head: Seq<bool>, out: Seq<u8>)
    requires
        is_code(lit),
        lit.len() > END_OF_BLOCK,
        lit[END_OF_BLOCK as int] > 0,
    ensures
        ({
            let word = code_word(lit, END_OF_BLOCK as int);
            huffman_block(canonical_table(lit), dist, packed(head + word), head.len(), out) == Ok::<
                (Seq<u8>, nat),
                GzipError,
            >((out, head.len() + word.len()))
        }),
{
    let word = code_word(lit, END_OF_BLOCK as int);
    lemma_decode_written(lit, END_OF_BLOCK as int, head, Seq::empty());
    assert(head + word =~= head + word + Seq::<bool>::empty());
}

/// What an encoder writes into the body of a block, the decoder reads
/// back: where `head` is followed by the bits of tokens that can be
/// written and by the end of the block, the body of the block at the
/// end of `head` adds to the output what the tokens stand for, and
/// ends with the block.
pub proof fn lemma_body_decodes(
    tokens: Seq<Token>,
    lit: Seq<u8>,
    dist: Seq<u8>,
    head: Seq<bool>,
    out: Seq<u8>,
)
    requires
        is_code(lit),
        is_code(dist),
        lit.len() > END_OF_BLOCK,
        lit[END_OF_BLOCK as int] > 0,
        all_fit(tokens, lit, dist, out),
    ensures
        huffman_block(
            canonical_table(lit),
            canonical_table(dist),
            packed(head + body_bits(tokens, lit, dist)),
            head.len(),
            out,
        ) == Ok::<(Seq<u8>, nat), GzipError>(
            (expanded(tokens, out), head.len() + body_bits(tokens, lit, dist).len()),
        ),
    decreases tokens.len(),
{
    if tokens.len() == 0 {
        lemma_end_read(lit, canonical_table(dist), head, out);
    } else {
        let word = tokens[0].bits(lit, dist);
        let tail = body_bits(tokens.drop_first(), lit, dist);
        lemma_token_read(tokens[0], lit, dist, head, tail, out);
        lemma_body_decodes(tokens.drop_first(), lit, dist, head + word, tokens[0].applied(out));
        assert(head + (word + tail) =~= head + word + tail);
    }
}

/// The two bytes that spell `v`, least significant byte first.
pub open spec fn le16_bytes(v: nat) -> Seq<u8> {
    seq![(v % 0x100) as u8, (v / 0x100 % 0x100) as u8]
}

/// The four bytes that spell `v`, least significant byte first.
pub open spec fn le32_bytes(v: nat) -> Seq<u8> {
    seq![
        (v % 0x100) as u8,
        (v / 0x100 % 0x100) as u8,
        (v / 0x1_0000 % 0x100) as u8,
        (v / 0x100_0000 % 0x100) as u8,
    ]
}

/// The gzip member around the DEFLATE stream `stream` with the given
/// trailer: a header without optional fields in front, the checksum and
/// the length behind.
pub open spec fn plain_member(stream: Seq<u8>, crc: u32, isize: u32) -> Seq<u8> {
    seq![ID1, ID2, CM_DEFLATE, 0u8, 0u8, 0u8, 0u8, 0u8, 0u8, 0xffu8] + stream + le32_bytes(
        crc as nat,
    ) + le32_bytes(isize as nat)
}

/// Four bytes that spell a number spell it back.
proof fn lemma_le32_round_trip(bytes: Seq<u8>, at: int, v: u32)
    requires
        0 <= at,
        at + 4 <= bytes.len(),
        bytes.subrange(at, at + 4) == le32_bytes(v as nat),
    ensures
        le32(bytes, at) == v,
{
    let four = bytes.subrange(at, at + 4);
    assert(bytes[at] == four[0]);
    assert(bytes[at + 1] == four[1]);
    assert(bytes[at + 2] == four[2]);
    assert(bytes[at + 3] == four[3]);
}

/// A member without optional fields is taken apart into its stream
/// and its trailer.
pub proof fn lemma_plain_member_parses(stream: Seq<u8>, crc: u32, isize: u32)
    ensures
        member_of(plain_member(stream, crc, isize)) matches Ok(member) && member.cdata == stream
            && member.crc32 == crc && member.isize == isize,
{
    let bytes = plain_member(stream, crc, isize);
    let head = seq![ID1, ID2, CM_DEFLATE, 0u8, 0u8, 0u8, 0u8, 0u8, 0u8, 0xffu8];
    let end = 10 + stream.len() as int;
    assert(head.len() == 10);
    assert(bytes.len() == end + 8);
    assert(bytes[0] == ID1 && bytes[1] == ID2 && bytes[2] == CM_DEFLATE && bytes[3] == 0) by {
        assert(bytes[0] == head[0] && bytes[1] == head[1] && bytes[2] == head[2] && bytes[3]
            == head[3]);
    }
    assert(0u8 & flag::RESERVED == 0 && 0u8 & flag::FEXTRA == 0 && 0u8 & flag::FNAME == 0 && 0u8
        & flag::FCOMMENT == 0 && 0u8 & flag::FHCRC == 0) by (bit_vector);
    assert(payload_start(bytes) == Ok::<nat, GzipError>(10));
    assert(bytes.subrange(10, end) =~= stream);
    assert(le32(bytes, end) == crc) by {
        assert(bytes.subrange(end, end + 4) =~= le32_bytes(crc as nat));
        lemma_le32_round_trip(bytes, end, crc);
    }
    assert(le32(bytes, end + 4) == isize) by {
        assert(bytes.subrange(end + 4, end + 8) =~= le32_bytes(isize as nat));
        lemma_le32_round_trip(bytes, end + 4, isize);
    }
}

/// A member whose stream decodes to data that its trailer describes
/// has that data as its content.
proof fn lemma_content_of(member: Member, data: Seq<u8>)
    requires
        inflated(member.cdata) == Ok::<Seq<u8>, GzipError>(data),
        member.isize == data.len(),
        member.crc32 == crc32_of(data),
    ensures
        content_of(member) == Ok::<Seq<u8>, GzipError>(data),
{
}

/// The DEFLATE stream that holds the tokens as one block in the fixed
/// code, marked final.
pub open spec fn fixed_stream(tokens: Seq<Token>) -> Seq<u8> {
    packed(
        seq![true, true, false] + body_bits(
            tokens,
            fixed_literal_lengths(),
            fixed_distance_lengths(),
        ),
    )
}

/// The tokens can be written in the fixed code at the start of a
/// stream.
pub open spec fn fixed_fit(tokens: Seq<Token>) -> bool {
    all_fit(tokens, fixed_literal_lengths(), fixed_distance_lengths(), Seq::empty())
}

/// The first three bits of the stream are the header of a final block
/// in the fixed code.
proof fn lemma_fixed_header(tokens: Seq<Token>)
    ensures
        read_lsb(fixed_stream(tokens), 0, 1) == Ok::<(nat, nat), GzipError>((1, 1)),
        read_lsb(fixed_stream(tokens), 1, 2) == Ok::<(nat, nat), GzipError>((1, 3)),
{
    let bits = seq![true, true, false] + body_bits(
        tokens,
        fixed_literal_lengths(),
        fixed_distance_lengths(),
    );
    lemma_packed_len(bits);
    lemma_value_packed(bits, 0, 1);
    lemma_value_packed(bits, 1, 2);
    reveal_with_fuel(lsb_of, 3);
    assert(pow2(0) == 1 && pow2(1) == 2) by {
        lemma2_to64();
    }
    assert(bits[0] && bits[1] && !bits[2]);
}

/// The body of the stream decodes to what the tokens stand for.
proof fn lemma_fixed_body(tokens: Seq<Token>)
    requires
        fixed_fit(tokens),
    ensures
        fixed_block(fixed_stream(tokens), 3, Seq::empty()) matches Ok((out, _)) && out == expanded(
            tokens,
            Seq::empty(),
        ),
{
    lemma_fixed_codes_complete();
    lemma_body_decodes(
        tokens,
        fixed_literal_lengths(),
        fixed_distance_lengths(),
        seq![true, true, false],
        Seq::empty(),
    );
}

/// What an encoder writes as one block in the fixed code, whatever
/// matches it chose, decodes to what its tokens stand for.
pub proof fn lemma_fixed_stream_inflates(tokens: Seq<Token>)
    requires
        fixed_fit(tokens),
    ensures
        inflated(fixed_stream(tokens)) == Ok::<Seq<u8>, GzipError>(
            expanded(tokens, Seq::empty()),
        ),
{
    let stream = fixed_stream(tokens);
    lemma_fixed_header(tokens);
    lemma_fixed_body(tokens);
    assert(block_at(stream, 3, 1, Seq::empty()) == fixed_block(stream, 3, Seq::empty())) by {
        reveal(block_at);
    }
}

/// A literal and a match at distance one behind it come out as a run:
/// the block that holds the literal `byte` and a match of any length at
/// distance one decodes to one more than that length of copies of
/// `byte`.
pub proof fn lemma_run_decodes(byte: u8, length_code: nat, length_extra: nat)
    requires
        length_code < 29,
        length_extra < pow2(LENGTH_EXTRA[length_code as int] as nat),
    ensures
        ({
            let run = Token::Match {
                length_code,
                length_extra,
                distance_code: 0,
                distance_extra: 0,
            };
            inflated(fixed_stream(seq![Token::Literal { byte }, run])) == Ok::<
                Seq<u8>,
                GzipError,
            >(Seq::new(run.length() + 1, |i: int| byte))
        }),
{
    let literal = Token::Literal { byte };
    let run = Token::Match { length_code, length_extra, distance_code: 0, distance_extra: 0 };
    let tokens = seq![literal, run];
    let lit = fixed_literal_lengths();
    let dist = fixed_distance_lengths();
    let first = seq![byte];
    assert(pow2(0) == 1) by {
        lemma2_to64();
    }
    assert(literal.applied(Seq::empty()) =~= first);
    assert(tokens.drop_first() =~= seq![run]);
    assert(seq![run].drop_first() =~= Seq::<Token>::empty());
    assert(all_fit(seq![run], lit, dist, first)) by {
        assert(run.fits(lit, dist, first));
        assert(all_fit(Seq::<Token>::empty(), lit, dist, run.applied(first)));
    }
    assert(fixed_fit(tokens));
    assert(expanded(tokens, Seq::empty()) == run.applied(first)) by {
        assert(expanded(seq![run], first) == expanded(Seq::<Token>::empty(), run.applied(first)));
    }
    lemma_copy_back_repeats(first, run.length());
    assert(first + Seq::new(run.length(), |i: int| first.last()) =~= Seq::new(
        run.length() + 1,
        |i: int| byte,
    ));
    lemma_fixed_stream_inflates(tokens);
}

/// The gzip member of an encoder that writes one block in the fixed
/// code decodes to what its tokens stand for: the member that holds the
/// tokens with the checksum and the length of the data that they stand
/// for decodes to that data.
pub proof fn lemma_fixed_member_decodes(tokens: Seq<Token>)
    requires
        fixed_fit(tokens),
        expanded(tokens, Seq::empty()).len() < 0x1_0000_0000,
    ensures
        ({
            let data = expanded(tokens, Seq::empty());
            gunzipped(plain_member(fixed_stream(tokens), crc32_of(data), data.len() as u32))
                == Ok::<Seq<u8>, GzipError>(data)
        }),
{
    let data = expanded(tokens, Seq::empty());
    let stream = fixed_stream(tokens);
    let crc = crc32_of(data);
    let isize = data.len() as u32;
    lemma_plain_member_parses(stream, crc, isize);
    lemma_fixed_stream_inflates(tokens);
    lemma_content_of(member_of(plain_member(stream, crc, isize)).unwrap(), data);
}

/// The DEFLATE stream that holds `data` as one stored block, marked
/// final: the block header in a byte of its own, the length and its
/// complement, and the data.
pub open spec fn stored_stream(data: Seq<u8>) -> Seq<u8> {
    seq![1u8] + le16_bytes(data.len()) + le16_bytes((0xffff - data.len()) as nat) + data
}

/// The gzip member that an encoder without compression makes of
/// `data`: the data as one stored block, with its checksum and length.
pub open spec fn stored_member(data: Seq<u8>) -> Seq<u8> {
    plain_member(stored_stream(data), crc32_of(data), data.len() as u32)
}

/// The bytes of a stored stream, one by one.
proof fn lemma_stored_stream_bytes(data: Seq<u8>)
    requires
        data.len() <= 0xffff,
    ensures
        stored_stream(data).len() == 5 + data.len(),
        stored_stream(data)[0] == 1,
        stored_stream(data)[1] == data.len() % 0x100,
        stored_stream(data)[2] == data.len() / 0x100,
        stored_stream(data)[3] == (0xffff - data.len()) % 0x100,
        stored_stream(data)[4] == (0xffff - data.len()) / 0x100,
        stored_stream(data).subrange(5, 5 + data.len() as int) == data,
{
    let head = seq![1u8] + le16_bytes(data.len()) + le16_bytes((0xffff - data.len()) as nat);
    assert(head.len() == 5);
    assert(stored_stream(data) == head + data);
    assert((head + data).subrange(5, 5 + data.len() as int) =~= data);
}

/// A first byte of 1 is the header of a final stored block.
proof fn lemma_stored_header_bits(stream: Seq<u8>)
    requires
        stream.len() > 0,
        stream[0] == 1,
    ensures
        lsb_value(stream, 0, 1) == 1,
        lsb_value(stream, 1, 2) == 0,
{
    assert(pow2(0) == 1 && pow2(1) == 2) by {
        lemma2_to64();
    }
    assert(bit_of(1u8, 0u8) == 1 && bit_of(1u8, 1u8) == 0 && bit_of(1u8, 2u8) == 0)
        by (bit_vector);
    assert(bit_at(stream, 0) == 1);
    assert(bit_at(stream, 1) == 0);
    assert(bit_at(stream, 2) == 0);
    assert(lsb_value(stream, 0, 0) == 0);
    assert(lsb_value(stream, 0, 1) == lsb_value(stream, 0, 0) + bit_at(stream, 0) * pow2(0));
    assert(lsb_value(stream, 1, 0) == 0);
    assert(lsb_value(stream, 1, 1) == lsb_value(stream, 1, 0) + bit_at(stream, 1) * pow2(0));
    assert(lsb_value(stream, 1, 2) == lsb_value(stream, 1, 1) + bit_at(stream, 2) * pow2(1));
}

/// The body of a stored stream decodes to what was stored.
proof fn lemma_stored_stream_body(data: Seq<u8>)
    requires
        data.len() <= 0xffff,
    ensures
        stored_block(stored_stream(data), 3, Seq::empty()) == Ok::<(Seq<u8>, nat), GzipError>(
            (data, 40 + 8 * data.len()),
        ),
{
    let stream = stored_stream(data);
    let len = data.len();
    let nlen = (0xffff - len) as nat;
    lemma_stored_stream_bytes(data);
    assert(pow2(16) == 0x10000) by {
        lemma2_to64();
    }
    lemma_read_lsb_round_trip(stream, 1, 16, len);
    lemma_read_lsb_round_trip(stream, 3, 16, nlen);
    assert(align_up(3) == 8);
    assert(read_lsb(stream, 8, 16) == Ok::<(nat, nat), GzipError>((len, 24)));
    assert(read_lsb(stream, 24, 16) == Ok::<(nat, nat), GzipError>((nlen, 40)));
    assert(read_bytes(stream, 40, len) == Ok::<(Seq<u8>, nat), GzipError>((data, 40 + 8 * len)));
    assert(Seq::<u8>::empty() + data =~= data);
}

/// A stored block decodes to what was stored.
pub proof fn lemma_stored_stream_inflates(data: Seq<u8>)
    requires
        data.len() <= 0xffff,
    ensures
        inflated(stored_stream(data)) == Ok::<Seq<u8>, GzipError>(data),
{
    let stream = stored_stream(data);
    lemma_stored_stream_bytes(data);
    lemma_stored_header_bits(stream);
    lemma_stored_stream_body(data);
    assert(read_lsb(stream, 0, 1) == Ok::<(nat, nat), GzipError>((1, 1)));
    assert(read_lsb(stream, 1, 2) == Ok::<(nat, nat), GzipError>((0, 3)));
    assert(block_at(stream, 3, 0, Seq::empty()) == stored_block(stream, 3, Seq::empty())) by {
        reveal(block_at);
    }
    assert(blocks(stream, 0, Seq::empty()) == Ok::<(Seq<u8>, nat), GzipError>(
        (data, 40 + 8 * data.len()),
    ));
}

/// What an encoder without compression writes, the decoder reads back:
/// the member that holds `data` as one stored block decodes to `data`.
pub proof fn lemma_stored_member_decodes(data: Seq<u8>)
    requires
        data.len() <= 0xffff,
    ensures
        gunzipped(stored_member(data)) == Ok::<Seq<u8>, GzipError>(data),
{
    let stream = stored_stream(data);
    let crc = crc32_of(data);
    let isize = data.len() as u32;
    lemma_plain_member_parses(stream, crc, isize);
    lemma_stored_stream_inflates(data);
    lemma_content_of(member_of(plain_member(stream, crc, isize)).unwrap(), data);
}

} // verus!
