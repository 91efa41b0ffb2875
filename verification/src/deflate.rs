//! The DEFLATE encoder: token model, RFC 1951 length/distance code
//! tables, the bit-stream writer, and the orchestrator that drives
//! tokenizer, block splitter and writer.

pub mod block_splitter;
pub mod lempel_ziv;

use vstd::prelude::*;
use vstd::arithmetic::power2::pow2;
use vstd::arithmetic::power2::lemma_pow2_adds;
use vstd::arithmetic::power2::lemma_pow2_pos;
use vstd::arithmetic::power2::lemma_pow2_strictly_increases;
use vstd::arithmetic::power2::lemma2_to64;
use vstd::arithmetic::mul::lemma_mul_upper_bound;
use vstd::bits::lemma_u32_shl_is_mul;
use vstd::bits::lemma_u32_shr_is_div;

use crate::bitstream::bit_of;
use crate::bitstream::bytes_bits;
use crate::bitstream::val_bits;
use crate::bitstream::lemma_bytes_bits_push;
use crate::bitstream::lemma_split_low_byte;
use crate::bitstream::lemma_val_bits_combine;
use crate::bitstream::lemma_val_bits_extend;
use crate::deflate::block_splitter::Block;
use crate::huffman::HuffmanCode;
use crate::huffman::calc_codes;
use crate::huffman::tree_of;
use crate::huffman::tree_codes_wf;
use crate::huffman::lemma_tree_of_wf;
use crate::huffman::fixed_literal_lengths;
use crate::huffman::fixed_distance_lengths;
use crate::huffman::literal_fixed_codes;
use crate::huffman::distance_fixed_codes;

verus! {

/// One LZ77 token: a literal byte, or a back-reference
/// `Repeat(length, distance)` with `length` in `[3, 258]` and
/// `distance` in `[1, 32768]`.
#[derive(Clone, Copy, Debug, PartialEq, Eq, Structural)]
pub enum Token {
    Literal(u8),
    Repeat(u32, u32),
}

/// Range validity of a single token, independent of any position.
pub open spec fn token_wf(t: Token) -> bool {
    match t {
        Token::Literal(_) => true,
        Token::Repeat(len, dist) => 3 <= len <= 258 && 1 <= dist <= 32768,
    }
}

/// How far a token advances the uncompressed position.
pub open spec fn token_step(t: Token) -> int {
    match t {
        Token::Literal(_) => 1,
        Token::Repeat(len, _) => len as int,
    }
}

/// Validity of a token emitted at position `from` of `data`: a literal
/// must equal the byte there; a repeat must lie inside the window and
/// the input, and every referenced byte must match (`from - dist + q`
/// may run into the bytes the repeat itself produces when
/// `len > dist`, which the overlap rule of RFC 1951 allows).
pub open spec fn token_valid_at(data: Seq<u8>, from: int, t: Token) -> bool {
    match t {
        Token::Literal(b) => 0 <= from < data.len() && data[from] == b,
        Token::Repeat(len, dist) => {
            &&& 3 <= len <= 258
            &&& 1 <= dist <= 32768
            &&& dist <= from
            &&& from + len <= data.len()
            &&& forall|q: int| 0 <= q < len ==> (#[trigger] data[from + q]) == data[from - dist + q]
        },
    }
}

/// The token sequence exactly describes `data[from..to]`: every token is
/// valid at its own position and the steps add up from `from` to `to`.
pub open spec fn tokens_cover(tokens: Seq<Token>, data: Seq<u8>, from: int, to: int) -> bool
    decreases tokens.len(),
{
    if tokens.len() == 0 {
        from == to
    } else {
        &&& token_valid_at(data, from, tokens[0])
        &&& tokens_cover(
            tokens.subrange(1, tokens.len() as int),
            data,
            from + token_step(tokens[0]),
            to,
        )
    }
}

/// What an RFC 1951 decoder does with one back-reference: append `l`
/// bytes, each copied `d` positions back in the output produced so far.
pub open spec fn lz_extend(s: Seq<u8>, d: int, l: int) -> Seq<u8>
    recommends
        1 <= d <= s.len(),
    decreases l,
{
    if l <= 0 {
        s
    } else {
        lz_extend(s.push(s[s.len() - d]), d, l - 1)
    }
}

/// Runs an RFC 1951 decoder over a token sequence, extending `out`.
pub open spec fn lz_run(tokens: Seq<Token>, out: Seq<u8>) -> Seq<u8>
    decreases tokens.len(),
{
    if tokens.len() == 0 {
        out
    } else {
        let out2 = match tokens[0] {
            Token::Literal(b) => out.push(b),
            Token::Repeat(l, d) => lz_extend(out, d as int, l as int),
        };
        lz_run(tokens.subrange(1, tokens.len() as int), out2)
    }
}

/// The bytes an RFC 1951 decoder reconstructs from a token sequence.
pub open spec fn lz_decode(tokens: Seq<Token>) -> Seq<u8> {
    lz_run(tokens, Seq::<u8>::empty())
}

/// A covering token sequence is range-valid everywhere.
pub proof fn lemma_tokens_cover_wf(tokens: Seq<Token>, data: Seq<u8>, from: int, to: int)
    requires
        tokens_cover(tokens, data, from, to),
    ensures
        forall|i: int| 0 <= i < tokens.len() ==> #[trigger] token_wf(tokens[i]),
    decreases tokens.len(),
{
    if tokens.len() > 0 {
        let rest = tokens.subrange(1, tokens.len() as int);
        lemma_tokens_cover_wf(rest, data, from + token_step(tokens[0]), to);
        assert forall|i: int| 0 <= i < tokens.len() implies #[trigger] token_wf(tokens[i]) by {
            if i > 0 {
                assert(tokens[i] == rest[i - 1]);
            }
        }
    }
}

/// A covering token sequence advances by at least one byte per token.
pub proof fn lemma_tokens_cover_len(tokens: Seq<Token>, data: Seq<u8>, from: int, to: int)
    requires
        tokens_cover(tokens, data, from, to),
    ensures
        from + tokens.len() <= to,
    decreases tokens.len(),
{
    if tokens.len() > 0 {
        lemma_tokens_cover_len(
            tokens.subrange(1, tokens.len() as int),
            data,
            from + token_step(tokens[0]),
            to,
        );
    }
}

/// Appending one more valid token extends a covering sequence.
pub proof fn lemma_tokens_cover_snoc(
    tokens: Seq<Token>,
    data: Seq<u8>,
    from: int,
    mid: int,
    t: Token,
)
    requires
        tokens_cover(tokens, data, from, mid),
        token_valid_at(data, mid, t),
    ensures
        tokens_cover(tokens.push(t), data, from, mid + token_step(t)),
    decreases tokens.len(),
{
    let pushed = tokens.push(t);
    if tokens.len() == 0 {
        assert(pushed[0] == t);
        assert(pushed.subrange(1, pushed.len() as int) =~= Seq::<Token>::empty());
        assert(tokens_cover(
            Seq::<Token>::empty(),
            data,
            from + token_step(t),
            mid + token_step(t),
        ));
        assert(tokens_cover(pushed, data, from, mid + token_step(t)));
    } else {
        let rest = tokens.subrange(1, tokens.len() as int);
        lemma_tokens_cover_snoc(rest, data, from + token_step(tokens[0]), mid, t);
        assert(pushed[0] == tokens[0]);
        assert(pushed.subrange(1, pushed.len() as int) =~= rest.push(t));
        assert(tokens_cover(
            pushed.subrange(1, pushed.len() as int),
            data,
            from + token_step(tokens[0]),
            mid + token_step(t),
        ));
        assert(tokens_cover(pushed, data, from, mid + token_step(t)));
    }
}

/// Replaying one valid back-reference reproduces the matched bytes.
proof fn lemma_lz_extend_matches(data: Seq<u8>, from: int, d: int, l: int)
    requires
        1 <= d <= from,
        0 <= l,
        from + l <= data.len(),
        forall|q: int| 0 <= q < l ==> (#[trigger] data[from + q]) == data[from - d + q],
    ensures
        lz_extend(data.subrange(0, from), d, l) == data.subrange(0, from + l),
    decreases l,
{
    if l == 0 {
        assert(lz_extend(data.subrange(0, from), d, 0) == data.subrange(0, from));
    } else {
        let s = data.subrange(0, from);
        assert(s[s.len() - d] == data[from - d]);
        assert(data[from - d] == data[from]) by {
            assert(data[from + 0] == data[from - d + 0]);
        }
        assert(s.push(data[from]) =~= data.subrange(0, from + 1));
        assert forall|q: int| 0 <= q < l - 1 implies (#[trigger] data[(from + 1) + q]) == data[(from
            + 1) - d + q] by {
            assert(data[from + (q + 1)] == data[from - d + (q + 1)]);
        }
        lemma_lz_extend_matches(data, from + 1, d, l - 1);
        assert(lz_extend(s, d, l) == lz_extend(s.push(s[s.len() - d]), d, l - 1));
    }
}

proof fn lemma_cover_decodes(tokens: Seq<Token>, data: Seq<u8>, from: int, to: int)
    requires
        tokens_cover(tokens, data, from, to),
        0 <= from,
    ensures
        lz_run(tokens, data.subrange(0, from)) == data.subrange(0, to),
    decreases tokens.len(),
{
    if tokens.len() == 0 {
        assert(from == to);
    } else {
        let rest = tokens.subrange(1, tokens.len() as int);
        match tokens[0] {
            Token::Literal(b) => {
                assert(data.subrange(0, from).push(b) =~= data.subrange(0, from + 1));
                lemma_cover_decodes(rest, data, from + 1, to);
            },
            Token::Repeat(l, d) => {
                lemma_lz_extend_matches(data, from, d as int, l as int);
                lemma_cover_decodes(rest, data, from + l as int, to);
            },
        }
    }
}

/// Round-trip law of the tokenizer: any token sequence that covers
/// `data` decodes, by the RFC 1951 copy rules, to exactly `data`.
/// Together with the postcondition of `lempel_ziv` this says the LZ77
/// stage loses nothing.
pub proof fn lemma_lz_round_trip(tokens: Seq<Token>, data: Seq<u8>)
    requires
        tokens_cover(tokens, data, 0, data.len() as int),
    ensures
        lz_decode(tokens) == data,
{
    lemma_cover_decodes(tokens, data, 0, data.len() as int);
    assert(data.subrange(0, 0) =~= Seq::<u8>::empty());
    assert(data.subrange(0, data.len() as int) =~= data);
}

/// RFC 1951 length coding: for a repeat length in `[3, 258]`, the
/// `(extra-bits value, extra-bit count, literal/length symbol)` triple.
pub open spec fn len_code_info(len: int) -> (int, int, int) {
    if len < 4 {
        (len - 3, 0, 257)
    } else if len < 5 {
        (len - 4, 0, 258)
    } else if len < 6 {
        (len - 5, 0, 259)
    } else if len < 7 {
        (len - 6, 0, 260)
    } else if len < 8 {
        (len - 7, 0, 261)
    } else if len < 9 {
        (len - 8, 0, 262)
    } else if len < 10 {
        (len - 9, 0, 263)
    } else if len < 11 {
        (len - 10, 0, 264)
    } else if len < 13 {
        (len - 11, 1, 265)
    } else if len < 15 {
        (len - 13, 1, 266)
    } else if len < 17 {
        (len - 15, 1, 267)
    } else if len < 19 {
        (len - 17, 1, 268)
    } else if len < 23 {
        (len - 19, 2, 269)
    } else if len < 27 {
        (len - 23, 2, 270)
    } else if len < 31 {
        (len - 27, 2, 271)
    } else if len < 35 {
        (len - 31, 2, 272)
    } else if len < 43 {
        (len - 35, 3, 273)
    } else if len < 51 {
        (len - 43, 3, 274)
    } else if len < 59 {
        (len - 51, 3, 275)
    } else if len < 67 {
        (len - 59, 3, 276)
    } else if len < 83 {
        (len - 67, 4, 277)
    } else if len < 99 {
        (len - 83, 4, 278)
    } else if len < 115 {
        (len - 99, 4, 279)
    } else if len < 131 {
        (len - 115, 4, 280)
    } else if len < 163 {
        (len - 131, 5, 281)
    } else if len < 195 {
        (len - 163, 5, 282)
    } else if len < 227 {
        (len - 195, 5, 283)
    } else if len < 258 {
        (len - 227, 5, 284)
    } else {
        (0, 0, 285)
    }
}

/// RFC 1951 distance coding: for a distance in `[1, 32768]`, the
/// `(extra-bits value, extra-bit count, distance symbol)` triple.
pub open spec fn dist_code_info(dist: int) -> (int, int, int) {
    if dist < 2 {
        (dist - 1, 0, 0)
    } else if dist < 3 {
        (dist - 2, 0, 1)
    } else if dist < 4 {
        (dist - 3, 0, 2)
    } else if dist < 5 {
        (dist - 4, 0, 3)
    } else if dist < 7 {
        (dist - 5, 1, 4)
    } else if dist < 9 {
        (dist - 7, 1, 5)
    } else if dist < 13 {
        (dist - 9, 2, 6)
    } else if dist < 17 {
        (dist - 13, 2, 7)
    } else if dist < 25 {
        (dist - 17, 3, 8)
    } else if dist < 33 {
        (dist - 25, 3, 9)
    } else if dist < 49 {
        (dist - 33, 4, 10)
    } else if dist < 65 {
        (dist - 49, 4, 11)
    } else if dist < 97 {
        (dist - 65, 5, 12)
    } else if dist < 129 {
        (dist - 97, 5, 13)
    } else if dist < 193 {
        (dist - 129, 6, 14)
    } else if dist < 257 {
        (dist - 193, 6, 15)
    } else if dist < 385 {
        (dist - 257, 7, 16)
    } else if dist < 513 {
        (dist - 385, 7, 17)
    } else if dist < 769 {
        (dist - 513, 8, 18)
    } else if dist < 1025 {
        (dist - 769, 8, 19)
    } else if dist < 1537 {
        (dist - 1025, 9, 20)
    } else if dist < 2049 {
        (dist - 1537, 9, 21)
    } else if dist < 3073 {
        (dist - 2049, 10, 22)
    } else if dist < 4097 {
        (dist - 3073, 10, 23)
    } else if dist < 6145 {
        (dist - 4097, 11, 24)
    } else if dist < 8193 {
        (dist - 6145, 11, 25)
    } else if dist < 12289 {
        (dist - 8193, 12, 26)
    } else if dist < 16385 {
        (dist - 12289, 12, 27)
    } else if dist < 24577 {
        (dist - 16385, 13, 28)
    } else {
        (dist - 24577, 13, 29)
    }
}

/// Looks up the RFC 1951 length code of a repeat length:
/// `(extra-bits value, extra-bit count, literal/length symbol)`.
pub fn deflate_code_of_len(len: u32) -> (r: (u32, u8, u32))
    requires
        3 <= len <= 258,
    ensures
        (r.0 as int, r.1 as int, r.2 as int) == len_code_info(len as int),
        r.1 <= 5,
        257 <= r.2 <= 285,
        (r.0 as nat) < pow2(r.1 as nat),
{
    let r: (u32, u8, u32) = if len < 4 {
        (len - 3, 0, 257)
    } else if len < 5 {
        (len - 4, 0, 258)
    } else if len < 6 {
        (len - 5, 0, 259)
    } else if len < 7 {
        (len - 6, 0, 260)
    } else if len < 8 {
        (len - 7, 0, 261)
    } else if len < 9 {
        (len - 8, 0, 262)
    } else if len < 10 {
        (len - 9, 0, 263)
    } else if len < 11 {
        (len - 10, 0, 264)
    } else if len < 13 {
        (len - 11, 1, 265)
    } else if len < 15 {
        (len - 13, 1, 266)
    } else if len < 17 {
        (len - 15, 1, 267)
    } else if len < 19 {
        (len - 17, 1, 268)
    } else if len < 23 {
        (len - 19, 2, 269)
    } else if len < 27 {
        (len - 23, 2, 270)
    } else if len < 31 {
        (len - 27, 2, 271)
    } else if len < 35 {
        (len - 31, 2, 272)
    } else if len < 43 {
        (len - 35, 3, 273)
    } else if len < 51 {
        (len - 43, 3, 274)
    } else if len < 59 {
        (len - 51, 3, 275)
    } else if len < 67 {
        (len - 59, 3, 276)
    } else if len < 83 {
        (len - 67, 4, 277)
    } else if len < 99 {
        (len - 83, 4, 278)
    } else if len < 115 {
        (len - 99, 4, 279)
    } else if len < 131 {
        (len - 115, 4, 280)
    } else if len < 163 {
        (len - 131, 5, 281)
    } else if len < 195 {
        (len - 163, 5, 282)
    } else if len < 227 {
        (len - 195, 5, 283)
    } else if len < 258 {
        (len - 227, 5, 284)
    } else {
        (0, 0, 285)
    };
    proof {
        lemma2_to64();
        assert((r.0 as nat) < pow2(r.1 as nat));
    }
    r
}

/// Looks up the RFC 1951 distance code of a repeat distance:
/// `(extra-bits value, extra-bit count, distance symbol)`.
pub fn deflate_code_of_dist(dist: u32) -> (r: (u32, u8, u32))
    requires
        1 <= dist <= 32768,
    ensures
        (r.0 as int, r.1 as int, r.2 as int) == dist_code_info(dist as int),
        r.1 <= 13,
        r.2 <= 29,
        (r.0 as nat) < pow2(r.1 as nat),
{
    let r: (u32, u8, u32) = if dist < 2 {
        (dist - 1, 0, 0)
    } else if dist < 3 {
        (dist - 2, 0, 1)
    } else if dist < 4 {
        (dist - 3, 0, 2)
    } else if dist < 5 {
        (dist - 4, 0, 3)
    } else if dist < 7 {
        (dist - 5, 1, 4)
    } else if dist < 9 {
        (dist - 7, 1, 5)
    } else if dist < 13 {
        (dist - 9, 2, 6)
    } else if dist < 17 {
        (dist - 13, 2, 7)
    } else if dist < 25 {
        (dist - 17, 3, 8)
    } else if dist < 33 {
        (dist - 25, 3, 9)
    } else if dist < 49 {
        (dist - 33, 4, 10)
    } else if dist < 65 {
        (dist - 49, 4, 11)
    } else if dist < 97 {
        (dist - 65, 5, 12)
    } else if dist < 129 {
        (dist - 97, 5, 13)
    } else if dist < 193 {
        (dist - 129, 6, 14)
    } else if dist < 257 {
        (dist - 193, 6, 15)
    } else if dist < 385 {
        (dist - 257, 7, 16)
    } else if dist < 513 {
        (dist - 385, 7, 17)
    } else if dist < 769 {
        (dist - 513, 8, 18)
    } else if dist < 1025 {
        (dist - 769, 8, 19)
    } else if dist < 1537 {
        (dist - 1025, 9, 20)
    } else if dist < 2049 {
        (dist - 1537, 9, 21)
    } else if dist < 3073 {
        (dist - 2049, 10, 22)
    } else if dist < 4097 {
        (dist - 3073, 10, 23)
    } else if dist < 6145 {
        (dist - 4097, 11, 24)
    } else if dist < 8193 {
        (dist - 6145, 11, 25)
    } else if dist < 12289 {
        (dist - 8193, 12, 26)
    } else if dist < 16385 {
        (dist - 12289, 12, 27)
    } else if dist < 24577 {
        (dist - 16385, 13, 28)
    } else {
        (dist - 24577, 13, 29)
    };
    proof {
        lemma2_to64();
        assert((r.0 as nat) < pow2(r.1 as nat));
    }
    r
}

/// `pow2` of a small exponent fits a `u32` shift; bridges `1u32 << e`.
proof fn lemma_pow2_le_shift(e: nat, b: nat)
    requires
        e <= b,
        b <= 31,
    ensures
        pow2(e) <= pow2(b),
        pow2(b) < 0x1_0000_0000,
        (1u32 << (e as u32)) == pow2(e),
{
    lemma2_to64();
    if e < b {
        lemma_pow2_strictly_increases(e, b);
    }
    if b < 31 {
        lemma_pow2_strictly_increases(b, 31);
    }
    lemma_u32_shl_is_mul(1u32, e as u32);
}

/// The bits of one Huffman code as transmitted (the stored code is
/// already bit-reversed, so its low bits go out in order).
pub open spec fn code_bits(hc: HuffmanCode) -> Seq<bool> {
    val_bits(hc.code as nat, hc.length as nat)
}

/// The exact bits one token contributes to a block body, under the
/// installed literal/length and distance trees.
pub open spec fn token_bits(lit: Seq<HuffmanCode>, dist: Seq<HuffmanCode>, t: Token) -> Seq<
    bool,
> {
    match t {
        Token::Literal(b) => code_bits(lit[b as int]),
        Token::Repeat(l, d) => {
            let lc = len_code_info(l as int);
            let dc = dist_code_info(d as int);
            code_bits(lit[lc.2]) + val_bits(lc.0 as nat, lc.1 as nat) + code_bits(dist[dc.2])
                + val_bits(dc.0 as nat, dc.1 as nat)
        },
    }
}

/// The end-of-block bits a writer owes before leaving its current
/// block: the code of symbol 256, or nothing outside any block.
pub open spec fn eob_bits(lit: Seq<HuffmanCode>, in_block: bool) -> Seq<bool> {
    if in_block {
        code_bits(lit[256])
    } else {
        Seq::<bool>::empty()
    }
}

/// Run-length coding of a run of zero lengths, RFC 1951 code-length
/// alphabet: symbol 18 absorbs 11..138 zeros, 17 absorbs 3..10, and
/// shorter runs are emitted literally.  Each triple is
/// `(symbol, extra-bit count, extra-bits value)`.
pub open spec fn encode_zero_run(len: nat) -> Seq<(u8, u8, u8)>
    decreases len,
{
    if len == 0 {
        Seq::<(u8, u8, u8)>::empty()
    } else if len >= 11 {
        let m: nat = if len <= 138 {
            len
        } else {
            138
        };
        seq![(18u8, 7u8, (m - 11) as u8)] + encode_zero_run((len - m) as nat)
    } else if len >= 3 {
        seq![(17u8, 3u8, (len - 3) as u8)]
    } else {
        seq![(0u8, 0u8, 0u8)] + encode_zero_run((len - 1) as nat)
    }
}

/// Run-length coding of the repeats of a nonzero length after its
/// first literal emission: symbol 16 absorbs 3..6 repeats.
pub open spec fn encode_nonzero_rest(val: u8, len: nat) -> Seq<(u8, u8, u8)>
    decreases len,
{
    if len == 0 {
        Seq::<(u8, u8, u8)>::empty()
    } else if len >= 3 {
        let m: nat = if len <= 6 {
            len
        } else {
            6
        };
        seq![(16u8, 2u8, (m - 3) as u8)] + encode_nonzero_rest(val, (len - m) as nat)
    } else {
        seq![(val, 0u8, 0u8)] + encode_nonzero_rest(val, (len - 1) as nat)
    }
}

/// Run-length coding of one maximal run of equal code lengths.
pub open spec fn encode_run(val: u8, len: nat) -> Seq<(u8, u8, u8)> {
    if val == 0 {
        encode_zero_run(len)
    } else if len == 0 {
        Seq::<(u8, u8, u8)>::empty()
    } else {
        seq![(val, 0u8, 0u8)] + encode_nonzero_rest(val, (len - 1) as nat)
    }
}

/// Length of the maximal run of equal values starting at `i`.
pub open spec fn run_len_at(lens: Seq<u8>, i: int) -> nat
    decreases lens.len() - i,
{
    if 0 <= i && i + 1 < lens.len() && lens[i + 1] == lens[i] {
        (1 + run_len_at(lens, i + 1)) as nat
    } else {
        1
    }
}

pub proof fn lemma_run_len_at_bound(lens: Seq<u8>, i: int)
    requires
        0 <= i < lens.len(),
    ensures
        1 <= run_len_at(lens, i) <= lens.len() - i,
    decreases lens.len() - i,
{
    if i + 1 < lens.len() && lens[i + 1] == lens[i] {
        lemma_run_len_at_bound(lens, i + 1);
    }
}

/// A maximal run is characterized by elementwise equality up to its
/// length and a boundary (end or differing value) right after.
pub proof fn lemma_run_len_at_eq(lens: Seq<u8>, i: int, r: int)
    requires
        0 <= i < lens.len(),
        1 <= r,
        i + r <= lens.len(),
        forall|k: int| 1 <= k < r ==> (#[trigger] lens[i + k]) == lens[i],
        i + r == lens.len() || lens[i + r] != lens[i],
    ensures
        run_len_at(lens, i) == r,
    decreases r,
{
    if r == 1 {
    } else {
        assert(lens[i + 1] == lens[i]);
        assert forall|k: int| 1 <= k < r - 1 implies (#[trigger] lens[(i + 1) + k]) == lens[i
            + 1] by {
            assert(lens[i + (k + 1)] == lens[i]);
        }
        if (i + 1) + (r - 1) < lens.len() {
            assert(lens[(i + 1) + (r - 1)] != lens[i + 1]);
        }
        lemma_run_len_at_eq(lens, i + 1, r - 1);
    }
}

/// Run-length coding of the whole tail of a length vector from `i`.
pub open spec fn rle_encode_from(lens: Seq<u8>, i: int) -> Seq<(u8, u8, u8)>
    decreases lens.len() - i,
    via rle_encode_from_decreases
{
    if 0 <= i < lens.len() {
        encode_run(lens[i], run_len_at(lens, i)) + rle_encode_from(lens, i + run_len_at(lens, i))
    } else {
        Seq::<(u8, u8, u8)>::empty()
    }
}

#[via_fn]
proof fn rle_encode_from_decreases(lens: Seq<u8>, i: int) {
    if 0 <= i < lens.len() {
        lemma_run_len_at_bound(lens, i);
    }
}

/// Run-length coding of a whole length vector into code-length-alphabet
/// symbols with their extra bits.
pub open spec fn rle_encode(lens: Seq<u8>) -> Seq<(u8, u8, u8)> {
    rle_encode_from(lens, 0)
}

/// The RFC 1951 transmission order of the code-length-alphabet lengths.
pub open spec fn clen_order(i: int) -> int {
    if i == 0 {
        16
    } else if i == 1 {
        17
    } else if i == 2 {
        18
    } else if i == 3 {
        0
    } else if i == 4 {
        8
    } else if i == 5 {
        7
    } else if i == 6 {
        9
    } else if i == 7 {
        6
    } else if i == 8 {
        10
    } else if i == 9 {
        5
    } else if i == 10 {
        11
    } else if i == 11 {
        4
    } else if i == 12 {
        12
    } else if i == 13 {
        3
    } else if i == 14 {
        13
    } else if i == 15 {
        2
    } else if i == 16 {
        14
    } else if i == 17 {
        1
    } else {
        15
    }
}

fn clen_order_at(i: usize) -> (r: usize)
    requires
        i < 19,
    ensures
        r == clen_order(i as int),
        r < 19,
{
    if i == 0 {
        16
    } else if i == 1 {
        17
    } else if i == 2 {
        18
    } else if i == 3 {
        0
    } else if i == 4 {
        8
    } else if i == 5 {
        7
    } else if i == 6 {
        9
    } else if i == 7 {
        6
    } else if i == 8 {
        10
    } else if i == 9 {
        5
    } else if i == 10 {
        11
    } else if i == 11 {
        4
    } else if i == 12 {
        12
    } else if i == 13 {
        3
    } else if i == 14 {
        13
    } else if i == 15 {
        2
    } else if i == 16 {
        14
    } else if i == 17 {
        1
    } else {
        15
    }
}

/// The `(bits, bit count)` pairs a run-length-coded symbol list turns
/// into: each symbol's Huffman code followed by its extra bits.
pub open spec fn header_code_items(syms: Seq<(u8, u8, u8)>, tree: Seq<HuffmanCode>) -> Seq<
    (u32, u8),
>
    decreases syms.len(),
{
    if syms.len() == 0 {
        Seq::<(u32, u8)>::empty()
    } else {
        seq![
            (tree[syms[0].0 as int].code, tree[syms[0].0 as int].length),
            (syms[0].2 as u32, syms[0].1),
        ] + header_code_items(syms.subrange(1, syms.len() as int), tree)
    }
}

proof fn lemma_header_code_items_concat(s1: Seq<(u8, u8, u8)>, s2: Seq<(u8, u8, u8)>, tree: Seq<
    HuffmanCode,
>)
    ensures
        header_code_items(s1 + s2, tree) == header_code_items(s1, tree) + header_code_items(
            s2,
            tree,
        ),
    decreases s1.len(),
{
    if s1.len() == 0 {
        assert(s1 + s2 =~= s2);
        assert(header_code_items(s1, tree) + header_code_items(s2, tree) =~= header_code_items(
            s2,
            tree,
        ));
    } else {
        let rest = s1.subrange(1, s1.len() as int);
        lemma_header_code_items_concat(rest, s2, tree);
        assert((s1 + s2).subrange(1, (s1 + s2).len() as int) =~= rest + s2);
        assert((s1 + s2)[0] == s1[0]);
        assert(header_code_items(s1 + s2, tree) =~= header_code_items(s1, tree)
            + header_code_items(s2, tree));
    }
}

/// Every `(bits, bit count)` pair of a dynamic block header, in
/// emission order: the `HLIT`, `HDIST` and `HCLEN` fields, the 19
/// code-length-code lengths in transmission order, and the
/// run-length-coded symbols of the 316 concatenated code lengths.
pub open spec fn spec_header_items(ll: Seq<u8>, dl: Seq<u8>, cl: Seq<u8>) -> Seq<(u32, u8)> {
    seq![(29u32, 5u8), (29u32, 5u8), (15u32, 4u8)] + Seq::new(
        19,
        |i: int| ((cl[clen_order(i)] as u32, 3u8)),
    ) + header_code_items(rle_encode(ll + dl), tree_of(cl))
}

/// The exact bits a list of `(bits, bit count)` pairs stands for.
pub open spec fn items_bits(items: Seq<(u32, u8)>) -> Seq<bool>
    decreases items.len(),
{
    if items.len() == 0 {
        Seq::<bool>::empty()
    } else {
        val_bits(items[0].0 as nat, items[0].1 as nat) + items_bits(
            items.subrange(1, items.len() as int),
        )
    }
}

pub proof fn lemma_items_bits_concat(s1: Seq<(u32, u8)>, s2: Seq<(u32, u8)>)
    ensures
        items_bits(s1 + s2) == items_bits(s1) + items_bits(s2),
    decreases s1.len(),
{
    if s1.len() == 0 {
        assert(s1 + s2 =~= s2);
        assert(items_bits(s1) + items_bits(s2) =~= items_bits(s2));
    } else {
        let rest = s1.subrange(1, s1.len() as int);
        lemma_items_bits_concat(rest, s2);
        assert((s1 + s2).subrange(1, (s1 + s2).len() as int) =~= rest + s2);
        assert((s1 + s2)[0] == s1[0]);
        assert(items_bits(s1 + s2) =~= items_bits(s1) + items_bits(s2));
    }
}

/// Every item carries at most 16 bits, with no bit above its count.
pub open spec fn items_wf(items: Seq<(u32, u8)>) -> bool {
    forall|i: int|
        0 <= i < items.len() ==> ((#[trigger] items[i]).1 <= 16 && (items[i].0 as nat) < pow2(
            items[i].1 as nat,
        ))
}

/// Appends one run-length-coded symbol to an item list: its Huffman
/// code under `tree`, then its extra bits.
fn push_header_sym(items: &mut Vec<(u32, u8)>, tree: &Vec<HuffmanCode>, sym: u8, xbits: u8, xval: u8)
    requires
        tree_codes_wf(tree@),
        (sym as int) < tree@.len(),
        xbits <= 7,
        (xval as nat) < pow2(xbits as nat),
        items_wf(old(items)@),
    ensures
        final(items)@ == old(items)@ + header_code_items(seq![(sym, xbits, xval)], tree@),
        items_wf(final(items)@),
        final(items)@.len() == old(items)@.len() + 2,
{
    let hc = tree[sym as usize];
    let ghost before = items@;
    items.push((hc.code, hc.length));
    items.push((xval as u32, xbits));
    proof {
        let single = seq![(sym, xbits, xval)];
        assert(single[0] == (sym, xbits, xval));
        assert(single.subrange(1, 1) =~= Seq::<(u8, u8, u8)>::empty());
        assert(header_code_items(Seq::<(u8, u8, u8)>::empty(), tree@) =~= Seq::<(u32, u8)>::empty());
        assert(header_code_items(single, tree@) == seq![
            (tree@[sym as int].code, tree@[sym as int].length),
            (xval as u32, xbits),
        ] + header_code_items(single.subrange(1, 1), tree@));
        assert(header_code_items(single, tree@) =~= seq![
            (hc.code, hc.length),
            (xval as u32, xbits),
        ]);
        assert(items@ =~= before + header_code_items(single, tree@));
        assert forall|i: int|
            0 <= i < items@.len() implies ((#[trigger] items@[i]).1 <= 16 && (items@[i].0 as nat)
            < pow2(items@[i].1 as nat)) by {
            if i < before.len() {
                assert(items@[i] == before[i]);
            }
        }
    }
}

/// Run-length codes the 316 concatenated literal/length and distance
/// code lengths into code-length-alphabet symbols with their extra
/// bits, exactly as `rle_encode` describes.
pub fn rle_symbols(literal_code_lens: &Vec<u8>, distance_code_lens: &Vec<u8>) -> (syms: Vec<
    (u8, u8, u8),
>)
    requires
        literal_code_lens@.len() == 286,
        distance_code_lens@.len() == 30,
        forall|i: int| 0 <= i < 286 ==> literal_code_lens@[i] <= 15,
        forall|i: int| 0 <= i < 30 ==> distance_code_lens@[i] <= 15,
    ensures
        syms@ == rle_encode(literal_code_lens@ + distance_code_lens@),
        forall|i: int|
            0 <= i < syms@.len() ==> ((#[trigger] syms@[i]).0 <= 18 && syms@[i].1 <= 7 && (
            syms@[i].2 as nat) < pow2(syms@[i].1 as nat)),
        syms@.len() <= 316,
{
    let ghost ll = literal_code_lens@;
    let ghost dl = distance_code_lens@;

    // The 316 concatenated code lengths.
    let mut total: Vec<u8> = Vec::new();
    let mut i: usize = 0;
    while i < 286
        invariant
            ll == literal_code_lens@,
            ll.len() == 286,
            i <= 286,
            total@ == ll.subrange(0, i as int),
        decreases 286 - i,
    {
        total.push(literal_code_lens[i]);
        proof {
            assert(total@ =~= ll.subrange(0, i + 1));
        }
        i += 1;
    }
    let mut j: usize = 0;
    while j < 30
        invariant
            ll == literal_code_lens@,
            dl == distance_code_lens@,
            ll.len() == 286,
            dl.len() == 30,
            j <= 30,
            total@ == ll + dl.subrange(0, j as int),
        decreases 30 - j,
    {
        proof {
            assert(ll.subrange(0, 286) =~= ll);
        }
        total.push(distance_code_lens[j]);
        proof {
            assert(total@ =~= ll + dl.subrange(0, j + 1));
        }
        j += 1;
    }
    proof {
        assert(total@ =~= ll + dl);
        assert forall|k: int| 0 <= k < total@.len() implies #[trigger] total@[k] <= 15 by {
            if k < 286 {
                assert(total@[k] == ll[k]);
            } else {
                assert(total@[k] == dl[k - 286]);
            }
        }
    }

    let mut syms: Vec<(u8, u8, u8)> = Vec::new();
    let n = total.len();
    let mut p: usize = 0;
    while p < n
        invariant
            n == total@.len(),
            n == 316,
            forall|t: int| 0 <= t < n ==> total@[t] <= 15,
            p <= n,
            syms@ + rle_encode_from(total@, p as int) == rle_encode(total@),
            forall|t: int|
                0 <= t < syms@.len() ==> ((#[trigger] syms@[t]).0 <= 18 && syms@[t].1 <= 7 && (
                syms@[t].2 as nat) < pow2(syms@[t].1 as nat)),
            syms@.len() <= p,
        decreases n - p,
    {
        let v = total[p];
        let mut r: usize = 1;
        while p + r < n && total[p + r] == v
            invariant
                n == total@.len(),
                p < n,
                v == total@[p as int],
                1 <= r,
                p + r <= n,
                forall|t: int| 1 <= t < r ==> (#[trigger] total@[p + t]) == v,
            decreases n - (p + r),
        {
            r += 1;
        }
        proof {
            lemma_run_len_at_eq(total@, p as int, r as int);
            assert(rle_encode_from(total@, p as int) == encode_run(v, r as nat) + rle_encode_from(
                total@,
                p as int + r as int,
            ));
            lemma2_to64();
        }
        let ghost syms_before = syms@;
        if v == 0 {
            let mut rem: usize = r;
            while rem > 0
                invariant
                    rem <= r,
                    syms@ + encode_zero_run(rem as nat) == syms_before + encode_zero_run(r as nat),
                    forall|t: int|
                        0 <= t < syms@.len() ==> ((#[trigger] syms@[t]).0 <= 18 && syms@[t].1 <= 7
                            && (syms@[t].2 as nat) < pow2(syms@[t].1 as nat)),
                    syms@.len() <= syms_before.len() + (r - rem),
                decreases rem,
            {
                let ghost rem0 = rem as nat;
                let ghost before = syms@;
                if rem >= 11 {
                    let m: usize = if rem <= 138 {
                        rem
                    } else {
                        138
                    };
                    syms.push((18, 7, (m - 11) as u8));
                    proof {
                        lemma2_to64();
                        assert(encode_zero_run(rem0) == seq![(18u8, 7u8, (m - 11) as u8)]
                            + encode_zero_run((rem0 - m) as nat));
                        assert(syms@ + encode_zero_run((rem0 - m) as nat) =~= before
                            + encode_zero_run(rem0));
                    }
                    rem -= m;
                } else if rem >= 3 {
                    syms.push((17, 3, (rem - 3) as u8));
                    proof {
                        lemma2_to64();
                        assert(encode_zero_run(rem0) == seq![(17u8, 3u8, (rem0 - 3) as u8)]);
                        assert(encode_zero_run(0nat) =~= Seq::<(u8, u8, u8)>::empty());
                        assert(syms@ + encode_zero_run(0nat) =~= before + encode_zero_run(rem0));
                    }
                    rem = 0;
                } else {
                    syms.push((0, 0, 0));
                    proof {
                        lemma2_to64();
                        assert(encode_zero_run(rem0) == seq![(0u8, 0u8, 0u8)] + encode_zero_run(
                            (rem0 - 1) as nat,
                        ));
                        assert(syms@ + encode_zero_run((rem0 - 1) as nat) =~= before
                            + encode_zero_run(rem0));
                    }
                    rem -= 1;
                }
            }
            proof {
                assert(encode_zero_run(0nat) =~= Seq::<(u8, u8, u8)>::empty());
                assert(syms@ =~= syms_before + encode_run(v, r as nat));
            }
        } else {
            syms.push((v, 0, 0));
            proof {
                lemma2_to64();
                assert(encode_run(v, r as nat) == seq![(v, 0u8, 0u8)] + encode_nonzero_rest(
                    v,
                    (r - 1) as nat,
                ));
                assert(syms@ + encode_nonzero_rest(v, (r - 1) as nat) =~= syms_before + encode_run(
                    v,
                    r as nat,
                ));
            }
            let mut rem: usize = r - 1;
            while rem > 0
                invariant
                    v <= 15,
                    v != 0,
                    r >= 1,
                    rem <= r - 1,
                    syms@ + encode_nonzero_rest(v, rem as nat) == syms_before + encode_run(
                        v,
                        r as nat,
                    ),
                    forall|t: int|
                        0 <= t < syms@.len() ==> ((#[trigger] syms@[t]).0 <= 18 && syms@[t].1 <= 7
                            && (syms@[t].2 as nat) < pow2(syms@[t].1 as nat)),
                    syms@.len() <= syms_before.len() + 1 + (r - 1 - rem),
                decreases rem,
            {
                let ghost rem0 = rem as nat;
                let ghost before = syms@;
                if rem >= 3 {
                    let m: usize = if rem <= 6 {
                        rem
                    } else {
                        6
                    };
                    syms.push((16, 2, (m - 3) as u8));
                    proof {
                        lemma2_to64();
                        assert(encode_nonzero_rest(v, rem0) == seq![(16u8, 2u8, (m - 3) as u8)]
                            + encode_nonzero_rest(v, (rem0 - m) as nat));
                        assert(syms@ + encode_nonzero_rest(v, (rem0 - m) as nat) =~= before
                            + encode_nonzero_rest(v, rem0));
                    }
                    rem -= m;
                } else {
                    syms.push((v, 0, 0));
                    proof {
                        lemma2_to64();
                        assert(encode_nonzero_rest(v, rem0) == seq![(v, 0u8, 0u8)]
                            + encode_nonzero_rest(v, (rem0 - 1) as nat));
                        assert(syms@ + encode_nonzero_rest(v, (rem0 - 1) as nat) =~= before
                            + encode_nonzero_rest(v, rem0));
                    }
                    rem -= 1;
                }
            }
            proof {
                assert(encode_nonzero_rest(v, 0nat) =~= Seq::<(u8, u8, u8)>::empty());
                assert(syms@ =~= syms_before + encode_run(v, r as nat));
            }
        }
        p += r;
        proof {
            assert(syms@ + rle_encode_from(total@, p as int) =~= rle_encode(total@));
        }
    }
    proof {
        assert(rle_encode_from(total@, n as int) =~= Seq::<(u8, u8, u8)>::empty());
        assert(syms@ =~= rle_encode(total@));
        assert(syms@ =~= rle_encode(ll + dl));
    }
    syms
}

/// Assembles the `(bits, bit count)` items of a dynamic block header:
/// `HLIT`, `HDIST`, `HCLEN`, the 19 code-length-code lengths in the
/// RFC permutation, and the run-length-coded 316 code lengths.  The
/// writer emits exactly this list and the splitter sums exactly its
/// bit counts, so the recorded header cost of a dynamic block equals
/// the bits that go on the wire.
pub fn create_dynamic_block_header(
    literal_code_lens: &Vec<u8>,
    distance_code_lens: &Vec<u8>,
    clen_lens: &Vec<u8>,
) -> (items: Vec<(u32, u8)>)
    requires
        literal_code_lens@.len() == 286,
        distance_code_lens@.len() == 30,
        clen_lens@.len() == 19,
        forall|i: int| 0 <= i < 286 ==> literal_code_lens@[i] <= 15,
        forall|i: int| 0 <= i < 30 ==> distance_code_lens@[i] <= 15,
        forall|i: int| 0 <= i < 19 ==> clen_lens@[i] <= 7,
    ensures
        items@ == spec_header_items(literal_code_lens@, distance_code_lens@, clen_lens@),
        items_wf(items@),
        items@.len() <= 700,
{
    let ghost ll = literal_code_lens@;
    let ghost dl = distance_code_lens@;
    let ghost cl = clen_lens@;

    let clen_tree = calc_codes(clen_lens.as_slice());
    proof {
        lemma_tree_of_wf(cl);
        lemma2_to64();
    }

    // Fixed header fields, then the permuted code-length-code lengths.
    let mut items: Vec<(u32, u8)> = Vec::new();
    items.push((29, 5));
    items.push((29, 5));
    items.push((15, 4));
    let mut k: usize = 0;
    while k < 19
        invariant
            cl == clen_lens@,
            cl.len() == 19,
            forall|t: int| 0 <= t < 19 ==> cl[t] <= 7,
            k <= 19,
            items@.len() == 3 + k,
            items@[0] == (29u32, 5u8),
            items@[1] == (29u32, 5u8),
            items@[2] == (15u32, 4u8),
            forall|t: int| 0 <= t < k ==> items@[3 + t] == ((cl[clen_order(t)] as u32, 3u8)),
        decreases 19 - k,
    {
        let o = clen_order_at(k);
        items.push((clen_lens[o] as u32, 3));
        k += 1;
    }
    proof {
        lemma2_to64();
        assert(items@ =~= seq![(29u32, 5u8), (29u32, 5u8), (15u32, 4u8)] + Seq::new(
            19,
            |t: int| ((cl[clen_order(t)] as u32, 3u8)),
        ));
        assert forall|t: int|
            0 <= t < items@.len() implies ((#[trigger] items@[t]).1 <= 16 && (items@[t].0 as nat)
            < pow2(items@[t].1 as nat)) by {
            if t >= 3 {
                assert(items@[t] == ((cl[clen_order(t - 3)] as u32, 3u8)));
                assert(cl[clen_order(t - 3)] <= 7);
            }
        }
    }
    let ghost pre = items@;
    let ghost tree = clen_tree@;

    // The run-length-coded lengths, each as its code plus extra bits.
    let syms = rle_symbols(literal_code_lens, distance_code_lens);
    let m = syms.len();
    let mut k2: usize = 0;
    proof {
        assert(syms@.subrange(0, 0) =~= Seq::<(u8, u8, u8)>::empty());
        assert(header_code_items(Seq::<(u8, u8, u8)>::empty(), tree) =~= Seq::<(u32, u8)>::empty());
        assert(items@ =~= pre + header_code_items(syms@.subrange(0, 0), tree));
    }
    while k2 < m
        invariant
            m == syms@.len(),
            m <= 316,
            k2 <= m,
            tree == clen_tree@,
            tree_codes_wf(tree),
            tree.len() == 19,
            forall|t: int|
                0 <= t < syms@.len() ==> ((#[trigger] syms@[t]).0 <= 18 && syms@[t].1 <= 7 && (
                syms@[t].2 as nat) < pow2(syms@[t].1 as nat)),
            items@ == pre + header_code_items(syms@.subrange(0, k2 as int), tree),
            items_wf(items@),
            items@.len() == 22 + 2 * k2,
        decreases m - k2,
    {
        let s = syms[k2];
        push_header_sym(&mut items, &clen_tree, s.0, s.1, s.2);
        proof {
            let prefix = syms@.subrange(0, k2 as int);
            let single = seq![syms@[k2 as int]];
            lemma_header_code_items_concat(prefix, single, tree);
            assert(syms@.subrange(0, k2 + 1) =~= prefix + single);
            assert(single =~= seq![(s.0, s.1, s.2)]);
            assert(items@ =~= pre + header_code_items(syms@.subrange(0, k2 + 1), tree));
        }
        k2 += 1;
    }
    proof {
        assert(syms@.subrange(0, m as int) =~= syms@);
        assert(items@ =~= spec_header_items(ll, dl, cl));
    }
    items
}

/// LSB-first bit packer over a growing byte vector, carrying the
/// Huffman trees of the block being written.  Its whole behaviour is
/// captured by `stream()`: the exact sequence of bits emitted so far.
struct DeflateWriter {
    out: Vec<u8>,
    curr_bytes: u32,
    curr_full_bits: u8,
    literal_tree: Vec<HuffmanCode>,
    distance_tree: Vec<HuffmanCode>,
    in_block: bool,
}

impl DeflateWriter {
    /// Fewer than 8 bits pending, and none above the fill mark.
    spec fn bits_wf(self) -> bool {
        &&& self.curr_full_bits < 8
        &&& (self.curr_bytes as nat) < pow2(self.curr_full_bits as nat)
    }

    /// Every bit handed to the writer so far, in transmission order.
    spec fn stream(self) -> Seq<bool> {
        bytes_bits(self.out@) + val_bits(self.curr_bytes as nat, self.curr_full_bits as nat)
    }

    /// The installed trees cover both alphabets with in-range codes.
    spec fn trees_wf(self) -> bool {
        &&& tree_codes_wf(self.literal_tree@)
        &&& tree_codes_wf(self.distance_tree@)
        &&& self.literal_tree@.len() >= 286
        &&& self.distance_tree@.len() >= 30
    }

    fn new() -> (w: Self)
        ensures
            w.bits_wf(),
            w.stream() == Seq::<bool>::empty(),
            !w.in_block,
    {
        let w = DeflateWriter {
            out: Vec::new(),
            curr_bytes: 0,
            curr_full_bits: 0,
            literal_tree: Vec::new(),
            distance_tree: Vec::new(),
            in_block: false,
        };
        proof {
            lemma_pow2_pos(0);
            assert(w.stream() =~= Seq::<bool>::empty());
        }
        w
    }

    /// Packs the low `len` bits of `bits` onto the stream, LSB first,
    /// flushing whole bytes as they complete.
    fn write_bits(&mut self, bits: u32, len: u8)
        requires
            old(self).bits_wf(),
            len <= 16,
            (bits as nat) < pow2(len as nat),
        ensures
            final(self).bits_wf(),
            final(self).stream() == old(self).stream() + val_bits(bits as nat, len as nat),
            final(self).literal_tree@ == old(self).literal_tree@,
            final(self).distance_tree@ == old(self).distance_tree@,
            final(self).in_block == old(self).in_block,
    {
        let f: u8 = self.curr_full_bits;
        let c: u32 = self.curr_bytes;
        proof {
            lemma2_to64();
            lemma_pow2_le_shift(f as nat, 7);
            lemma_pow2_le_shift(len as nat, 16);
            lemma_mul_upper_bound(bits as int, 65535, pow2(f as nat) as int, 128);
            lemma_u32_shl_is_mul(bits, f as u32);
        }
        let shifted: u32 = bits << (f as u32);
        let merged: u32 = c | shifted;
        proof {
            let fv: u32 = f as u32;
            assert(merged == c + (bits << fv)) by (bit_vector)
                requires
                    merged == c | (bits << fv),
                    fv < 8,
                    c < (1u32 << fv),
            ;
        }
        let ghost target = old(self).stream() + val_bits(bits as nat, len as nat);
        self.curr_bytes = merged;
        self.curr_full_bits = f + len;
        proof {
            lemma_val_bits_combine(c as nat, bits as nat, f as nat, len as nat);
            lemma_pow2_adds(f as nat, len as nat);
            assert((c as nat) + (bits as nat) * pow2(f as nat) < pow2(f as nat) * pow2(len as nat))
                by (nonlinear_arith)
                requires
                    (c as nat) < pow2(f as nat),
                    (bits as nat) < pow2(len as nat),
                    pow2(f as nat) >= 1,
                    pow2(len as nat) >= 1,
            ;
            assert(self.stream() =~= target);
        }
        let ghost lt = self.literal_tree@;
        let ghost dt = self.distance_tree@;
        let ghost ib = self.in_block;
        while self.curr_full_bits >= 8
            invariant
                self.curr_full_bits <= 23,
                (self.curr_bytes as nat) < pow2(self.curr_full_bits as nat),
                self.stream() == target,
                self.literal_tree@ == lt,
                self.distance_tree@ == dt,
                self.in_block == ib,
            decreases self.curr_full_bits,
        {
            let cb: u32 = self.curr_bytes;
            let fb: u8 = self.curr_full_bits;
            let low: u32 = cb & 0xFF;
            proof {
                assert(low == cb % 256 && low < 256) by (bit_vector)
                    requires
                        low == cb & 0xFF,
                ;
            }
            let byte: u8 = low as u8;
            let ghost old_out = self.out@;
            self.out.push(byte);
            proof {
                lemma_bytes_bits_push(old_out, byte);
                lemma_split_low_byte(cb as nat, fb as nat);
                lemma2_to64();
                lemma_u32_shr_is_div(cb, 8);
                lemma_pow2_adds((fb - 8) as nat, 8);
                assert((cb as nat) / 256 < pow2((fb - 8) as nat)) by (nonlinear_arith)
                    requires
                        (cb as nat) < pow2((fb - 8) as nat) * 256,
                ;
            }
            self.curr_bytes = cb >> 8u32;
            self.curr_full_bits = fb - 8;
            proof {
                assert(self.stream() =~= target);
            }
        }
    }

    /// Emits one token's codes and extra bits under the current trees.
    fn write(&mut self, token: &Token)
        requires
            old(self).bits_wf(),
            old(self).trees_wf(),
            token_wf(*token),
        ensures
            final(self).bits_wf(),
            final(self).trees_wf(),
            final(self).stream() == old(self).stream() + token_bits(
                old(self).literal_tree@,
                old(self).distance_tree@,
                *token,
            ),
            final(self).literal_tree@ == old(self).literal_tree@,
            final(self).distance_tree@ == old(self).distance_tree@,
            final(self).in_block == old(self).in_block,
    {
        let ghost s0 = old(self).stream();
        match token {
            Token::Literal(value) => {
                let hc = self.literal_tree[*value as usize];
                proof {
                    lemma_pow2_le_shift(hc.length as nat, 16);
                }
                self.write_bits(hc.code, hc.length);
            },
            Token::Repeat(len, dist) => {
                let lc = deflate_code_of_len(*len);
                let hc = self.literal_tree[lc.2 as usize];
                proof {
                    lemma_pow2_le_shift(hc.length as nat, 16);
                }
                self.write_bits(hc.code, hc.length);
                proof {
                    lemma_pow2_le_shift(lc.1 as nat, 16);
                }
                self.write_bits(lc.0, lc.1);

                let dc = deflate_code_of_dist(*dist);
                let hd = self.distance_tree[dc.2 as usize];
                proof {
                    lemma_pow2_le_shift(hd.length as nat, 16);
                }
                self.write_bits(hd.code, hd.length);
                proof {
                    lemma_pow2_le_shift(dc.1 as nat, 16);
                }
                self.write_bits(dc.0, dc.1);
                proof {
                    assert(self.stream() =~= s0 + token_bits(
                        old(self).literal_tree@,
                        old(self).distance_tree@,
                        *token,
                    ));
                }
            },
        }
    }

    /// Closes any open block with its end-of-block code, then starts a
    /// block with the RFC fixed trees: three header bits and no tree
    /// description.
    fn new_fixed_codes_block(&mut self, is_final: bool)
        requires
            old(self).bits_wf(),
            old(self).in_block ==> old(self).trees_wf(),
        ensures
            final(self).bits_wf(),
            final(self).trees_wf(),
            final(self).in_block,
            final(self).literal_tree@ == tree_of(fixed_literal_lengths()),
            final(self).distance_tree@ == tree_of(fixed_distance_lengths()),
            final(self).stream() == old(self).stream() + eob_bits(
                old(self).literal_tree@,
                old(self).in_block,
            ) + seq![is_final, true, false],
    {
        let ghost s0 = old(self).stream();
        if self.in_block {
            let hc = self.literal_tree[256];
            proof {
                lemma_pow2_le_shift(hc.length as nat, 16);
            }
            self.write_bits(hc.code, hc.length);
        }
        self.in_block = true;
        let ghost s1 = self.stream();
        proof {
            assert(s1 =~= s0 + eob_bits(old(self).literal_tree@, old(self).in_block));
            lemma2_to64();
        }
        self.write_bits(if is_final { 1 } else { 0 }, 1);
        self.write_bits(1, 1);
        self.write_bits(0, 1);
        proof {
            assert(val_bits(1, 1) =~= seq![true]);
            assert(val_bits(0, 1) =~= seq![false]);
            if is_final {
                assert(val_bits(1, 1) =~= seq![is_final]);
            } else {
                assert(val_bits(0, 1) =~= seq![is_final]);
            }
            assert(self.stream() =~= s1 + seq![is_final, true, false]);
        }
        let ll = literal_fixed_codes();
        let dl = distance_fixed_codes();
        proof {
            assert(forall|i: int|
                0 <= i < ll@.len() ==> #[trigger] ll@[i] <= 15) by {
                assert(forall|i: int| 0 <= i < ll@.len() ==> ll@[i] == fixed_literal_lengths()[i]);
            }
            lemma_tree_of_wf(fixed_literal_lengths());
            lemma_tree_of_wf(fixed_distance_lengths());
        }
        self.literal_tree = calc_codes(ll.as_slice());
        self.distance_tree = calc_codes(dl.as_slice());
    }

    /// Closes any open block with its end-of-block code, then starts a
    /// dynamic block: three header bits, the full tree description, and
    /// the trees derived from the given code lengths.
    fn new_dynamic_codes_block(
        &mut self,
        is_final: bool,
        literal_code_lens: &Vec<u8>,
        distance_code_lens: &Vec<u8>,
        clen_lens: &Vec<u8>,
    )
        requires
            old(self).bits_wf(),
            old(self).in_block ==> old(self).trees_wf(),
            literal_code_lens@.len() == 286,
            distance_code_lens@.len() == 30,
            clen_lens@.len() == 19,
            forall|i: int| 0 <= i < 286 ==> literal_code_lens@[i] <= 15,
            forall|i: int| 0 <= i < 30 ==> distance_code_lens@[i] <= 15,
            forall|i: int| 0 <= i < 19 ==> clen_lens@[i] <= 7,
        ensures
            final(self).bits_wf(),
            final(self).trees_wf(),
            final(self).in_block,
            final(self).literal_tree@ == tree_of(literal_code_lens@),
            final(self).distance_tree@ == tree_of(distance_code_lens@),
            final(self).stream() == old(self).stream() + eob_bits(
                old(self).literal_tree@,
                old(self).in_block,
            ) + seq![is_final, false, true] + items_bits(
                spec_header_items(literal_code_lens@, distance_code_lens@, clen_lens@),
            ),
    {
        let ghost s0 = old(self).stream();
        if self.in_block {
            let hc = self.literal_tree[256];
            self.write_bits(hc.code, hc.length);
        }
        self.in_block = true;
        let ghost s1 = self.stream();
        proof {
            assert(s1 =~= s0 + eob_bits(old(self).literal_tree@, old(self).in_block));
            lemma2_to64();
        }
        self.write_bits(if is_final { 1 } else { 0 }, 1);
        self.write_bits(0, 1);
        self.write_bits(1, 1);
        let ghost s2 = self.stream();
        proof {
            assert(val_bits(1, 1) =~= seq![true]);
            assert(val_bits(0, 1) =~= seq![false]);
            if is_final {
                assert(val_bits(1, 1) =~= seq![is_final]);
            } else {
                assert(val_bits(0, 1) =~= seq![is_final]);
            }
            assert(s2 =~= s1 + seq![is_final, false, true]);
        }

        let items = create_dynamic_block_header(
            literal_code_lens,
            distance_code_lens,
            clen_lens,
        );
        let m = items.len();
        let mut k: usize = 0;
        proof {
            assert(items@.subrange(0, 0) =~= Seq::<(u32, u8)>::empty());
        }
        while k < m
            invariant
                m == items@.len(),
                k <= m,
                items_wf(items@),
                self.bits_wf(),
                self.in_block,
                self.stream() == s2 + items_bits(items@.subrange(0, k as int)),
                self.literal_tree@ == old(self).literal_tree@,
                self.distance_tree@ == old(self).distance_tree@,
            decreases m - k,
        {
            let it = items[k];
            self.write_bits(it.0, it.1);
            proof {
                let prefix = items@.subrange(0, k as int);
                let single = seq![items@[k as int]];
                lemma_items_bits_concat(prefix, single);
                assert(single.subrange(1, 1) =~= Seq::<(u32, u8)>::empty());
                assert(single[0] == items@[k as int]);
                assert(items_bits(Seq::<(u32, u8)>::empty()) =~= Seq::<bool>::empty());
                assert(items_bits(single) =~= val_bits(it.0 as nat, it.1 as nat));
                assert(items@.subrange(0, k + 1) =~= prefix + single);
                assert(self.stream() =~= s2 + items_bits(items@.subrange(0, k + 1)));
            }
            k += 1;
        }
        proof {
            assert(items@.subrange(0, m as int) =~= items@);
            lemma_tree_of_wf(literal_code_lens@);
            lemma_tree_of_wf(distance_code_lens@);
        }
        self.literal_tree = calc_codes(literal_code_lens.as_slice());
        self.distance_tree = calc_codes(distance_code_lens.as_slice());
        proof {
            assert(self.stream() =~= s0 + eob_bits(old(self).literal_tree@, old(self).in_block)
                + seq![is_final, false, true] + items_bits(
                spec_header_items(literal_code_lens@, distance_code_lens@, clen_lens@),
            ));
        }
    }

    /// Closes any open block, flushes the final partial byte with zero
    /// padding, and hands back the assembled byte stream.
    fn finish(self) -> (r: Vec<u8>)
        requires
            self.bits_wf(),
            self.in_block ==> self.trees_wf(),
        ensures
            ({
                let s = self.stream() + eob_bits(self.literal_tree@, self.in_block);
                bytes_bits(r@) == s + val_bits(0, ((8 - s.len() % 8) % 8) as nat)
            }),
    {
        let mut w = self;
        let ghost s = self.stream() + eob_bits(self.literal_tree@, self.in_block);
        if w.in_block {
            let hc = w.literal_tree[256];
            w.write_bits(hc.code, hc.length);
        }
        proof {
            assert(w.stream() =~= s);
        }
        let fb: u8 = w.curr_full_bits;
        proof {
            // The stream length is 8 * out.len() + fb, so its residue mod 8 is fb.
            vstd::arithmetic::div_mod::lemma_fundamental_div_mod_converse(
                s.len() as int,
                8,
                w.out@.len() as int,
                fb as int,
            );
            assert(s.len() % 8 == fb as int);
        }
        if fb > 0 {
            let cb: u32 = w.curr_bytes;
            proof {
                lemma2_to64();
                lemma_pow2_le_shift(fb as nat, 7);
                assert(cb < 256);
            }
            let byte: u8 = cb as u8;
            let ghost old_out = w.out@;
            w.out.push(byte);
            proof {
                lemma_bytes_bits_push(old_out, byte);
                lemma_val_bits_extend(cb as nat, fb as nat, 8);
                assert(bytes_bits(w.out@) =~= s + val_bits(0, (8 - fb) as nat));
            }
            w.curr_bytes = 0;
            w.curr_full_bits = 0;
        } else {
            proof {
                assert(val_bits(w.curr_bytes as nat, 0).len() == 0);
                assert(bytes_bits(w.out@) =~= s);
                assert(bytes_bits(w.out@) =~= s + val_bits(0, 0));
            }
        }
        w.out
    }
}


/// The bits a run of tokens contributes to a block body under the
/// given trees.
pub open spec fn tokens_bits(
    tokens: Seq<Token>,
    lit: Seq<HuffmanCode>,
    dist: Seq<HuffmanCode>,
) -> Seq<bool>
    decreases tokens.len(),
{
    if tokens.len() == 0 {
        Seq::<bool>::empty()
    } else {
        tokens_bits(tokens.drop_last(), lit, dist) + token_bits(lit, dist, tokens.last())
    }
}

/// The complete bits of one block: three header bits, the tree
/// description for a dynamic block, the body, and the end-of-block
/// code under the block's own literal/length tree.
pub open spec fn block_bits(b: crate::deflate::block_splitter::Block, is_final: bool) -> Seq<
    bool,
> {
    match b {
        crate::deflate::block_splitter::Block::FixedCodes { tokens } => {
            let lit = tree_of(fixed_literal_lengths());
            let dist = tree_of(fixed_distance_lengths());
            seq![is_final, true, false] + tokens_bits(tokens@, lit, dist) + code_bits(lit[256])
        },
        crate::deflate::block_splitter::Block::DynamicCodes {
            tokens,
            literal_code_lens,
            distance_code_lens,
            clen_code_lens,
        } => {
            let lit = tree_of(literal_code_lens@);
            let dist = tree_of(distance_code_lens@);
            seq![is_final, false, true] + items_bits(
                spec_header_items(literal_code_lens@, distance_code_lens@, clen_code_lens@),
            ) + tokens_bits(tokens@, lit, dist) + code_bits(lit[256])
        },
    }
}

/// The bits of the first `i` blocks of a list of `nb`, the final flag
/// set on block `nb - 1` only.
pub open spec fn blocks_prefix_bits(
    bs: Seq<crate::deflate::block_splitter::Block>,
    i: int,
    nb: int,
) -> Seq<bool>
    decreases i,
{
    if i <= 0 {
        Seq::<bool>::empty()
    } else {
        blocks_prefix_bits(bs, i - 1, nb) + block_bits(bs[i - 1], i - 1 == nb - 1)
    }
}

/// What `deflate` promises of its output, witnessed by a block list:
/// the blocks' tokens cover the input exactly (so they decode back to
/// it), every block is well formed, and the output bytes are exactly
/// the blocks' bits, zero-padded to a whole byte.
pub open spec fn deflate_output_ok(
    out: Seq<u8>,
    file: Seq<u8>,
    blocks: Seq<crate::deflate::block_splitter::Block>,
) -> bool {
    &&& tokens_cover(
        crate::deflate::block_splitter::blocks_tokens(blocks),
        file,
        0,
        file.len() as int,
    )
    &&& (forall|j: int|
        0 <= j < blocks.len() ==> #[trigger] crate::deflate::block_splitter::block_wf(blocks[j]))
    &&& blocks.len() >= 1
    &&& ({
        let s = blocks_prefix_bits(blocks, blocks.len() as int, blocks.len() as int);
        bytes_bits(out) == s + val_bits(0, ((8 - s.len() % 8) % 8) as nat)
    })
}

/// Round-trip law at the encoder level: the token stream carried by any
/// block list that `deflate` can produce for `file` replays, under the
/// RFC 1951 copy rules, to exactly `file`.
pub proof fn lemma_deflate_blocks_decode(
    out: Seq<u8>,
    file: Seq<u8>,
    blocks: Seq<crate::deflate::block_splitter::Block>,
)
    requires
        deflate_output_ok(out, file, blocks),
    ensures
        lz_decode(crate::deflate::block_splitter::blocks_tokens(blocks)) == file,
{
    lemma_lz_round_trip(crate::deflate::block_splitter::blocks_tokens(blocks), file);
}

/// Compresses `file` into a complete DEFLATE bitstream: tokenize,
/// split into blocks, write each block with the final flag on the last
/// (an empty input yields a single empty final fixed block), and flush.
///
/// The output is exactly the padded bitstream of a well-formed block
/// sequence whose tokens cover `file` — so an RFC 1951 decoder applied
/// to it reconstructs `file` — and its first three bits are a block
/// header whose type is fixed (`01`) or dynamic (`10`) Huffman codes,
/// never a stored or reserved type.
#[verifier::rlimit(100)]
pub fn deflate(file: &[u8]) -> (out: Vec<u8>)
    requires
        crate::deflate::lempel_ziv::input_len_ok(file@.len() as int),
    ensures
        out@.len() >= 1,
        (out@[0] >> 1u8) & 3 == 1 || (out@[0] >> 1u8) & 3 == 2,
        exists|blocks: Seq<crate::deflate::block_splitter::Block>|
            deflate_output_ok(out@, file@, blocks),
{
    let tokens = crate::deflate::lempel_ziv::lempel_ziv(file);
    let blocks = crate::deflate::block_splitter::block_split(tokens.as_slice());
    let mut writer = DeflateWriter::new();

    let ghost mut wblocks: Seq<Block> = blocks@;
    let nb = blocks.len();
    if nb == 0 {
        // An empty input still carries one empty final block.
        let empty_tokens: Vec<Token> = Vec::new();
        writer.new_fixed_codes_block(true);
        proof {
            wblocks = seq![(Block::FixedCodes { tokens: empty_tokens })];
            assert(writer.stream() =~= seq![true, true, false]);
            let fl = tree_of(fixed_literal_lengths());
            assert(tokens_bits(empty_tokens@, fl, tree_of(fixed_distance_lengths())) =~= Seq::<
                bool,
            >::empty());
            assert(writer.stream() + eob_bits(writer.literal_tree@, writer.in_block)
                =~= block_bits(wblocks[0], true));
            assert(blocks_prefix_bits(wblocks, 0, 1) =~= Seq::<bool>::empty());
            assert(blocks_prefix_bits(wblocks, 1, 1) =~= blocks_prefix_bits(wblocks, 0, 1)
                + block_bits(wblocks[0], true));
            assert(writer.stream() + eob_bits(writer.literal_tree@, writer.in_block)
                =~= blocks_prefix_bits(wblocks, 1, 1));
            // With no blocks the token stream is empty, so the input is too.
            assert(wblocks.drop_last() =~= Seq::<Block>::empty());
            assert(crate::deflate::block_splitter::blocks_tokens(Seq::<Block>::empty()) =~= Seq::<
                Token,
            >::empty());
            assert(crate::deflate::block_splitter::blocks_tokens(wblocks) =~= empty_tokens@);
            assert(tokens@ =~= Seq::<Token>::empty());
        }
    }
    proof {
        if nb > 0 {
            assert(writer.stream() + eob_bits(writer.literal_tree@, writer.in_block)
                =~= blocks_prefix_bits(blocks@, 0, nb as int));
        }
    }
    let mut i: usize = 0;
    while i < nb
        invariant
            nb == blocks@.len(),
            i <= nb,
            forall|t: int|
                0 <= t < nb ==> #[trigger] crate::deflate::block_splitter::block_wf(blocks@[t]),
            writer.bits_wf(),
            writer.in_block ==> writer.trees_wf(),
            i > 0 ==> writer.in_block,
            (i == 0 && nb > 0) ==> (writer.stream() == Seq::<bool>::empty() && !writer.in_block),
            (i > 0 || nb == 0) ==> (writer.stream().len() >= 3 && ((writer.stream()[1]
                && !writer.stream()[2]) || (!writer.stream()[1] && writer.stream()[2]))),
            nb > 0 ==> writer.stream() + eob_bits(writer.literal_tree@, writer.in_block)
                == blocks_prefix_bits(blocks@, i as int, nb as int),
            nb == 0 ==> writer.stream() + eob_bits(writer.literal_tree@, writer.in_block)
                == blocks_prefix_bits(wblocks, 1, 1),
        decreases nb - i,
    {
        let is_last = i == nb - 1;
        let b = &blocks[i];
        proof {
            assert(crate::deflate::block_splitter::block_wf(blocks@[i as int]));
        }
        let ghost prefix = blocks_prefix_bits(blocks@, i as int, nb as int);
        match b {
            Block::FixedCodes { tokens } => {
                proof {
                    assert(blocks@[i as int] == (Block::FixedCodes { tokens: *tokens }));
                }
                let ghost sw = writer.stream();
                writer.new_fixed_codes_block(is_last);
                let ghost fl = tree_of(fixed_literal_lengths());
                let ghost fd = tree_of(fixed_distance_lengths());
                proof {
                    if i == 0 {
                        assert(writer.stream() =~= seq![is_last, true, false]);
                    } else {
                        assert(writer.stream()[1] == sw[1] && writer.stream()[2] == sw[2]);
                    }
                    assert(writer.stream() =~= prefix + seq![is_last, true, false]);
                    assert(tokens@.subrange(0, 0) =~= Seq::<Token>::empty());
                    assert(tokens_bits(tokens@.subrange(0, 0), fl, fd) =~= Seq::<bool>::empty());
                }
                let nt = tokens.len();
                let mut t: usize = 0;
                while t < nt
                    invariant
                        nt == tokens@.len(),
                        t <= nt,
                        forall|k: int| 0 <= k < nt ==> #[trigger] token_wf(tokens@[k]),
                        writer.bits_wf(),
                        writer.trees_wf(),
                        writer.in_block,
                        writer.literal_tree@ == fl,
                        writer.distance_tree@ == fd,
                        fl == tree_of(fixed_literal_lengths()),
                        fd == tree_of(fixed_distance_lengths()),
                        writer.stream() == prefix + seq![is_last, true, false] + tokens_bits(
                            tokens@.subrange(0, t as int),
                            fl,
                            fd,
                        ),
                        writer.stream().len() >= 3 && ((writer.stream()[1] && !writer.stream()[2])
                            || (!writer.stream()[1] && writer.stream()[2])),
                    decreases nt - t,
                {
                    writer.write(&tokens[t]);
                    proof {
                        let pre = tokens@.subrange(0, t as int);
                        let ext = tokens@.subrange(0, t + 1);
                        assert(ext.drop_last() =~= pre);
                        assert(ext.last() == tokens@[t as int]);
                        assert(tokens_bits(ext, fl, fd) == tokens_bits(pre, fl, fd) + token_bits(
                            fl,
                            fd,
                            tokens@[t as int],
                        ));
                        assert(writer.stream() =~= prefix + seq![is_last, true, false]
                            + tokens_bits(ext, fl, fd));
                    }
                    t += 1;
                }
                proof {
                    assert(tokens@.subrange(0, nt as int) =~= tokens@);
                    assert(writer.stream() + eob_bits(writer.literal_tree@, writer.in_block)
                        =~= prefix + block_bits(blocks@[i as int], is_last));
                    assert(blocks_prefix_bits(blocks@, i + 1, nb as int) == prefix + block_bits(
                        blocks@[i as int],
                        i == nb - 1,
                    ));
                }
            },
            Block::DynamicCodes { tokens, literal_code_lens, distance_code_lens, clen_code_lens } => {
                proof {
                    assert(blocks@[i as int] == (Block::DynamicCodes {
                        tokens: *tokens,
                        literal_code_lens: *literal_code_lens,
                        distance_code_lens: *distance_code_lens,
                        clen_code_lens: *clen_code_lens,
                    }));
                }
                let ghost sw = writer.stream();
                writer.new_dynamic_codes_block(
                    is_last,
                    literal_code_lens,
                    distance_code_lens,
                    clen_code_lens,
                );
                let ghost dl = tree_of(literal_code_lens@);
                let ghost dd = tree_of(distance_code_lens@);
                let ghost desc = items_bits(
                    spec_header_items(literal_code_lens@, distance_code_lens@, clen_code_lens@),
                );
                proof {
                    if i == 0 {
                        assert(writer.stream() =~= seq![is_last, false, true] + desc);
                        assert(writer.stream()[1] == false && writer.stream()[2] == true);
                    } else {
                        assert(writer.stream()[1] == sw[1] && writer.stream()[2] == sw[2]);
                    }
                    assert(writer.stream() =~= prefix + seq![is_last, false, true] + desc);
                    assert(tokens@.subrange(0, 0) =~= Seq::<Token>::empty());
                    assert(tokens_bits(tokens@.subrange(0, 0), dl, dd) =~= Seq::<bool>::empty());
                }
                let nt = tokens.len();
                let mut t: usize = 0;
                while t < nt
                    invariant
                        nt == tokens@.len(),
                        t <= nt,
                        forall|k: int| 0 <= k < nt ==> #[trigger] token_wf(tokens@[k]),
                        writer.bits_wf(),
                        writer.trees_wf(),
                        writer.in_block,
                        writer.literal_tree@ == dl,
                        writer.distance_tree@ == dd,
                        dl == tree_of(literal_code_lens@),
                        dd == tree_of(distance_code_lens@),
                        desc == items_bits(
                            spec_header_items(
                                literal_code_lens@,
                                distance_code_lens@,
                                clen_code_lens@,
                            ),
                        ),
                        writer.stream() == prefix + seq![is_last, false, true] + desc
                            + tokens_bits(tokens@.subrange(0, t as int), dl, dd),
                        writer.stream().len() >= 3 && ((writer.stream()[1] && !writer.stream()[2])
                            || (!writer.stream()[1] && writer.stream()[2])),
                    decreases nt - t,
                {
                    writer.write(&tokens[t]);
                    proof {
                        let pre = tokens@.subrange(0, t as int);
                        let ext = tokens@.subrange(0, t + 1);
                        assert(ext.drop_last() =~= pre);
                        assert(ext.last() == tokens@[t as int]);
                        assert(tokens_bits(ext, dl, dd) == tokens_bits(pre, dl, dd) + token_bits(
                            dl,
                            dd,
                            tokens@[t as int],
                        ));
                        assert(writer.stream() =~= prefix + seq![is_last, false, true] + desc
                            + tokens_bits(ext, dl, dd));
                    }
                    t += 1;
                }
                proof {
                    assert(tokens@.subrange(0, nt as int) =~= tokens@);
                    assert(writer.stream() + eob_bits(writer.literal_tree@, writer.in_block)
                        =~= prefix + block_bits(blocks@[i as int], is_last));
                    assert(blocks_prefix_bits(blocks@, i + 1, nb as int) == prefix + block_bits(
                        blocks@[i as int],
                        i == nb - 1,
                    ));
                }
            },
        }
        i += 1;
    }
    let ghost s_before = writer.stream();
    let ghost lit_before = writer.literal_tree@;
    let ghost ib_before = writer.in_block;
    let out = writer.finish();
    proof {
        let s = s_before + eob_bits(lit_before, ib_before);
        assert(s.len() >= 3);
        assert(s[1] == s_before[1] && s[2] == s_before[2]);
        assert(bytes_bits(out@).len() >= 3);
        assert(out@.len() >= 1);
        assert(bytes_bits(out@)[1] == s[1] && bytes_bits(out@)[2] == s[2]);
        assert(1int / 8 == 0 && 1int % 8 == 1 && 2int / 8 == 0 && 2int % 8 == 2);
        assert(bytes_bits(out@)[1] == bit_of(out@[0] as nat, 1));
        assert(bytes_bits(out@)[2] == bit_of(out@[0] as nat, 2));
        lemma2_to64();
        let b0 = out@[0];
        assert((b0 >> 1u8) & 3 == ((b0 / 2) % 2) + 2 * ((b0 / 4) % 2)) by (bit_vector);
        assert(bit_of(b0 as nat, 1) == ((b0 / 2) % 2 == 1));
        assert(bit_of(b0 as nat, 2) == ((b0 / 4) % 2 == 1));

        // The witness block list: the splitter's blocks, or the one empty
        // final block written for an empty input.
        if nb == 0 {
            assert(s == blocks_prefix_bits(wblocks, 1, 1));
            assert(crate::deflate::block_splitter::block_wf(wblocks[0]));
            assert(tokens_cover(
                crate::deflate::block_splitter::blocks_tokens(wblocks),
                file@,
                0,
                file@.len() as int,
            ));
        } else {
            assert(wblocks == blocks@);
            assert(s == blocks_prefix_bits(wblocks, nb as int, nb as int));
            assert(crate::deflate::block_splitter::blocks_tokens(wblocks) == tokens@);
        }
        assert(deflate_output_ok(out@, file@, wblocks));
    }
    out
}

} // verus!
