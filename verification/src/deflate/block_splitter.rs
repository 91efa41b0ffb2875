//! Block splitting: slices the token stream at a base granularity,
//! derives per-slice Huffman code lengths and exact bit costs, chooses
//! fixed or dynamic trees per block, and greedily merges adjacent
//! slices whenever the merged block encodes smaller.

use vstd::prelude::*;
use vstd::arithmetic::power2::pow2;
use vstd::arithmetic::power2::lemma2_to64;

use crate::deflate::Token;
use crate::deflate::token_wf;
use crate::deflate::deflate_code_of_dist;
use crate::deflate::deflate_code_of_len;
use crate::deflate::dist_code_info;
use crate::deflate::len_code_info;
use crate::deflate::create_dynamic_block_header;
use crate::deflate::rle_encode;
use crate::deflate::rle_symbols;
use crate::deflate::spec_header_items;
use crate::deflate::items_bits;
use crate::deflate::items_wf;
use crate::deflate::lemma_items_bits_concat;
use crate::huffman::gen_lengths;
use crate::huffman::kraft_sum;
use crate::huffman::live_count;
use crate::huffman::live_lens;
use crate::huffman::lemma_live_count_le;
use crate::huffman::lemma_live_transport;
use crate::huffman::fixed_literal_lengths;
use crate::huffman::fixed_distance_lengths;
use crate::huffman::literal_fixed_codes;
use crate::huffman::distance_fixed_codes;

verus! {

/// The literal/length symbol a token is coded with.
pub open spec fn lit_sym_of(t: Token) -> int {
    match t {
        Token::Literal(b) => b as int,
        Token::Repeat(len, _) => len_code_info(len as int).2,
    }
}

/// The distance symbol of a repeat token; literals carry none.
pub open spec fn dist_sym_of(t: Token) -> int {
    match t {
        Token::Literal(_) => -1,
        Token::Repeat(_, dist) => dist_code_info(dist as int).2,
    }
}

pub open spec fn lit_count_rec(ts: Seq<Token>, sym: int) -> nat
    decreases ts.len(),
{
    if ts.len() == 0 {
        0
    } else {
        lit_count_rec(ts.drop_last(), sym) + (if lit_sym_of(ts.last()) == sym {
            1nat
        } else {
            0nat
        })
    }
}

pub open spec fn dist_count_rec(ts: Seq<Token>, sym: int) -> nat
    decreases ts.len(),
{
    if ts.len() == 0 {
        0
    } else {
        dist_count_rec(ts.drop_last(), sym) + (if dist_sym_of(ts.last()) == sym {
            1nat
        } else {
            0nat
        })
    }
}

/// Literal/length frequency of a symbol in a token run; the
/// end-of-block symbol 256 is clamped to one occurrence, since every
/// block ends with exactly one.
pub open spec fn spec_lit_freq(ts: Seq<Token>, sym: int) -> nat {
    if sym == 256 {
        1
    } else {
        lit_count_rec(ts, sym)
    }
}

/// Distance frequency of a symbol in a token run.
pub open spec fn spec_dist_freq(ts: Seq<Token>, sym: int) -> nat {
    dist_count_rec(ts, sym)
}

proof fn lemma_lit_count_le(ts: Seq<Token>, sym: int)
    ensures
        lit_count_rec(ts, sym) <= ts.len(),
    decreases ts.len(),
{
    if ts.len() > 0 {
        lemma_lit_count_le(ts.drop_last(), sym);
    }
}

proof fn lemma_dist_count_le(ts: Seq<Token>, sym: int)
    ensures
        dist_count_rec(ts, sym) <= ts.len(),
    decreases ts.len(),
{
    if ts.len() > 0 {
        lemma_dist_count_le(ts.drop_last(), sym);
    }
}

proof fn lemma_lit_count_concat(s1: Seq<Token>, s2: Seq<Token>, sym: int)
    ensures
        lit_count_rec(s1 + s2, sym) == lit_count_rec(s1, sym) + lit_count_rec(s2, sym),
    decreases s2.len(),
{
    if s2.len() == 0 {
        assert(s1 + s2 =~= s1);
    } else {
        lemma_lit_count_concat(s1, s2.drop_last(), sym);
        assert((s1 + s2).drop_last() =~= s1 + s2.drop_last());
        assert((s1 + s2).last() == s2.last());
    }
}

proof fn lemma_dist_count_concat(s1: Seq<Token>, s2: Seq<Token>, sym: int)
    ensures
        dist_count_rec(s1 + s2, sym) == dist_count_rec(s1, sym) + dist_count_rec(s2, sym),
    decreases s2.len(),
{
    if s2.len() == 0 {
        assert(s1 + s2 =~= s1);
    } else {
        lemma_dist_count_concat(s1, s2.drop_last(), sym);
        assert((s1 + s2).drop_last() =~= s1 + s2.drop_last());
        assert((s1 + s2).last() == s2.last());
    }
}

/// A token at position `i` contributes to its literal/length symbol's count.
proof fn lemma_lit_count_occurs(ts: Seq<Token>, i: int, s: int)
    requires
        0 <= i < ts.len(),
        lit_sym_of(ts[i]) == s,
    ensures
        lit_count_rec(ts, s) >= 1,
    decreases ts.len(),
{
    if i < ts.len() - 1 {
        assert(ts.drop_last()[i] == ts[i]);
        lemma_lit_count_occurs(ts.drop_last(), i, s);
    }
}

/// A repeat at position `i` contributes to its distance symbol's count.
proof fn lemma_dist_count_occurs(ts: Seq<Token>, i: int, s: int)
    requires
        0 <= i < ts.len(),
        ts[i] is Repeat,
        dist_sym_of(ts[i]) == s,
    ensures
        dist_count_rec(ts, s) >= 1,
    decreases ts.len(),
{
    if i < ts.len() - 1 {
        assert(ts.drop_last()[i] == ts[i]);
        lemma_dist_count_occurs(ts.drop_last(), i, s);
    }
}

/// The literal/length symbol of a range-valid token is a literal
/// (0..255) or a length code (257..285), never the end-of-block code.
proof fn lemma_lit_sym_range(t: Token)
    requires
        token_wf(t),
    ensures
        0 <= lit_sym_of(t) <= 285,
        lit_sym_of(t) != 256,
{
    match t {
        Token::Literal(_) => {},
        Token::Repeat(len, _) => {
            assert(257 <= len_code_info(len as int).2 <= 285);
        },
    }
}

/// The distance symbol of a range-valid repeat is one of the 30 codes.
proof fn lemma_dist_sym_range(t: Token)
    requires
        token_wf(t),
        t is Repeat,
    ensures
        0 <= dist_sym_of(t) <= 29,
{
    match t {
        Token::Literal(_) => {},
        Token::Repeat(_, dist) => {
            assert(0 <= dist_code_info(dist as int).2 <= 29);
        },
    }
}

/// Frequency vectors of one block: 286 literal/length counts (symbol
/// 256 clamped to one for the end-of-block code) and 30 distance
/// counts.
pub struct FreqCounter {
    pub literal_count: Vec<u64>,
    pub distance_count: Vec<u64>,
}

impl FreqCounter {
    /// The counter holds exactly the frequencies of `ts`.
    pub open spec fn matches(self, ts: Seq<Token>) -> bool {
        &&& self.literal_count@.len() == 286
        &&& self.distance_count@.len() == 30
        &&& forall|s: int|
            0 <= s < 286 ==> (#[trigger] self.literal_count@[s]) as nat == spec_lit_freq(ts, s)
        &&& forall|s: int|
            0 <= s < 30 ==> (#[trigger] self.distance_count@[s]) as nat == spec_dist_freq(ts, s)
    }

    pub fn new() -> (fc: Self)
        ensures
            fc.matches(Seq::<Token>::empty()),
    {
        let mut literal_count: Vec<u64> = Vec::new();
        let mut i: usize = 0;
        while i < 286
            invariant
                literal_count@.len() == i,
                i <= 286,
                forall|s: int| 0 <= s < i ==> literal_count@[s] == 0,
            decreases 286 - i,
        {
            literal_count.push(0);
            i += 1;
        }
        literal_count[256] = 1;
        let mut distance_count: Vec<u64> = Vec::new();
        let mut j: usize = 0;
        while j < 30
            invariant
                distance_count@.len() == j,
                j <= 30,
                forall|s: int| 0 <= s < j ==> distance_count@[s] == 0,
            decreases 30 - j,
        {
            distance_count.push(0);
            j += 1;
        }
        FreqCounter { literal_count, distance_count }
    }

    /// Adds one token to the frequencies.
    pub fn count(&mut self, token: &Token, Ghost(ts): Ghost<Seq<Token>>)
        requires
            old(self).matches(ts),
            token_wf(*token),
            ts.len() <= 0x4000_0000_0000,
        ensures
            final(self).matches(ts.push(*token)),
    {
        let ghost ts2 = ts.push(*token);
        proof {
            assert(ts2.drop_last() =~= ts);
            assert(ts2.last() == *token);
        }
        match token {
            Token::Literal(value) => {
                let idx = *value as usize;
                proof {
                    lemma_lit_count_le(ts, idx as int);
                }
                let c = self.literal_count[idx];
                self.literal_count[idx] = c + 1;
            },
            Token::Repeat(len, dist) => {
                let lc = deflate_code_of_len(*len);
                let li = lc.2 as usize;
                proof {
                    lemma_lit_count_le(ts, li as int);
                }
                let c = self.literal_count[li];
                self.literal_count[li] = c + 1;
                let dc = deflate_code_of_dist(*dist);
                let di = dc.2 as usize;
                proof {
                    lemma_dist_count_le(ts, di as int);
                }
                let d = self.distance_count[di];
                self.distance_count[di] = d + 1;
            },
        }
    }
}

/// One DEFLATE block to be written: its tokens, and for a dynamic block
/// the code lengths of its three trees.
pub enum Block {
    FixedCodes { tokens: Vec<Token> },
    DynamicCodes {
        tokens: Vec<Token>,
        literal_code_lens: Vec<u8>,
        distance_code_lens: Vec<u8>,
        clen_code_lens: Vec<u8>,
    },
}

pub open spec fn block_tokens(b: Block) -> Seq<Token> {
    match b {
        Block::FixedCodes { tokens } => tokens@,
        Block::DynamicCodes { tokens, literal_code_lens, distance_code_lens, clen_code_lens } =>
            tokens@,
    }
}

/// The token stream a block list covers, in order.
pub open spec fn blocks_tokens(bs: Seq<Block>) -> Seq<Token>
    decreases bs.len(),
{
    if bs.len() == 0 {
        Seq::<Token>::empty()
    } else {
        blocks_tokens(bs.drop_last()) + block_tokens(bs.last())
    }
}

pub open spec fn lit_cost_upto(ts: Seq<Token>, lens: Seq<u8>, k: int) -> int
    decreases k,
{
    if k <= 0 {
        0
    } else {
        lit_cost_upto(ts, lens, k - 1) + spec_lit_freq(ts, k - 1) * (if 0 <= k - 1 < lens.len() {
            lens[k - 1] as int
        } else {
            0
        })
    }
}

pub open spec fn dist_cost_upto(ts: Seq<Token>, lens: Seq<u8>, k: int) -> int
    decreases k,
{
    if k <= 0 {
        0
    } else {
        dist_cost_upto(ts, lens, k - 1) + spec_dist_freq(ts, k - 1) * (if 0 <= k - 1 < lens.len() {
            lens[k - 1] as int
        } else {
            0
        })
    }
}

/// Body bits of a block: each symbol's frequency times its code length,
/// over both alphabets (extra bits are part of neither tree and cancel
/// out of the fixed/dynamic comparison).
pub open spec fn spec_body_cost(ts: Seq<Token>, ll: Seq<u8>, dl: Seq<u8>) -> int {
    lit_cost_upto(ts, ll, 286) + dist_cost_upto(ts, dl, 30)
}

/// Bits of a dynamic block: its body plus its exact tree description.
pub open spec fn spec_dynamic_cost(ts: Seq<Token>, ll: Seq<u8>, dl: Seq<u8>, cl: Seq<u8>) -> int {
    spec_body_cost(ts, ll, dl) + items_bits(spec_header_items(ll, dl, cl)).len()
}

/// Bits of a fixed block: three header bits plus its body under the
/// RFC fixed trees.
pub open spec fn spec_fixed_cost(ts: Seq<Token>) -> int {
    3 + spec_body_cost(ts, fixed_literal_lengths(), fixed_distance_lengths())
}

/// The three code-length vectors of a dynamic block form usable prefix
/// codes for everything the block emits: every literal/length and
/// distance symbol its tokens use is live, every code-length symbol of
/// its tree description is live, and each alphabet satisfies the Kraft
/// equality (a lone live symbol getting the conventional length 1, the
/// literal alphabet's lone live symbol being the end-of-block code).
pub open spec fn dynamic_lens_valid(ts: Seq<Token>, ll: Seq<u8>, dl: Seq<u8>, cl: Seq<u8>) -> bool {
    &&& (forall|s: int| 0 <= s < 286 ==> (((#[trigger] ll[s]) == 0) <==> (spec_lit_freq(ts, s) == 0)))
    &&& (forall|s: int| 0 <= s < 30 ==> (((#[trigger] dl[s]) == 0) <==> (spec_dist_freq(ts, s) == 0)))
    &&& (forall|i: int| 0 <= i < ts.len() ==> ll[lit_sym_of(#[trigger] ts[i])] != 0)
    &&& (forall|i: int|
        0 <= i < ts.len() && (#[trigger] ts[i]) is Repeat ==> dl[dist_sym_of(ts[i])] != 0)
    &&& (live_lens(ll) >= 2 ==> kraft_sum(ll, 15) == pow2(15))
    &&& (live_lens(ll) == 1 ==> ll[256] == 1)
    &&& (live_lens(dl) >= 2 ==> kraft_sum(dl, 15) == pow2(15))
    &&& (live_lens(dl) == 1 ==> (forall|s: int| 0 <= s < dl.len() && dl[s] != 0 ==> dl[s] == 1))
    &&& (forall|k: int|
        0 <= k < rle_encode(ll + dl).len() ==> cl[(#[trigger] rle_encode(ll + dl)[k]).0 as int]
            != 0)
    &&& (live_lens(cl) >= 2 ==> kraft_sum(cl, 7) == pow2(7))
    &&& (live_lens(cl) == 1 ==> (forall|s: int| 0 <= s < cl.len() && cl[s] != 0 ==> cl[s] == 1))
}

/// What `block_split` promises of each block it emits: range-valid
/// tokens; and for a dynamic block, well-formed code-length vectors, a
/// usable end-of-block code, and a strictly smaller encoded size than
/// the fixed-tree alternative.
pub open spec fn block_wf(b: Block) -> bool {
    match b {
        Block::FixedCodes { tokens } => forall|i: int|
            0 <= i < tokens@.len() ==> #[trigger] token_wf(tokens@[i]),
        Block::DynamicCodes { tokens, literal_code_lens, distance_code_lens, clen_code_lens } => {
            &&& forall|i: int| 0 <= i < tokens@.len() ==> #[trigger] token_wf(tokens@[i])
            &&& literal_code_lens@.len() == 286
            &&& distance_code_lens@.len() == 30
            &&& clen_code_lens@.len() == 19
            &&& forall|i: int| 0 <= i < 286 ==> literal_code_lens@[i] <= 15
            &&& forall|i: int| 0 <= i < 30 ==> distance_code_lens@[i] <= 15
            &&& forall|i: int| 0 <= i < 19 ==> clen_code_lens@[i] <= 7
            &&& literal_code_lens@[256] != 0
            &&& dynamic_lens_valid(
                tokens@,
                literal_code_lens@,
                distance_code_lens@,
                clen_code_lens@,
            )
            &&& spec_dynamic_cost(
                tokens@,
                literal_code_lens@,
                distance_code_lens@,
                clen_code_lens@,
            ) < spec_fixed_cost(tokens@)
        },
    }
}

/// Exact bit count of a dynamic block's tree description, by summing
/// the same item list the writer emits.
pub fn dynamic_header_cost(
    literal_code_lens: &Vec<u8>,
    distance_code_lens: &Vec<u8>,
    clen_lens: &Vec<u8>,
) -> (r: u64)
    requires
        literal_code_lens@.len() == 286,
        distance_code_lens@.len() == 30,
        clen_lens@.len() == 19,
        forall|i: int| 0 <= i < 286 ==> literal_code_lens@[i] <= 15,
        forall|i: int| 0 <= i < 30 ==> distance_code_lens@[i] <= 15,
        forall|i: int| 0 <= i < 19 ==> clen_lens@[i] <= 7,
    ensures
        r == items_bits(
            spec_header_items(literal_code_lens@, distance_code_lens@, clen_lens@),
        ).len(),
        r <= 11200,
{
    let items = create_dynamic_block_header(literal_code_lens, distance_code_lens, clen_lens);
    let m = items.len();
    let mut sum: u64 = 0;
    let mut k: usize = 0;
    proof {
        assert(items@.subrange(0, 0) =~= Seq::<(u32, u8)>::empty());
    }
    while k < m
        invariant
            m == items@.len(),
            m <= 700,
            k <= m,
            items_wf(items@),
            sum == items_bits(items@.subrange(0, k as int)).len(),
            sum <= 16 * k,
        decreases m - k,
    {
        let it = items[k];
        proof {
            let prefix = items@.subrange(0, k as int);
            let single = seq![items@[k as int]];
            lemma_items_bits_concat(prefix, single);
            assert(single.subrange(1, 1) =~= Seq::<(u32, u8)>::empty());
            assert(items_bits(Seq::<(u32, u8)>::empty()) =~= Seq::<bool>::empty());
            assert(items_bits(single).len() == it.1 as int);
            assert(items@.subrange(0, k + 1) =~= prefix + single);
        }
        sum = sum + (it.1 as u64);
        k += 1;
    }
    proof {
        assert(items@.subrange(0, m as int) =~= items@);
    }
    sum
}

/// Body bits of a block under given code lengths: the weighted sum of
/// the frequency vectors against the length vectors.
pub fn block_cost(
    counter: &FreqCounter,
    literal_code_lens: &[u8],
    distance_code_lens: &[u8],
    Ghost(ts): Ghost<Seq<Token>>,
) -> (r: u64)
    requires
        counter.matches(ts),
        ts.len() <= 0x4000_0000_0000,
        literal_code_lens@.len() >= 286,
        distance_code_lens@.len() >= 30,
        forall|i: int| 0 <= i < 286 ==> literal_code_lens@[i] <= 15,
        forall|i: int| 0 <= i < 30 ==> distance_code_lens@[i] <= 15,
    ensures
        r == spec_body_cost(ts, literal_code_lens@, distance_code_lens@),
        r <= 0x0800_0000_0000_0000,
{
    let mut total: u64 = 0;
    let mut sym: usize = 0;
    while sym < 286
        invariant
            counter.matches(ts),
            ts.len() <= 0x4000_0000_0000,
            literal_code_lens@.len() >= 286,
            forall|i: int| 0 <= i < 286 ==> literal_code_lens@[i] <= 15,
            sym <= 286,
            total == lit_cost_upto(ts, literal_code_lens@, sym as int),
            total <= sym * 0x3_C000_0000_000F,
        decreases 286 - sym,
    {
        let c = counter.literal_count[sym];
        let l = literal_code_lens[sym] as u64;
        proof {
            lemma_lit_count_le(ts, sym as int);
            assert(c <= 0x4000_0000_0001);
            assert((c as int) * (l as int) <= 0x3_C000_0000_000F) by (nonlinear_arith)
                requires
                    0 <= c <= 0x4000_0000_0001,
                    0 <= l <= 15,
            ;
            assert(total + (c as int) * (l as int) <= (sym as int + 1) * 0x3_C000_0000_000F)
                by (nonlinear_arith)
                requires
                    total <= (sym as int) * 0x3_C000_0000_000F,
                    (c as int) * (l as int) <= 0x3_C000_0000_000F,
            ;
        }
        total = total + c * l;
        sym += 1;
    }
    let ghost lit_total = total as int;
    let mut sym2: usize = 0;
    while sym2 < 30
        invariant
            counter.matches(ts),
            ts.len() <= 0x4000_0000_0000,
            distance_code_lens@.len() >= 30,
            forall|i: int| 0 <= i < 30 ==> distance_code_lens@[i] <= 15,
            sym2 <= 30,
            lit_total <= 286 * 0x3_C000_0000_000F,
            total == lit_total + dist_cost_upto(ts, distance_code_lens@, sym2 as int),
            total <= lit_total + sym2 * 0x3_C000_0000_000F,
        decreases 30 - sym2,
    {
        let c = counter.distance_count[sym2];
        let l = distance_code_lens[sym2] as u64;
        proof {
            lemma_dist_count_le(ts, sym2 as int);
            assert(c <= 0x4000_0000_0001);
            assert((c as int) * (l as int) <= 0x3_C000_0000_000F) by (nonlinear_arith)
                requires
                    0 <= c <= 0x4000_0000_0001,
                    0 <= l <= 15,
            ;
            assert(total + (c as int) * (l as int) <= lit_total + (sym2 as int + 1)
                * 0x3_C000_0000_000F) by (nonlinear_arith)
                requires
                    total <= lit_total + (sym2 as int) * 0x3_C000_0000_000F,
                    (c as int) * (l as int) <= 0x3_C000_0000_000F,
            ;
        }
        total = total + c * l;
        sym2 += 1;
    }
    total
}

/// Code-length-code lengths for the tree description of a block: the
/// 19 symbol frequencies of the run-length-coded lengths, turned into
/// 7-bit-bounded Huffman code lengths.
/// Occurrences of code-length symbol `s` in a run-length-coded list.
pub open spec fn clen_sym_count(syms: Seq<(u8, u8, u8)>, s: int) -> nat
    decreases syms.len(),
{
    if syms.len() == 0 {
        0
    } else {
        clen_sym_count(syms.drop_last(), s) + (if syms.last().0 == s {
            1nat
        } else {
            0nat
        })
    }
}

proof fn lemma_clen_sym_occurs(syms: Seq<(u8, u8, u8)>, k: int, s: int)
    requires
        0 <= k < syms.len(),
        syms[k].0 == s,
    ensures
        clen_sym_count(syms, s) >= 1,
    decreases syms.len(),
{
    if k < syms.len() - 1 {
        assert(syms.drop_last()[k] == syms[k]);
        lemma_clen_sym_occurs(syms.drop_last(), k, s);
    }
}

proof fn lemma_clen_sym_le(syms: Seq<(u8, u8, u8)>, s: int)
    ensures
        clen_sym_count(syms, s) <= syms.len(),
    decreases syms.len(),
{
    if syms.len() > 0 {
        lemma_clen_sym_le(syms.drop_last(), s);
    }
}

fn build_clen(literal_code_lens: &Vec<u8>, distance_code_lens: &Vec<u8>) -> (cl: Vec<u8>)
    requires
        literal_code_lens@.len() == 286,
        distance_code_lens@.len() == 30,
        forall|i: int| 0 <= i < 286 ==> literal_code_lens@[i] <= 15,
        forall|i: int| 0 <= i < 30 ==> distance_code_lens@[i] <= 15,
    ensures
        cl@.len() == 19,
        forall|i: int| 0 <= i < 19 ==> cl@[i] <= 7,
        ({
            let syms = rle_encode(literal_code_lens@ + distance_code_lens@);
            forall|k: int| 0 <= k < syms.len() ==> cl@[(#[trigger] syms[k]).0 as int] != 0
        }),
        live_lens(cl@) >= 2 ==> kraft_sum(cl@, 7) == pow2(7),
        live_lens(cl@) == 1 ==> (forall|s: int| 0 <= s < 19 && cl@[s] != 0 ==> cl@[s] == 1),
{
    let syms = rle_symbols(literal_code_lens, distance_code_lens);
    let mut counts: Vec<u64> = Vec::new();
    let mut i: usize = 0;
    while i < 19
        invariant
            counts@.len() == i,
            i <= 19,
            forall|s: int| 0 <= s < i ==> counts@[s] == 0,
        decreases 19 - i,
    {
        counts.push(0);
        i += 1;
    }
    let m = syms.len();
    let mut k: usize = 0;
    proof {
        assert(syms@.subrange(0, 0) =~= Seq::<(u8, u8, u8)>::empty());
    }
    while k < m
        invariant
            m == syms@.len(),
            m <= 316,
            k <= m,
            counts@.len() == 19,
            forall|t: int|
                0 <= t < syms@.len() ==> ((#[trigger] syms@[t]).0 <= 18 && syms@[t].1 <= 7 && (
                syms@[t].2 as nat) < pow2(syms@[t].1 as nat)),
            forall|s: int|
                0 <= s < 19 ==> (#[trigger] counts@[s]) as nat == clen_sym_count(
                    syms@.subrange(0, k as int),
                    s,
                ),
        decreases m - k,
    {
        let s = syms[k].0 as usize;
        proof {
            lemma_clen_sym_le(syms@.subrange(0, k as int), s as int);
            assert(syms@.subrange(0, k + 1).drop_last() =~= syms@.subrange(0, k as int));
            assert(syms@.subrange(0, k + 1).last() == syms@[k as int]);
        }
        let c = counts[s];
        counts[s] = c + 1;
        k += 1;
    }
    proof {
        assert(syms@.subrange(0, m as int) =~= syms@);
    }
    match gen_lengths(counts.as_slice(), 7) {
        Ok(lens) => {
            proof {
                assert forall|t: int|
                    0 <= t < syms@.len() implies lens@[(#[trigger] syms@[t]).0 as int] != 0 by {
                    lemma_clen_sym_occurs(syms@, t, syms@[t].0 as int);
                    assert(counts@[syms@[t].0 as int] != 0);
                }
                lemma_live_transport(counts@, lens@, 19);
            }
            lens
        },
        Err(_) => {
            proof {
                lemma_live_count_le(counts@, counts@.len() as int);
                lemma2_to64();
                assert(live_count(counts@) <= 19);
                assert(false);
            }
            Vec::new()
        },
    }
}

/// A block being grown by the greedy merger: its token range, its
/// frequencies, the tree lengths it would use, and its chosen
/// representation with the exact cost of that choice.
pub struct BlockInProgress {
    pub start: usize,
    pub end: usize,
    pub freqs: FreqCounter,
    pub literal_code_lens: Vec<u8>,
    pub distance_code_lens: Vec<u8>,
    pub clen_code_lens: Vec<u8>,
    pub cost: u64,
    pub is_dynamic: bool,
}

/// The invariant of a block in progress over the whole token stream:
/// frequencies match its range, the length vectors are well formed with
/// a live end-of-block code, the recorded cost is exactly the cost of
/// the chosen representation, and the choice is the cheaper one.
pub open spec fn bip_wf(b: BlockInProgress, ts: Seq<Token>) -> bool {
    let sub = ts.subrange(b.start as int, b.end as int);
    &&& b.start <= b.end <= ts.len()
    &&& b.freqs.matches(sub)
    &&& b.literal_code_lens@.len() == 286
    &&& b.distance_code_lens@.len() == 30
    &&& b.clen_code_lens@.len() == 19
    &&& (forall|i: int| 0 <= i < 286 ==> b.literal_code_lens@[i] <= 15)
    &&& (forall|i: int| 0 <= i < 30 ==> b.distance_code_lens@[i] <= 15)
    &&& (forall|i: int| 0 <= i < 19 ==> b.clen_code_lens@[i] <= 7)
    &&& b.literal_code_lens@[256] != 0
    &&& dynamic_lens_valid(sub, b.literal_code_lens@, b.distance_code_lens@, b.clen_code_lens@)
    &&& b.cost < 0x2000_0000_0000_0000
    &&& (b.is_dynamic ==> {
        &&& b.cost == spec_dynamic_cost(
            sub,
            b.literal_code_lens@,
            b.distance_code_lens@,
            b.clen_code_lens@,
        )
        &&& spec_dynamic_cost(
            sub,
            b.literal_code_lens@,
            b.distance_code_lens@,
            b.clen_code_lens@,
        ) < spec_fixed_cost(sub)
    })
    &&& (!b.is_dynamic ==> {
        &&& b.cost == spec_fixed_cost(sub)
        &&& spec_fixed_cost(sub) <= spec_dynamic_cost(
            sub,
            b.literal_code_lens@,
            b.distance_code_lens@,
            b.clen_code_lens@,
        )
    })
}

/// Derives trees, costs and the fixed/dynamic decision for a token
/// range whose frequencies are already counted.
fn assemble_block(start: usize, end: usize, freqs: FreqCounter, Ghost(ts): Ghost<Seq<Token>>) -> (b:
    BlockInProgress)
    requires
        start <= end <= ts.len(),
        ts.len() <= 0x4000_0000_0000,
        freqs.matches(ts.subrange(start as int, end as int)),
        forall|i: int| start <= i < end ==> token_wf(#[trigger] ts[i]),
    ensures
        bip_wf(b, ts),
        b.start == start,
        b.end == end,
        b.freqs.matches(ts.subrange(start as int, end as int)),
    {
    let ghost sub = ts.subrange(start as int, end as int);
    let literal_code_lens = match gen_lengths(freqs.literal_count.as_slice(), 15) {
        Ok(lens) => lens,
        Err(_) => {
            proof {
                lemma_live_count_le(freqs.literal_count@, freqs.literal_count@.len() as int);
                lemma2_to64();
                assert(false);
            }
            Vec::new()
        },
    };
    let distance_code_lens = match gen_lengths(freqs.distance_count.as_slice(), 15) {
        Ok(lens) => lens,
        Err(_) => {
            proof {
                lemma_live_count_le(freqs.distance_count@, freqs.distance_count@.len() as int);
                lemma2_to64();
                assert(false);
            }
            Vec::new()
        },
    };
    proof {
        // Symbol 256 is always counted once, so it always gets a code.
        assert(freqs.literal_count@[256] as nat == spec_lit_freq(sub, 256));
        assert(freqs.literal_count@[256] != 0);
    }
    let clen_code_lens = build_clen(&literal_code_lens, &distance_code_lens);
    proof {
        // Every symbol the block's tokens use is live: its frequency is
        // nonzero, and the generated lengths are zero exactly on the
        // zero frequencies.
        assert forall|i: int|
            0 <= i < sub.len() implies literal_code_lens@[lit_sym_of(#[trigger] sub[i])] != 0 by {
            assert(sub[i] == ts[start + i]);
            lemma_lit_sym_range(sub[i]);
            let sy = lit_sym_of(sub[i]);
            lemma_lit_count_occurs(sub, i, sy);
            assert(freqs.literal_count@[sy] as nat == spec_lit_freq(sub, sy));
            assert(freqs.literal_count@[sy] != 0);
        }
        assert forall|i: int|
            0 <= i < sub.len() && (#[trigger] sub[i]) is Repeat implies distance_code_lens@[
            dist_sym_of(sub[i])] != 0 by {
            assert(sub[i] == ts[start + i]);
            lemma_dist_sym_range(sub[i]);
            let sy = dist_sym_of(sub[i]);
            lemma_dist_count_occurs(sub, i, sy);
            assert(freqs.distance_count@[sy] as nat == spec_dist_freq(sub, sy));
            assert(freqs.distance_count@[sy] != 0);
        }
        // The Kraft facts transport from the frequency vectors to the
        // generated lengths, whose zero entries agree with them.
        lemma_live_transport(freqs.literal_count@, literal_code_lens@, 286);
        lemma_live_transport(freqs.distance_count@, distance_code_lens@, 30);
        assert(dynamic_lens_valid(sub, literal_code_lens@, distance_code_lens@, clen_code_lens@));
    }

    let body_dyn = block_cost(
        &freqs,
        literal_code_lens.as_slice(),
        distance_code_lens.as_slice(),
        Ghost(sub),
    );
    let head_dyn = dynamic_header_cost(&literal_code_lens, &distance_code_lens, &clen_code_lens);
    let dynamic_cost = body_dyn + head_dyn;

    let llf = literal_fixed_codes();
    let dlf = distance_fixed_codes();
    proof {
        assert(forall|i: int| 0 <= i < 286 ==> llf@[i] <= 15) by {
            assert(forall|i: int| 0 <= i < 288 ==> llf@[i] == fixed_literal_lengths()[i]);
        }
        assert(forall|i: int| 0 <= i < 30 ==> dlf@[i] <= 15) by {
            assert(forall|i: int| 0 <= i < 32 ==> dlf@[i] == fixed_distance_lengths()[i]);
        }
    }
    let fixed_cost = 3 + block_cost(&freqs, llf.as_slice(), dlf.as_slice(), Ghost(sub));

    if dynamic_cost < fixed_cost {
        BlockInProgress {
            start,
            end,
            freqs,
            literal_code_lens,
            distance_code_lens,
            clen_code_lens,
            cost: dynamic_cost,
            is_dynamic: true,
        }
    } else {
        BlockInProgress {
            start,
            end,
            freqs,
            literal_code_lens,
            distance_code_lens,
            clen_code_lens,
            cost: fixed_cost,
            is_dynamic: false,
        }
    }
}

impl BlockInProgress {
    /// Counts one slice of the token stream and assembles its block.
    pub fn new(start: usize, end: usize, all_tokens: &[Token]) -> (b: BlockInProgress)
        requires
            start <= end <= all_tokens@.len(),
            all_tokens@.len() <= 0x4000_0000_0000,
            forall|i: int| 0 <= i < all_tokens@.len() ==> #[trigger] token_wf(all_tokens@[i]),
        ensures
            bip_wf(b, all_tokens@),
            b.start == start,
            b.end == end,
    {
        let mut counter = FreqCounter::new();
        proof {
            assert(all_tokens@.subrange(start as int, start as int) =~= Seq::<Token>::empty());
        }
        let mut t: usize = start;
        while t < end
            invariant
                start <= t <= end <= all_tokens@.len(),
                all_tokens@.len() <= 0x4000_0000_0000,
                forall|i: int| 0 <= i < all_tokens@.len() ==> #[trigger] token_wf(all_tokens@[i]),
                counter.matches(all_tokens@.subrange(start as int, t as int)),
            decreases end - t,
        {
            counter.count(&all_tokens[t], Ghost(all_tokens@.subrange(start as int, t as int)));
            proof {
                assert(all_tokens@.subrange(start as int, t + 1) =~= all_tokens@.subrange(
                    start as int,
                    t as int,
                ).push(all_tokens@[t as int]));
            }
            t += 1;
        }
        assemble_block(start, end, counter, Ghost(all_tokens@))
    }

    /// Combines two adjacent blocks: frequencies are summed (with the
    /// end-of-block count re-clamped to one) and the trees, costs and
    /// representation re-derived.
    pub fn merge(b1: &BlockInProgress, b2: &BlockInProgress, Ghost(ts): Ghost<Seq<Token>>) -> (b:
        BlockInProgress)
        requires
            bip_wf(*b1, ts),
            bip_wf(*b2, ts),
            b1.end == b2.start,
            ts.len() <= 0x4000_0000_0000,
            forall|i: int| 0 <= i < ts.len() ==> token_wf(#[trigger] ts[i]),
        ensures
            bip_wf(b, ts),
            b.start == b1.start,
            b.end == b2.end,
    {
        let ghost sub1 = ts.subrange(b1.start as int, b1.end as int);
        let ghost sub2 = ts.subrange(b2.start as int, b2.end as int);
        let ghost sub = ts.subrange(b1.start as int, b2.end as int);
        proof {
            assert(sub =~= sub1 + sub2);
        }
        let mut literal_count: Vec<u64> = Vec::new();
        let mut i: usize = 0;
        while i < 286
            invariant
                i <= 286,
                literal_count@.len() == i,
                bip_wf(*b1, ts),
                bip_wf(*b2, ts),
                sub1 == ts.subrange(b1.start as int, b1.end as int),
                sub2 == ts.subrange(b2.start as int, b2.end as int),
                ts.len() <= 0x4000_0000_0000,
                forall|s: int|
                    0 <= s < i ==> (#[trigger] literal_count@[s]) as nat == spec_lit_freq(
                        sub1,
                        s,
                    ) + spec_lit_freq(sub2, s),
            decreases 286 - i,
        {
            proof {
                lemma_lit_count_le(sub1, i as int);
                lemma_lit_count_le(sub2, i as int);
            }
            let c = b1.freqs.literal_count[i] + b2.freqs.literal_count[i];
            literal_count.push(c);
            i += 1;
        }
        literal_count[256] = 1;
        let mut distance_count: Vec<u64> = Vec::new();
        let mut j: usize = 0;
        while j < 30
            invariant
                j <= 30,
                distance_count@.len() == j,
                bip_wf(*b1, ts),
                bip_wf(*b2, ts),
                sub1 == ts.subrange(b1.start as int, b1.end as int),
                sub2 == ts.subrange(b2.start as int, b2.end as int),
                ts.len() <= 0x4000_0000_0000,
                forall|s: int|
                    0 <= s < j ==> (#[trigger] distance_count@[s]) as nat == spec_dist_freq(
                        sub1,
                        s,
                    ) + spec_dist_freq(sub2, s),
            decreases 30 - j,
        {
            proof {
                lemma_dist_count_le(sub1, j as int);
                lemma_dist_count_le(sub2, j as int);
            }
            let d = b1.freqs.distance_count[j] + b2.freqs.distance_count[j];
            distance_count.push(d);
            j += 1;
        }
        let freqs = FreqCounter { literal_count, distance_count };
        proof {
            assert forall|s: int|
                0 <= s < 286 implies (#[trigger] freqs.literal_count@[s]) as nat == spec_lit_freq(
                sub,
                s,
            ) by {
                lemma_lit_count_concat(sub1, sub2, s);
            }
            assert forall|s: int|
                0 <= s < 30 implies (#[trigger] freqs.distance_count@[s]) as nat == spec_dist_freq(
                sub,
                s,
            ) by {
                lemma_dist_count_concat(sub1, sub2, s);
            }
        }
        assemble_block(b1.start, b2.end, freqs, Ghost(ts))
    }
}

/// Copies a finished block's token range out of the stream and tags it
/// with its chosen representation.
pub fn build_block(block: BlockInProgress, all_tokens: &[Token]) -> (b: Block)
    requires
        bip_wf(block, all_tokens@),
        forall|i: int| 0 <= i < all_tokens@.len() ==> #[trigger] token_wf(all_tokens@[i]),
    ensures
        block_wf(b),
        block_tokens(b) == all_tokens@.subrange(block.start as int, block.end as int),
        b is DynamicCodes <==> block.is_dynamic,
        b matches Block::DynamicCodes {
            tokens: t2,
            literal_code_lens: l2,
            distance_code_lens: d2,
            clen_code_lens: c2,
        } ==> l2 == block.literal_code_lens && d2 == block.distance_code_lens && c2
            == block.clen_code_lens,
{
    let mut tokens: Vec<Token> = Vec::new();
    let mut t: usize = block.start;
    proof {
        assert(all_tokens@.subrange(block.start as int, block.start as int) =~= Seq::<
            Token,
        >::empty());
    }
    while t < block.end
        invariant
            block.start <= t <= block.end <= all_tokens@.len(),
            tokens@ == all_tokens@.subrange(block.start as int, t as int),
        decreases block.end - t,
    {
        tokens.push(all_tokens[t]);
        proof {
            assert(all_tokens@.subrange(block.start as int, t + 1) =~= all_tokens@.subrange(
                block.start as int,
                t as int,
            ).push(all_tokens@[t as int]));
        }
        t += 1;
    }
    proof {
        assert forall|i: int| 0 <= i < tokens@.len() implies #[trigger] token_wf(tokens@[i]) by {
            assert(tokens@[i] == all_tokens@[block.start + i]);
        }
    }
    if block.is_dynamic {
        Block::DynamicCodes {
            tokens,
            literal_code_lens: block.literal_code_lens,
            distance_code_lens: block.distance_code_lens,
            clen_code_lens: block.clen_code_lens,
        }
    } else {
        Block::FixedCodes { tokens }
    }
}

/// Slices the token stream into blocks of at most 1024 tokens, greedily
/// merging adjacent slices whenever the merged encoding is smaller.
/// The blocks partition the stream exactly, and a dynamic
/// representation is only ever chosen when it beats the fixed one.
pub fn block_split(tokens: &[Token]) -> (blocks: Vec<Block>)
    requires
        forall|i: int| 0 <= i < tokens@.len() ==> #[trigger] token_wf(tokens@[i]),
        tokens@.len() <= 0x4000_0000_0000,
        tokens@.len() + 1024 <= usize::MAX,
    ensures
        blocks_tokens(blocks@) == tokens@,
        forall|i: int| 0 <= i < blocks@.len() ==> #[trigger] block_wf(blocks@[i]),
        (tokens@.len() == 0) <==> (blocks@.len() == 0),
        forall|j: int| 0 <= j < blocks@.len() ==> block_tokens(#[trigger] blocks@[j]).len() > 0,
        forall|j: int|
            0 <= j < blocks@.len() - 1 ==> block_tokens(#[trigger] blocks@[j]).len() % 1024 == 0,
{
    let n = tokens.len();
    let mut blocks: Vec<Block> = Vec::new();
    let mut curr: Option<BlockInProgress> = None;
    let mut i: usize = 0;
    while i < n
        invariant
            n == tokens@.len(),
            n <= 0x4000_0000_0000,
            n + 1024 <= usize::MAX,
            forall|t: int| 0 <= t < n ==> #[trigger] token_wf(tokens@[t]),
            forall|t: int| 0 <= t < blocks@.len() ==> #[trigger] block_wf(blocks@[t]),
            i % 1024 == 0,
            forall|j: int|
                0 <= j < blocks@.len() ==> block_tokens(#[trigger] blocks@[j]).len() > 0
                    && block_tokens(blocks@[j]).len() % 1024 == 0,
            match curr {
                Option::None => i == 0 && blocks@.len() == 0,
                Option::Some(b) => {
                    &&& bip_wf(b, tokens@)
                    &&& b.start < b.end
                    &&& b.start % 1024 == 0
                    &&& b.end == (if i < n {
                        i as int
                    } else {
                        n as int
                    })
                    &&& blocks_tokens(blocks@) == tokens@.subrange(0, b.start as int)
                },
            },
        decreases n + 1024 - i,
    {
        let end_i = if i + 1024 < n {
            i + 1024
        } else {
            n
        };
        let next = BlockInProgress::new(i, end_i, tokens);
        let prev = curr;
        curr = Some(
            match prev {
                None => next,
                Some(b) => {
                    let combined = BlockInProgress::merge(&b, &next, Ghost(tokens@));
                    if combined.cost < b.cost + next.cost {
                        combined
                    } else {
                        let ghost blocks0 = blocks@;
                        let ghost bstart = b.start as int;
                        let blk = build_block(b, tokens);
                        blocks.push(blk);
                        proof {
                            assert(blocks@.drop_last() =~= blocks0);
                            assert(blocks@.last() == blk);
                            assert(tokens@.subrange(0, bstart) + tokens@.subrange(bstart, i as int)
                                =~= tokens@.subrange(0, i as int));
                            assert forall|t: int|
                                0 <= t < blocks@.len() implies #[trigger] block_wf(blocks@[t]) by {
                                if t < blocks0.len() {
                                    assert(blocks@[t] == blocks0[t]);
                                }
                            }
                        }
                        next
                    }
                },
            },
        );
        i += 1024;
    }
    let prev = curr;
    if let Some(b) = prev {
        let ghost blocks0 = blocks@;
        let ghost bstart = b.start as int;
        let blk = build_block(b, tokens);
        blocks.push(blk);
        proof {
            assert(blocks@.drop_last() =~= blocks0);
            assert(blocks@.last() == blk);
            assert(tokens@.subrange(0, bstart) + tokens@.subrange(bstart, n as int)
                =~= tokens@.subrange(0, n as int));
            assert(tokens@.subrange(0, n as int) =~= tokens@);
            assert forall|t: int|
                0 <= t < blocks@.len() implies #[trigger] block_wf(blocks@[t]) by {
                if t < blocks0.len() {
                    assert(blocks@[t] == blocks0[t]);
                }
            }
        }
    } else {
        proof {
            assert(tokens@.subrange(0, 0) =~= Seq::<Token>::empty());
            assert(blocks_tokens(blocks@) =~= tokens@);
        }
    }
    blocks
}

} // verus!
