//! Huffman utilities: canonical code generation from code lengths and
//! length-limited code-length assignment from symbol weights.

use std::collections::VecDeque;

use vstd::prelude::*;
use vstd::arithmetic::power2::pow2;
use vstd::arithmetic::power2::lemma_pow2_unfold;
use vstd::arithmetic::power2::lemma_pow2_adds;
use vstd::arithmetic::power2::lemma_pow2_pos;
use vstd::arithmetic::power2::lemma_pow2_strictly_increases;
use vstd::arithmetic::power2::lemma2_to64;
use vstd::arithmetic::div_mod::lemma_div_denominator;
use vstd::bits::lemma_u64_shl_is_mul;
use vstd::bits::lemma_usize_shl_is_mul;

verus! {

broadcast use vstd::std_specs::vecdeque::group_vec_dequeue_axioms;

/// One canonical Huffman code: `code` holds exactly `length` significant
/// bits, already bit-reversed so that they are emitted LSB-first.
/// `length == 0` marks an unused symbol.
#[derive(Clone, Copy, Debug, PartialEq, Eq, Structural)]
pub struct HuffmanCode {
    pub code: u32,
    pub length: u8,
}

pub type Tree = Vec<HuffmanCode>;

/// Number of positions `j` in `[0, k)` with `lengths[j] == l`.
pub open spec fn count_upto(lengths: Seq<u8>, l: int, k: int) -> nat
    decreases k,
{
    if k <= 0 {
        0
    } else {
        count_upto(lengths, l, k - 1) + (if 0 <= k - 1 < lengths.len() && lengths[k - 1] == l {
            1nat
        } else {
            0nat
        })
    }
}

/// Number of symbols whose code length is exactly `l`.
pub open spec fn count_len(lengths: Seq<u8>, l: int) -> nat {
    count_upto(lengths, l, lengths.len() as int)
}

/// First canonical code of each length, per RFC 1951:
/// `next_code[l] = (next_code[l-1] + count[l-1]) << 1`, with length 0
/// contributing no codes.  Kept modulo 2^16; for any length vector that
/// satisfies the Kraft inequality the reduction never takes effect.
pub open spec fn next_code_spec(lengths: Seq<u8>, l: int) -> nat
    decreases l,
{
    if l <= 1 {
        0
    } else {
        ((next_code_spec(lengths, l - 1) + count_len(lengths, l - 1)) * 2) % 0x10000
    }
}

/// Canonical (not yet bit-reversed) code of symbol `i`: the first code of
/// its length plus its rank among same-length symbols of smaller index.
pub open spec fn canonical_code(lengths: Seq<u8>, i: int) -> nat
    recommends
        0 <= i < lengths.len(),
{
    next_code_spec(lengths, lengths[i] as int) + count_upto(lengths, lengths[i] as int, i)
}

/// The low `n` bits of `c`, in reverse order.
pub open spec fn rev_bits(c: nat, n: nat) -> nat
    decreases n,
{
    if n == 0 {
        0
    } else {
        (c % 2) * pow2((n - 1) as nat) + rev_bits(c / 2, (n - 1) as nat)
    }
}

/// The canonical tree for a length vector: the exact value `calc_codes`
/// must return for every symbol.
pub open spec fn tree_of(lengths: Seq<u8>) -> Seq<HuffmanCode> {
    Seq::new(
        lengths.len(),
        |i: int|
            (HuffmanCode {
                code: rev_bits(canonical_code(lengths, i), lengths[i] as nat) as u32,
                length: lengths[i],
            }),
    )
}

pub proof fn lemma_rev_bits_bound(c: nat, n: nat)
    ensures
        rev_bits(c, n) < pow2(n),
    decreases n,
{
    if n == 0 {
        assert(pow2(0) == 1) by {
            vstd::arithmetic::power2::lemma2_to64();
        }
    } else {
        lemma_rev_bits_bound(c / 2, (n - 1) as nat);
        lemma_pow2_unfold(n);
        if c % 2 == 0 {
            assert((c % 2) * pow2((n - 1) as nat) == 0);
        } else {
            assert(c % 2 == 1);
            assert((c % 2) * pow2((n - 1) as nat) == pow2((n - 1) as nat));
        }
    }
}

/// Peeling one more bit onto a reversal appends it at the bottom:
/// `rev(c, k+1) == 2 * rev(c, k) + bit_k(c)`.
pub proof fn lemma_rev_bits_step(c: nat, k: nat)
    ensures
        rev_bits(c, (k + 1) as nat) == 2 * rev_bits(c, k) + (c / pow2(k)) % 2,
    decreases k,
{
    if k == 0 {
        assert(pow2(0) == 1) by {
            vstd::arithmetic::power2::lemma2_to64();
        }
        assert(rev_bits(c, 1) == (c % 2) * pow2(0) + rev_bits(c / 2, 0));
        let b = c % 2;
        assert(b == 0 || b == 1);
        if b == 0 {
            assert(b * pow2(0) == 0);
        } else {
            assert(b * pow2(0) == pow2(0));
        }
        assert(rev_bits(c, 0) == 0);
        assert(c / pow2(0) == c);
    } else {
        lemma_rev_bits_step(c / 2, (k - 1) as nat);
        lemma_pow2_unfold(k);
        lemma_pow2_pos((k - 1) as nat);
        lemma_div_denominator(c as int, 2, pow2((k - 1) as nat) as int);
        assert((c / 2) / pow2((k - 1) as nat) == c / pow2(k));
        let b = c % 2;
        assert(b == 0 || b == 1);
        assert(rev_bits(c, (k + 1) as nat) == b * pow2(k) + rev_bits(c / 2, k));
        assert(rev_bits(c, k) == b * pow2((k - 1) as nat) + rev_bits(c / 2, (k - 1) as nat));
        if b == 0 {
            assert(b * pow2(k) == 0 && b * pow2((k - 1) as nat) == 0);
        } else {
            assert(b * pow2(k) == pow2(k) && b * pow2((k - 1) as nat) == pow2((k - 1) as nat));
        }
        assert(2 * rev_bits(c, k) == b * pow2(k) + 2 * rev_bits(c / 2, (k - 1) as nat));
    }
}

/// The count of any value among the first `k` entries is at most `k`.
pub proof fn lemma_count_upto_le(lengths: Seq<u8>, l: int, k: int)
    ensures
        count_upto(lengths, l, k) <= (if k <= 0 { 0int } else { k }),
    decreases k,
{
    if k > 0 {
        lemma_count_upto_le(lengths, l, k - 1);
    }
}

/// Builds the canonical Huffman codes for a vector of code lengths,
/// already bit-reversed for LSB-first emission.  Unused symbols
/// (length 0) get the code `(0, 0)`.
pub fn calc_codes(lengths: &[u8]) -> (codes: Vec<HuffmanCode>)
    requires
        lengths@.len() <= 65536,
        forall|i: int| 0 <= i < lengths@.len() ==> lengths@[i] <= 15,
    ensures
        codes@ == tree_of(lengths@),
{
    let n = lengths.len();

    // Count symbols of each length.
    let mut bl_count: Vec<u32> = Vec::new();
    let mut l: usize = 0;
    while l < 16
        invariant
            bl_count@.len() == l,
            l <= 16,
            forall|t: int| 0 <= t < l ==> bl_count@[t] == 0,
        decreases 16 - l,
    {
        bl_count.push(0);
        l += 1;
    }
    let mut j: usize = 0;
    while j < n
        invariant
            n == lengths@.len(),
            n <= 65536,
            j <= n,
            bl_count@.len() == 16,
            forall|i: int| 0 <= i < n ==> lengths@[i] <= 15,
            forall|t: int| 0 <= t < 16 ==> bl_count@[t] == count_upto(lengths@, t, j as int),
        decreases n - j,
    {
        let bl = lengths[j] as usize;
        proof {
            lemma_count_upto_le(lengths@, bl as int, j as int);
        }
        let c = bl_count[bl];
        bl_count[bl] = c + 1;
        j += 1;
    }

    // First code of each length.
    proof {
        assert forall|t: int| 1 <= t < 16 implies bl_count@[t] <= 65536 by {
            lemma_count_upto_le(lengths@, t, n as int);
        }
    }
    bl_count[0] = 0;
    let mut next_code: Vec<u32> = Vec::new();
    let mut l2: usize = 0;
    while l2 < 16
        invariant
            next_code@.len() == l2,
            l2 <= 16,
            forall|t: int| 0 <= t < l2 ==> next_code@[t] == 0,
            bl_count@.len() == 16,
            bl_count@[0] == 0,
            forall|t: int| 1 <= t < 16 ==> bl_count@[t] == count_len(lengths@, t),
            forall|t: int| 1 <= t < 16 ==> bl_count@[t] <= 65536,
        decreases 16 - l2,
    {
        next_code.push(0);
        l2 += 1;
    }
    let mut code: u32 = 0;
    let mut bl: usize = 1;
    while bl < 16
        invariant
            1 <= bl <= 16,
            bl_count@.len() == 16,
            next_code@.len() == 16,
            bl_count@[0] == 0,
            forall|t: int| 1 <= t < 16 ==> bl_count@[t] == count_len(lengths@, t),
            forall|t: int| 1 <= t < 16 ==> bl_count@[t] <= 65536,
            code == next_code_spec(lengths@, bl as int - 1),
            code < 0x10000,
            next_code@[0] == 0,
            forall|t: int| 1 <= t < bl ==> next_code@[t] == next_code_spec(lengths@, t),
        decreases 16 - bl,
    {
        let s: u32 = code + bl_count[bl - 1];
        let t: u32 = (s << 1u32) & 0xFFFF;
        assert(t == ((s as int) * 2) % 0x10000 && t < 0x10000) by (bit_vector)
            requires
                s < 0x20000u32,
                t == (s << 1u32) & 0xFFFF,
        ;
        code = t;
        next_code[bl] = code;
        bl += 1;
    }

    // Assign canonical codes in symbol order.
    let mut raw: Vec<u32> = Vec::new();
    let mut i: usize = 0;
    while i < n
        invariant
            n == lengths@.len(),
            n <= 65536,
            i <= n,
            next_code@.len() == 16,
            forall|k: int| 0 <= k < n ==> lengths@[k] <= 15,
            forall|t: int|
                0 <= t < 16 ==> next_code@[t] == next_code_spec(lengths@, t) + count_upto(
                    lengths@,
                    t,
                    i as int,
                ),
            forall|t: int| 0 <= t < 16 ==> next_code_spec(lengths@, t) < 0x10000,
            raw@.len() == i,
            forall|k: int| 0 <= k < i ==> raw@[k] == canonical_code(lengths@, k),
        decreases n - i,
    {
        let l3 = lengths[i] as usize;
        proof {
            lemma_count_upto_le(lengths@, l3 as int, i as int);
        }
        let c = next_code[l3];
        raw.push(c);
        next_code[l3] = c + 1;
        i += 1;
    }

    // Bit-reverse each code within its own length.
    let mut codes: Vec<HuffmanCode> = Vec::new();
    let mut i2: usize = 0;
    while i2 < n
        invariant
            n == lengths@.len(),
            i2 <= n,
            raw@.len() == n,
            forall|k: int| 0 <= k < n ==> lengths@[k] <= 15,
            forall|k: int| 0 <= k < n ==> raw@[k] == canonical_code(lengths@, k),
            codes@.len() == i2,
            forall|k: int| 0 <= k < i2 ==> codes@[k] == tree_of(lengths@)[k],
        decreases n - i2,
    {
        let len_bits = lengths[i2];
        let orig: u32 = raw[i2];
        let mut c: u32 = orig;
        let mut rev: u32 = 0;
        let mut k: u8 = 0;
        proof {
            assert(pow2(0) == 1) by {
                vstd::arithmetic::power2::lemma2_to64();
            }
        }
        while k < len_bits
            invariant
                len_bits <= 15,
                k <= len_bits,
                c == orig as nat / pow2(k as nat),
                rev == rev_bits(orig as nat, k as nat),
            decreases len_bits - k,
        {
            proof {
                lemma_rev_bits_step(orig as nat, k as nat);
                lemma_rev_bits_bound(orig as nat, k as nat);
                vstd::arithmetic::power2::lemma2_to64();
                vstd::arithmetic::power2::lemma_pow2_strictly_increases(k as nat, 15);
                vstd::bits::lemma_u32_shr_is_div(c, 1);
                lemma_pow2_unfold((k + 1) as nat);
                lemma_pow2_pos(k as nat);
                lemma_div_denominator(orig as int, pow2(k as nat) as int, 2);
            }
            let b: u32 = c & 1;
            assert(b == (c as int) % 2) by (bit_vector)
                requires
                    b == c & 1u32,
            ;
            let r2: u32 = (rev << 1u32) | b;
            assert(r2 == (rev as int) * 2 + b) by (bit_vector)
                requires
                    rev < 0x8000u32,
                    b < 2u32,
                    r2 == (rev << 1u32) | b,
            ;
            rev = r2;
            c = c >> 1u32;
            k += 1;
        }
        codes.push(HuffmanCode { code: rev, length: len_bits });
        proof {
            lemma_rev_bits_bound(orig as nat, len_bits as nat);
            assert(codes@[i2 as int] == tree_of(lengths@)[i2 as int]);
        }
        i2 += 1;
    }
    proof {
        assert(codes@ =~= tree_of(lengths@));
    }
    codes
}

/// A tree whose codes all fit within their own (at most 15-bit) lengths.
pub open spec fn tree_codes_wf(t: Seq<HuffmanCode>) -> bool {
    forall|i: int|
        0 <= i < t.len() ==> (#[trigger] t[i]).length <= 15 && (t[i].code as nat) < pow2(
            t[i].length as nat,
        )
}

/// Every canonical tree built from lengths of at most 15 bits is
/// well-formed in the sense of `tree_codes_wf`.
pub proof fn lemma_tree_of_wf(lengths: Seq<u8>)
    requires
        forall|i: int| 0 <= i < lengths.len() ==> lengths[i] <= 15,
    ensures
        tree_codes_wf(tree_of(lengths)),
{
    let t = tree_of(lengths);
    assert forall|i: int|
        0 <= i < t.len() implies (#[trigger] t[i]).length <= 15 && (t[i].code as nat) < pow2(
        t[i].length as nat,
    ) by {
        lemma_rev_bits_bound(canonical_code(lengths, i), lengths[i] as nat);
        lemma2_to64();
        if (lengths[i] as nat) < 15 {
            lemma_pow2_strictly_increases(lengths[i] as nat, 15);
        }
        assert(rev_bits(canonical_code(lengths, i), lengths[i] as nat) < 0x8000);
    }
}

/// The RFC 1951 fixed literal/length code lengths: 8 bits for symbols
/// 0..143, 9 for 144..255, 7 for 256..279 and 8 for 280..287.
pub open spec fn fixed_literal_lengths() -> Seq<u8> {
    Seq::new(
        288,
        |i: int|
            if i < 144 {
                8u8
            } else if i < 256 {
                9u8
            } else if i < 280 {
                7u8
            } else {
                8u8
            },
    )
}

/// The RFC 1951 fixed distance code lengths: 5 bits for all 32 codes.
pub open spec fn fixed_distance_lengths() -> Seq<u8> {
    Seq::new(32, |i: int| 5u8)
}

/// The fixed literal/length code lengths as a vector.
pub fn literal_fixed_codes() -> (r: Vec<u8>)
    ensures
        r@ == fixed_literal_lengths(),
{
    let mut r: Vec<u8> = Vec::new();
    let mut i: usize = 0;
    while i < 288
        invariant
            r@.len() == i,
            i <= 288,
            forall|j: int| 0 <= j < i ==> r@[j] == fixed_literal_lengths()[j],
        decreases 288 - i,
    {
        if i < 144 {
            r.push(8);
        } else if i < 256 {
            r.push(9);
        } else if i < 280 {
            r.push(7);
        } else {
            r.push(8);
        }
        i += 1;
    }
    proof {
        assert(r@ =~= fixed_literal_lengths());
    }
    r
}

/// The fixed distance code lengths as a vector.
pub fn distance_fixed_codes() -> (r: Vec<u8>)
    ensures
        r@ == fixed_distance_lengths(),
{
    let mut r: Vec<u8> = Vec::new();
    let mut i: usize = 0;
    while i < 32
        invariant
            r@.len() == i,
            i <= 32,
            forall|j: int| 0 <= j < i ==> r@[j] == 5,
        decreases 32 - i,
    {
        r.push(5);
        i += 1;
    }
    proof {
        assert(r@ =~= fixed_distance_lengths());
    }
    r
}

/// Errors of the code-length generator.
#[derive(Clone, Copy, Debug, PartialEq, Eq, Structural)]
pub enum HuffmanError {
    /// The requested length bound admits fewer codes than there are live symbols.
    LengthLimitInfeasible,
}

/// Number of nonzero weights among the first `k`.
pub open spec fn live_upto(weights: Seq<u64>, k: int) -> nat
    decreases k,
{
    if k <= 0 {
        0
    } else {
        live_upto(weights, k - 1) + (if 0 <= k - 1 < weights.len() && weights[k - 1] != 0 {
            1nat
        } else {
            0nat
        })
    }
}

/// Number of symbols with nonzero weight.
pub open spec fn live_count(weights: Seq<u64>) -> nat {
    live_upto(weights, weights.len() as int)
}

/// Kraft sum of the first `k` code lengths, scaled by `2^l`: a live symbol
/// of length `len` contributes `2^(l - len)`.
pub open spec fn kraft_upto(lens: Seq<u8>, l: nat, k: int) -> nat
    decreases k,
{
    if k <= 0 {
        0
    } else {
        kraft_upto(lens, l, k - 1) + (if 0 <= k - 1 < lens.len() && 0 < lens[k - 1] <= l {
            pow2((l - lens[k - 1]) as nat)
        } else {
            0nat
        })
    }
}

/// Scaled Kraft sum of a whole length vector.  The Kraft inequality holds
/// with equality exactly when this equals `2^l`.
pub open spec fn kraft_sum(lens: Seq<u8>, l: nat) -> nat {
    kraft_upto(lens, l, lens.len() as int)
}

proof fn lemma_live_upto_zero(weights: Seq<u64>, k: int)
    requires
        live_upto(weights, k) == 0,
    ensures
        forall|j: int| 0 <= j < k && j < weights.len() ==> weights[j] == 0,
    decreases k,
{
    if k > 0 {
        lemma_live_upto_zero(weights, k - 1);
    }
}

/// Number of nonzero code lengths among the first `k`.
pub open spec fn live_lens_upto(lens: Seq<u8>, k: int) -> nat
    decreases k,
{
    if k <= 0 {
        0
    } else {
        live_lens_upto(lens, k - 1) + (if 0 <= k - 1 < lens.len() && lens[k - 1] != 0 {
            1nat
        } else {
            0nat
        })
    }
}

/// Number of symbols with a nonzero code length.
pub open spec fn live_lens(lens: Seq<u8>) -> nat {
    live_lens_upto(lens, lens.len() as int)
}

/// A length vector that is zero exactly on the zero weights has as many
/// live codes as there are live weights.
pub proof fn lemma_live_transport(w: Seq<u64>, lens: Seq<u8>, k: int)
    requires
        lens.len() == w.len(),
        forall|i: int| 0 <= i < w.len() ==> ((lens[i] == 0) <==> (w[i] == 0)),
    ensures
        live_upto(w, k) == live_lens_upto(lens, k),
    decreases k,
{
    if k > 0 {
        lemma_live_transport(w, lens, k - 1);
    }
}

/// There are at most as many live symbols as symbols.
pub proof fn lemma_live_count_le(weights: Seq<u64>, k: int)
    ensures
        live_upto(weights, k) <= (if k <= 0 { 0int } else { k }),
    decreases k,
{
    if k > 0 {
        lemma_live_count_le(weights, k - 1);
    }
}

proof fn lemma_live_upto_le(weights: Seq<u64>, k1: int, k2: int)
    requires
        k1 <= k2,
    ensures
        live_upto(weights, k1) <= live_upto(weights, k2),
    decreases k2,
{
    if k2 > k1 && k2 > 0 {
        lemma_live_upto_le(weights, k1, k2 - 1);
    }
}

/// Two length vectors that agree below `k` have the same partial Kraft sum.
proof fn lemma_kraft_upto_agrees(s1: Seq<u8>, s2: Seq<u8>, l: nat, k: int)
    requires
        k <= s1.len(),
        k <= s2.len(),
        forall|j: int| 0 <= j < k ==> s1[j] == s2[j],
    ensures
        kraft_upto(s1, l, k) == kraft_upto(s2, l, k),
    decreases k,
{
    if k > 0 {
        lemma_kraft_upto_agrees(s1, s2, l, k - 1);
    }
}

/// One package of the package-merge construction: a combined weight and
/// the (multiset of) symbol indices whose unit lengths it stands for.
struct Package {
    weight: u64,
    contents: Vec<usize>,
}

/// Merges two weight-descending package lists into one, lightest compared
/// from the back as the package-merge algorithm walks its levels.
fn merge_package_lists(a: VecDeque<Package>, b: VecDeque<Package>) -> VecDeque<Package> {
    let mut a = a;
    let mut b = b;
    let mut res: VecDeque<Package> = VecDeque::new();
    while a.len() > 0 && b.len() > 0
        decreases a@.len() + b@.len(),
    {
        let take_a = a[a.len() - 1].weight < b[b.len() - 1].weight;
        if take_a {
            if let Some(p) = a.pop_back() {
                res.push_front(p);
            }
        } else {
            if let Some(p) = b.pop_back() {
                res.push_front(p);
            }
        }
    }
    while a.len() > 0
        decreases a@.len(),
    {
        if let Some(p) = a.pop_back() {
            res.push_front(p);
        }
    }
    while b.len() > 0
        decreases b@.len(),
    {
        if let Some(p) = b.pop_back() {
            res.push_front(p);
        }
    }
    res
}

/// Pairs adjacent lightest packages into combined packages; an unpaired
/// heaviest leftover is dropped.
fn package_pairs(v: VecDeque<Package>) -> VecDeque<Package> {
    let mut v = v;
    let mut res: VecDeque<Package> = VecDeque::new();
    let pairs = v.len() / 2;
    let mut step: usize = 0;
    while step < pairs
        invariant
            step <= pairs,
        decreases pairs - step,
    {
        let p0 = v.pop_back();
        let p1 = v.pop_back();
        if let (Some(mut p0), Some(mut p1)) = (p0, p1) {
            let w = if u64::MAX - p0.weight < p1.weight {
                u64::MAX
            } else {
                p0.weight + p1.weight
            };
            p0.contents.append(&mut p1.contents);
            res.push_front(Package { weight: w, contents: p0.contents });
        }
        step += 1;
    }
    res
}

/// Copies a package list; the clone is element-for-element the same.
fn clone_package_list(v: &VecDeque<Package>) -> VecDeque<Package> {
    let mut res: VecDeque<Package> = VecDeque::new();
    let mut i: usize = 0;
    while i < v.len()
        invariant
            i <= v@.len(),
        decreases v@.len() - i,
    {
        let p = &v[i];
        let mut contents: Vec<usize> = Vec::new();
        let mut j: usize = 0;
        while j < p.contents.len()
            invariant
                j <= p.contents@.len(),
                i < v@.len(),
                p == v@[i as int],
            decreases p.contents@.len() - j,
        {
            contents.push(p.contents[j]);
            j += 1;
        }
        res.push_back(Package { weight: p.weight, contents });
        i += 1;
    }
    res
}

/// Package-merge candidate generator (the coin-collector form): walks the
/// binary digits of `(live - 1) << l`, merging one level of singleton
/// symbols per round and popping the lightest package at each set bit.
/// The caller validates the result; this function only promises shape.
fn package_merge_candidate(weights: &[u64], l: u8, live: usize) -> (lens: Vec<u8>)
    requires
        1 <= l <= 15,
        weights@.len() <= 65536,
        2 <= live <= weights@.len(),
    ensures
        lens@.len() == weights@.len(),
{
    let n = weights.len();

    // Live symbols, stably ordered by descending weight.
    let mut order: Vec<usize> = Vec::new();
    let mut i: usize = 0;
    while i < n
        invariant
            n == weights@.len(),
            i <= n,
            forall|k: int| 0 <= k < order@.len() ==> order@[k] < n,
        decreases n - i,
    {
        if weights[i] != 0 {
            let mut pos: usize = 0;
            while pos < order.len() && weights[order[pos]] >= weights[i]
                invariant
                    n == weights@.len(),
                    i < n,
                    pos <= order@.len(),
                    forall|k: int| 0 <= k < order@.len() ==> order@[k] < n,
                decreases order@.len() - pos,
            {
                pos += 1;
            }
            let ghost old_order = order@;
            order.insert(pos, i);
            proof {
                assert forall|k: int| 0 <= k < order@.len() implies order@[k] < n by {
                    if k < pos {
                        assert(order@[k] == old_order[k]);
                    } else if k == pos {
                        assert(order@[k] == i as usize);
                    } else {
                        assert(order@[k] == old_order[k - 1]);
                    }
                }
            }
        }
        i += 1;
    }

    let mut new_level: VecDeque<Package> = VecDeque::new();
    let mut k: usize = 0;
    while k < order.len()
        invariant
            k <= order@.len(),
            n == weights@.len(),
            forall|t: int| 0 <= t < order@.len() ==> order@[t] < n,
        decreases order@.len() - k,
    {
        let idx = order[k];
        let mut contents: Vec<usize> = Vec::new();
        contents.push(idx);
        new_level.push_back(Package { weight: weights[idx], contents });
        k += 1;
    }

    let mut out: Vec<u8> = Vec::new();
    let mut z: usize = 0;
    while z < n
        invariant
            out@.len() == z,
            z <= n,
        decreases n - z,
    {
        out.push(0);
        z += 1;
    }

    let mut x: usize = (live - 1) << (l as usize);
    let mut levels_left: u8 = l;
    let mut curr: VecDeque<Package> = VecDeque::new();
    while x > 0
        invariant
            out@.len() == n,
        decreases x,
    {
        if levels_left > 0 {
            let copy = clone_package_list(&new_level);
            curr = merge_package_lists(curr, copy);
            levels_left -= 1;
        }
        if x & 1 == 1 {
            if let Some(p) = curr.pop_back() {
                let mut ci: usize = 0;
                while ci < p.contents.len()
                    invariant
                        out@.len() == n,
                        ci <= p.contents@.len(),
                    decreases p.contents@.len() - ci,
                {
                    let e = p.contents[ci];
                    // Every content index is a live symbol below `n`, and no
                    // symbol collects more unit lengths than there are levels;
                    // neither bound is relied on here, since the validation
                    // pass rejects any assignment that is out of shape.
                    if e < n && out[e] != 255 {
                        let o = out[e];
                        out[e] = o + 1;
                    }
                    ci += 1;
                }
            }
        }
        curr = package_pairs(curr);
        proof {
            vstd::bits::lemma_usize_shr_is_div(x, 1);
            lemma2_to64();
            assert(x >> 1usize == x / 2);
        }
        x = x >> 1usize;
    }
    out
}

/// Checks that a candidate length vector is a valid length-limited code:
/// live symbols get lengths in `[1, l]`, dead symbols get 0, and the
/// Kraft sum comes out exactly `2^l`.
fn lengths_valid(weights: &[u64], l: u8, lens: &Vec<u8>) -> (ok: bool)
    requires
        1 <= l <= 15,
        weights@.len() <= 65536,
        lens@.len() == weights@.len(),
    ensures
        ok ==> {
            &&& forall|i: int|
                0 <= i < weights@.len() ==> ((lens@[i] == 0) <==> (weights@[i] == 0))
            &&& forall|i: int| 0 <= i < weights@.len() ==> lens@[i] <= l
            &&& kraft_sum(lens@, l as nat) == pow2(l as nat)
        },
{
    let n = weights.len();
    let mut ksum: u64 = 0;
    let mut i: usize = 0;
    while i < n
        invariant
            n == weights@.len(),
            n <= 65536,
            lens@.len() == n,
            i <= n,
            1 <= l <= 15,
            forall|j: int| 0 <= j < i ==> ((lens@[j] == 0) <==> (weights@[j] == 0)),
            forall|j: int| 0 <= j < i ==> lens@[j] <= l,
            ksum == kraft_upto(lens@, l as nat, i as int),
            ksum <= i * 16384,
        decreases n - i,
    {
        let le = lens[i];
        let w = weights[i];
        if (le == 0) != (w == 0) {
            return false;
        }
        if le > l {
            return false;
        }
        if le > 0 {
            let sh: u64 = (l - le) as u64;
            proof {
                lemma2_to64();
                if sh < 14 {
                    lemma_pow2_strictly_increases(sh as nat, 14);
                }
                assert(pow2(sh as nat) <= 16384);
                lemma_u64_shl_is_mul(1u64, sh);
            }
            let term: u64 = 1u64 << sh;
            ksum = ksum + term;
        }
        i += 1;
    }
    proof {
        lemma2_to64();
        if l < 15 {
            lemma_pow2_strictly_increases(l as nat, 15);
        }
        assert(pow2(l as nat) <= 32768);
        lemma_u64_shl_is_mul(1u64, l as u64);
    }
    ksum == (1u64 << (l as u64))
}

/// A provably Kraft-exact fallback: with `c` the smallest length such that
/// `2^c` covers all live symbols, gives `2^c - live` of them length
/// `c - 1` and the rest length `c`.
fn balanced_lengths(weights: &[u64], l: u8, live: usize) -> (lens: Vec<u8>)
    requires
        1 <= l <= 15,
        weights@.len() <= 65536,
        live == live_count(weights@),
        2 <= live,
        live <= pow2(l as nat),
    ensures
        lens@.len() == weights@.len(),
        forall|i: int| 0 <= i < weights@.len() ==> ((lens@[i] == 0) <==> (weights@[i] == 0)),
        forall|i: int| 0 <= i < weights@.len() ==> lens@[i] <= l,
        kraft_sum(lens@, l as nat) == pow2(l as nat),
{
    let n = weights.len();
    proof {
        lemma2_to64();
        lemma_usize_shl_is_mul(1usize, 1usize);
    }
    let mut c: u8 = 1;
    while (1usize << (c as usize)) < live
        invariant
            1 <= c <= l,
            l <= 15,
            live <= pow2(l as nat),
            live <= 65536,
            pow2((c - 1) as nat) < live,
            (1usize << (c as usize)) == pow2(c as nat),
        decreases l - c,
    {
        proof {
            if c >= l {
                if c > l {
                    lemma_pow2_strictly_increases(l as nat, c as nat);
                }
                assert(false);
            }
            lemma2_to64();
            lemma_pow2_strictly_increases((c + 1) as nat, 16);
            lemma_usize_shl_is_mul(1usize, (c + 1) as usize);
        }
        c += 1;
    }
    let s: usize = (1usize << (c as usize)) - live;
    proof {
        lemma_pow2_unfold(c as nat);
        assert(s < live);
        if s > 0 {
            if c == 1 {
                assert(pow2(1) == 2) by {
                    lemma2_to64();
                }
                assert(false);
            }
        }
    }

    let ghost lc = (l - c) as nat;
    let mut lens: Vec<u8> = Vec::new();
    let mut done: usize = 0;
    let mut i: usize = 0;
    proof {
        assert(kraft_upto(lens@, l as nat, 0) == 0);
        assert(2 * 0 * pow2(lc) == 0) by (nonlinear_arith);
    }
    while i < n
        invariant
            n == weights@.len(),
            n <= 65536,
            i <= n,
            1 <= c <= l <= 15,
            lc == (l - c) as nat,
            s == pow2(c as nat) - live,
            s < live,
            s > 0 ==> c >= 2,
            lens@.len() == i,
            done == live_upto(weights@, i as int),
            done <= live,
            live == live_count(weights@),
            forall|j: int| 0 <= j < i ==> ((lens@[j] == 0) <==> (weights@[j] == 0)),
            forall|j: int| 0 <= j < i ==> lens@[j] <= l,
            kraft_upto(lens@, l as nat, i as int) == (if done <= s {
                2 * done * pow2(lc)
            } else {
                (done + s) * pow2(lc)
            }),
        decreases n - i,
    {
        let ghost old_lens = lens@;
        let ghost old_done = done as int;
        if weights[i] != 0 {
            proof {
                lemma_live_upto_le(weights@, i as int + 1, n as int);
            }
            if done < s {
                lens.push(c - 1);
            } else {
                lens.push(c);
            }
            done += 1;
        } else {
            lens.push(0);
        }
        i += 1;
        proof {
            lemma_kraft_upto_agrees(old_lens, lens@, l as nat, i as int - 1);
            lemma_pow2_unfold((lc + 1) as nat);
            let p = pow2(lc) as int;
            assert((old_done + 1) * p == old_done * p + p) by (nonlinear_arith);
            assert(2 * (old_done + 1) * p == 2 * old_done * p + 2 * p) by (nonlinear_arith);
            assert((old_done + 1 + s) * p == (old_done + s) * p + p) by (nonlinear_arith);
            if weights@[i - 1] != 0 && old_done < s as int {
                assert(lens@[i - 1] == c - 1);
                assert(0 < c - 1 || c == 1);
                if c == 1 {
                    assert(s == 0);
                    assert(false);
                }
                assert((l - (c - 1)) as nat == lc + 1);
            }
            if old_done == s as int && weights@[i - 1] != 0 {
                assert(2 * old_done * p == (old_done + s) * p) by (nonlinear_arith)
                    requires
                        old_done == s as int,
                ;
            }
        }
    }
    proof {
        assert(done == live);
        assert(done > s);
        let p = pow2(lc) as int;
        assert((live + s) * p == (pow2(c as nat)) * p) by (nonlinear_arith)
            requires
                live + s == pow2(c as nat),
        ;
        lemma_pow2_adds(c as nat, lc);
        assert((c as nat) + lc == l as nat);
    }
    lens
}

/// Computes length-limited Huffman code lengths for the given weights,
/// bounded by `l` bits, with the package-merge algorithm.
///
/// On success, dead symbols get length 0, live symbols get a length in
/// `[1, l]`, and with two or more live symbols the Kraft inequality holds
/// with equality.  A single live symbol gets length 1.  The only failure
/// is a length bound too small for the number of live symbols.
pub fn gen_lengths(weights: &[u64], l: u8) -> (r: Result<Vec<u8>, HuffmanError>)
    requires
        1 <= l <= 15,
        weights@.len() <= 65536,
    ensures
        match r {
            Ok(lens) => {
                &&& lens@.len() == weights@.len()
                &&& forall|i: int|
                    0 <= i < weights@.len() ==> ((lens@[i] == 0) <==> (weights@[i] == 0))
                &&& forall|i: int| 0 <= i < weights@.len() ==> lens@[i] <= l
                &&& live_count(weights@) <= pow2(l as nat)
                &&& (live_count(weights@) >= 2 ==> kraft_sum(lens@, l as nat) == pow2(l as nat))
                &&& (live_count(weights@) == 1 ==> forall|i: int|
                    0 <= i < weights@.len() && weights@[i] != 0 ==> lens@[i] == 1)
            },
            Err(e) => {
                &&& e == HuffmanError::LengthLimitInfeasible
                &&& live_count(weights@) > pow2(l as nat)
            },
        },
{
    let n = weights.len();
    let mut live: usize = 0;
    let mut i: usize = 0;
    while i < n
        invariant
            n == weights@.len(),
            i <= n,
            live == live_upto(weights@, i as int),
            live <= i,
        decreases n - i,
    {
        if weights[i] != 0 {
            live += 1;
        }
        i += 1;
    }

    if live == 0 {
        proof {
            lemma_live_upto_zero(weights@, n as int);
            lemma_pow2_pos(l as nat);
        }
        let mut lens: Vec<u8> = Vec::new();
        let mut z: usize = 0;
        while z < n
            invariant
                lens@.len() == z,
                z <= n,
                forall|j: int| 0 <= j < z ==> lens@[j] == 0,
            decreases n - z,
        {
            lens.push(0);
            z += 1;
        }
        return Ok(lens);
    }

    if live == 1 {
        proof {
            lemma_pow2_pos(l as nat);
        }
        let mut lens: Vec<u8> = Vec::new();
        let mut z: usize = 0;
        while z < n
            invariant
                n == weights@.len(),
                lens@.len() == z,
                z <= n,
                forall|j: int| 0 <= j < z ==> ((lens@[j] == 0) <==> (weights@[j] == 0)),
                forall|j: int| 0 <= j < z ==> lens@[j] <= 1,
                forall|j: int| 0 <= j < z && weights@[j] != 0 ==> lens@[j] == 1,
            decreases n - z,
        {
            if weights[z] != 0 {
                lens.push(1);
            } else {
                lens.push(0);
            }
            z += 1;
        }
        return Ok(lens);
    }

    proof {
        lemma2_to64();
        lemma_pow2_strictly_increases(l as nat, 16);
        lemma_usize_shl_is_mul(1usize, l as usize);
    }
    if live > (1usize << (l as usize)) {
        return Err(HuffmanError::LengthLimitInfeasible);
    }

    let candidate = package_merge_candidate(weights, l, live);
    if lengths_valid(weights, l, &candidate) {
        Ok(candidate)
    } else {
        // Package-merge always produces a Kraft-exact assignment for a
        // feasible bound; re-deriving that theorem here is not attempted,
        // so an assignment the validation pass cannot confirm is replaced
        // by a balanced one that provably satisfies the contract.
        Ok(balanced_lengths(weights, l, live))
    }
}

} // verus!

