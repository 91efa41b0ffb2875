//! LZ77 factorization: a sliding-window match finder over hash chains
//! with a rolling-hash fast path, and a forward dynamic program that
//! picks, per position, the cheapest continuation (literal or repeat).

use vstd::prelude::*;

use crate::deflate::Token;
use crate::deflate::dist_code_info;
use crate::deflate::len_code_info;
use crate::deflate::deflate_code_of_dist;
use crate::deflate::deflate_code_of_len;
use crate::deflate::token_step;
use crate::deflate::token_valid_at;
use crate::deflate::token_wf;
use crate::deflate::tokens_cover;
use crate::deflate::lemma_tokens_cover_len;
use crate::deflate::lemma_tokens_cover_snoc;
use crate::deflate::lemma_tokens_cover_wf;

verus! {

/// Maximum repeat length the DEFLATE format can express.
pub const MAX_REP_LEN: usize = 258;

/// Maximum repeat distance the DEFLATE format can express.
pub const MAX_REP_DIST: usize = 32768;

/// Number of hash-chain heads (one 15-bit hash per 3-byte prefix).
const HASH_HEADS: usize = 32768;

/// Size of the rolling-hash ring; must exceed the window plus the
/// look-ahead so that every prefix hash a match test needs is live.
const HASH_WINDOW_SIZE: usize = 131072;

/// How far beyond the current position prefix hashes are kept: matches
/// may extend up to `MAX_REP_LEN` bytes ahead.
const HASH_AHEAD: usize = 258;

/// Inputs are bounded so every bit-cost estimate fits comfortably in
/// `u64` arithmetic (the heuristic cost of a token is at most 31 bits).
pub open spec fn input_len_ok(n: int) -> bool {
    n <= 0x4000_0000_0000 && n + 1024 <= usize::MAX
}

/// Heuristic bit cost of one token before the Huffman codes exist:
/// 8 bits per literal; for a repeat, the extra bits of its length and
/// distance codes plus 8 and 5 bits for the code symbols themselves.
pub open spec fn spec_token_cost(t: Token) -> int {
    match t {
        Token::Literal(_) => 8,
        Token::Repeat(len, dist) => (len_code_info(len as int).1 + 8) + (dist_code_info(
            dist as int,
        ).1 + 5),
    }
}

/// Total heuristic bit cost of a token sequence.
pub open spec fn tokens_cost_sum(ts: Seq<Token>) -> int
    decreases ts.len(),
{
    if ts.len() == 0 {
        0
    } else {
        tokens_cost_sum(ts.drop_last()) + spec_token_cost(ts.last())
    }
}

/// Estimated bit cost of a token under the cost model the parser uses.
pub fn size_of_token(token: &Token) -> (r: u64)
    requires
        token_wf(*token),
    ensures
        r == spec_token_cost(*token),
        8 <= r <= 31,
{
    match token {
        Token::Literal(_) => 8,
        Token::Repeat(len, dist) => {
            let lc = deflate_code_of_len(*len);
            let dc = deflate_code_of_dist(*dist);
            (lc.1 as u64 + 8) + (dc.1 as u64 + 5)
        },
    }
}

/// Left rotation of a 32-bit value; only `k % 32` matters.
pub open spec fn spec_rotl32(h: u32, k: u32) -> u32 {
    if k % 32 == 0 {
        h
    } else {
        (h << (k % 32)) | (h >> (32 - k % 32))
    }
}

/// The per-byte constant of the rolling hash, as a function of the
/// byte: any fixed table works, so the entries are derived by integer
/// mixing rather than held in a table.
pub open spec fn spec_buz(b: u8) -> u32 {
    ((((b as nat) + 1) * 0x9E37_79B1) % 0x1_0000_0000) as u32
}

/// One step of the rolling hash: extending the hashed prefix by `b`.
pub open spec fn spec_extend_hash(hash: u32, b: u8) -> u32 {
    spec_rotl32(hash, 1) ^ spec_buz(b)
}

/// The rolling hash of the prefix `data[0..x]`.
pub open spec fn spec_prefix_hash(data: Seq<u8>, x: int) -> u32
    recommends
        0 <= x <= data.len(),
    decreases x,
{
    if x <= 0 {
        0
    } else {
        spec_extend_hash(spec_prefix_hash(data, x - 1), data[x - 1])
    }
}

/// The per-byte constant of the rolling hash.
fn buz_entry(b: u8) -> (r: u32)
    ensures
        r == spec_buz(b),
{
    let x: u64 = (b as u64 + 1) * 0x9E37_79B1;
    let m: u64 = x & 0xFFFF_FFFF;
    proof {
        assert(m == x % 0x1_0000_0000 && m <= 0xFFFF_FFFFu64) by (bit_vector)
            requires
                m == x & 0xFFFF_FFFFu64,
        ;
    }
    m as u32
}

/// Rotates a 32-bit value left by `k` (any `k`; only `k % 32` matters).
fn rotl32(h: u32, k: u32) -> (r: u32)
    ensures
        r == spec_rotl32(h, k),
{
    let s: u32 = k % 32;
    if s == 0 {
        h
    } else {
        (h << s) | (h >> (32 - s))
    }
}

/// A 15-bit hash of a 3-byte prefix, indexing the chain heads.
pub open spec fn spec_hash3(b0: u8, b1: u8, b2: u8) -> int {
    ((((b0 as usize) << 10) ^ ((b1 as usize) << 5) ^ (b2 as usize)) & 0x7FFF) as int
}

/// The chain-head hash of the 3-byte prefix starting at `q`.
pub open spec fn key_at(data: Seq<u8>, q: int) -> int
    recommends
        0 <= q && q + 3 <= data.len(),
{
    spec_hash3(data[q], data[q + 1], data[q + 2])
}

/// The most recent position before `k` whose 3-byte prefix hashes to
/// `h`, or -1 if there is none.
pub open spec fn last_match(data: Seq<u8>, h: int, k: int) -> int
    decreases k,
{
    if k <= 0 {
        -1
    } else if k - 1 + 3 <= data.len() && key_at(data, k - 1) == h {
        k - 1
    } else {
        last_match(data, h, k - 1)
    }
}

proof fn lemma_last_match_props(data: Seq<u8>, h: int, k: int)
    requires
        k >= 0,
    ensures
        -1 <= last_match(data, h, k) < k,
        last_match(data, h, k) >= 0 ==> (last_match(data, h, k) + 3 <= data.len() && key_at(
            data,
            last_match(data, h, k),
        ) == h),
    decreases k,
{
    if k > 0 {
        lemma_last_match_props(data, h, k - 1);
    }
}

/// Match lengths are never negative.
proof fn lemma_match_len_nonneg(data: Seq<u8>, q: int, pos: int, i: int)
    ensures
        match_len_from(data, q, pos, i) >= 0,
    decreases 258 - i,
{
    if 0 <= i < 258 && pos + i < data.len() && data[q + i] == data[pos + i] {
        lemma_match_len_nonneg(data, q, pos, i + 1);
    }
}

/// A 15-bit hash of a 3-byte prefix, indexing the chain heads.
fn hash3(b0: u8, b1: u8, b2: u8) -> (h: usize)
    ensures
        h < 32768,
        h == spec_hash3(b0, b1, b2),
{
    let v: usize = ((b0 as usize) << 10) ^ ((b1 as usize) << 5) ^ (b2 as usize);
    let h = v & 0x7FFF;
    proof {
        assert(h < 32768usize) by (bit_vector)
            requires
                h == v & 0x7FFFusize,
        ;
    }
    h
}

/// How many bytes starting at `q + i` and `pos + i` agree, counted from
/// offset `i`, capped at offset 258 and at the end of the input.
pub open spec fn match_len_from(data: Seq<u8>, q: int, pos: int, i: int) -> int
    decreases 258 - i,
{
    if 0 <= i < 258 && pos + i < data.len() && data[q + i] == data[pos + i] {
        1 + match_len_from(data, q, pos, i + 1)
    } else {
        0
    }
}

/// The exact match length of window position `q` against `pos`: the
/// number of agreeing bytes, capped at 258 and at the input end.
pub open spec fn spec_match_len(data: Seq<u8>, q: int, pos: int) -> int {
    match_len_from(data, q, pos, 0)
}

/// Rotation distributes over exclusive-or.
proof fn lemma_rotl_xor(x: u32, y: u32, k: u32)
    ensures
        spec_rotl32(x ^ y, k) == spec_rotl32(x, k) ^ spec_rotl32(y, k),
{
    let sh = k % 32;
    assert(sh == 0 ==> spec_rotl32(x ^ y, k) == spec_rotl32(x, k) ^ spec_rotl32(y, k));
    if sh != 0 {
        let inv = (32 - sh) as u32;
        assert((((x ^ y) << sh) | ((x ^ y) >> inv)) == (((x << sh) | (x >> inv)) ^ ((y << sh) | (y
            >> inv)))) by (bit_vector)
            requires
                0 < sh < 32,
                inv == (32 - sh) as u32,
        ;
        assert(spec_rotl32(x ^ y, k) == (((x ^ y) << sh) | ((x ^ y) >> inv)));
        assert(spec_rotl32(x, k) == ((x << sh) | (x >> inv)));
        assert(spec_rotl32(y, k) == ((y << sh) | (y >> inv)));
    }
}

/// Rotating one more step advances the rotation count by one.
proof fn lemma_rotl_compose1(h: u32, k: u32)
    requires
        k < 32,
    ensures
        spec_rotl32(spec_rotl32(h, k), 1) == spec_rotl32(h, (k + 1) as u32),
{
    let a = spec_rotl32(h, k);
    assert(spec_rotl32(a, 1) == ((a << 1u32) | (a >> 31u32)));
    if k == 0 {
        assert(a == h);
    } else if k < 31 {
        let inv = (32 - k) as u32;
        let inv2 = (31 - k) as u32;
        assert(a == ((h << k) | (h >> inv)));
        assert(spec_rotl32(h, (k + 1) as u32) == ((h << ((k + 1) as u32)) | (h >> inv2)));
        assert(((((h << k) | (h >> inv)) << 1u32) | (((h << k) | (h >> inv)) >> 31u32)) == ((h << ((
        k + 1) as u32)) | (h >> inv2))) by (bit_vector)
            requires
                1 <= k < 31,
                inv == (32 - k) as u32,
                inv2 == (31 - k) as u32,
        ;
    } else {
        assert(k == 31);
        assert(a == ((h << 31u32) | (h >> 1u32)));
        assert(spec_rotl32(h, 32) == h);
        assert(((((h << 31u32) | (h >> 1u32)) << 1u32) | (((h << 31u32) | (h >> 1u32)) >> 31u32))
            == h) by (bit_vector);
    }
}

/// Rotation depends on the count only through its residue modulo 32.
proof fn lemma_rotl_mod(h: u32, k1: u32, k2: u32)
    requires
        k1 % 32 == k2 % 32,
    ensures
        spec_rotl32(h, k1) == spec_rotl32(h, k2),
{
}

proof fn lemma_mod32_succ(l: int)
    requires
        l >= 1,
    ensures
        ((l - 1) % 32 + 1) % 32 == l % 32,
{
    vstd::arithmetic::div_mod::lemma_fundamental_div_mod(l - 1, 32);
    let q = (l - 1) / 32;
    let r = (l - 1) % 32;
    if r == 31 {
        vstd::arithmetic::div_mod::lemma_fundamental_div_mod_converse(l, 32, q + 1, 0);
        assert(32int % 32 == 0);
    } else {
        vstd::arithmetic::div_mod::lemma_fundamental_div_mod_converse(l, 32, q, r + 1);
        vstd::arithmetic::div_mod::lemma_fundamental_div_mod_converse(r + 1, 32, 0, r + 1);
    }
}

/// Soundness of the substring-hash filter: two equal substrings combine
/// their endpoint prefix hashes, rotation-compensated, to equal values,
/// so a combined-hash mismatch really rules a candidate out.
proof fn lemma_filter_eq(data: Seq<u8>, a1: int, a2: int, l: int)
    requires
        0 <= a1,
        0 <= a2,
        0 <= l,
        a1 + l <= data.len(),
        a2 + l <= data.len(),
        forall|i: int| 0 <= i < l ==> (#[trigger] data[a1 + i]) == data[a2 + i],
    ensures
        spec_rotl32(spec_prefix_hash(data, a1), (l % 32) as u32) ^ spec_prefix_hash(data, a1 + l)
            == spec_rotl32(spec_prefix_hash(data, a2), (l % 32) as u32) ^ spec_prefix_hash(
            data,
            a2 + l,
        ),
    decreases l,
{
    let h1 = spec_prefix_hash(data, a1);
    let h2 = spec_prefix_hash(data, a2);
    if l == 0 {
        assert(spec_rotl32(h1, 0) == h1 && spec_rotl32(h2, 0) == h2);
        assert(h1 ^ h1 == 0 && h2 ^ h2 == 0) by (bit_vector);
    } else {
        assert forall|i: int| 0 <= i < l - 1 implies (#[trigger] data[a1 + i]) == data[a2 + i] by {}
        lemma_filter_eq(data, a1, a2, l - 1);
        let p1 = spec_prefix_hash(data, a1 + l - 1);
        let p2 = spec_prefix_hash(data, a2 + l - 1);
        let x1 = spec_rotl32(h1, ((l - 1) % 32) as u32) ^ p1;
        let x2 = spec_rotl32(h2, ((l - 1) % 32) as u32) ^ p2;
        assert(x1 == x2);
        let t = spec_buz(data[a1 + l - 1]);
        assert(data[a1 + (l - 1)] == data[a2 + (l - 1)]);
        assert(spec_prefix_hash(data, a1 + l) == spec_rotl32(p1, 1) ^ t);
        assert(spec_prefix_hash(data, a2 + l) == spec_rotl32(p2, 1) ^ t);
        lemma_rotl_xor(spec_rotl32(h1, ((l - 1) % 32) as u32), p1, 1);
        lemma_rotl_xor(spec_rotl32(h2, ((l - 1) % 32) as u32), p2, 1);
        lemma_rotl_compose1(h1, ((l - 1) % 32) as u32);
        lemma_rotl_compose1(h2, ((l - 1) % 32) as u32);
        lemma_mod32_succ(l);
        lemma_rotl_mod(h1, (((l - 1) % 32 + 1) % 32) as u32, (l % 32) as u32);
        lemma_rotl_mod(h1, ((l - 1) % 32 + 1) as u32, (((l - 1) % 32 + 1) % 32) as u32);
        lemma_rotl_mod(h2, (((l - 1) % 32 + 1) % 32) as u32, (l % 32) as u32);
        lemma_rotl_mod(h2, ((l - 1) % 32 + 1) as u32, (((l - 1) % 32 + 1) % 32) as u32);
        // rotl(h, l) ^ H(a + l) == rotl(x, 1) ^ t for x the previous combination.
        assert(spec_rotl32(h1, (l % 32) as u32) ^ spec_prefix_hash(data, a1 + l) == spec_rotl32(
            x1,
            1,
        ) ^ t) by {
            assert(spec_rotl32(x1, 1) == spec_rotl32(spec_rotl32(h1, ((l - 1) % 32) as u32), 1)
                ^ spec_rotl32(p1, 1));
            lemma_xor_shuffle(
                spec_rotl32(h1, (l % 32) as u32),
                spec_rotl32(p1, 1),
                t,
            );
        }
        assert(spec_rotl32(h2, (l % 32) as u32) ^ spec_prefix_hash(data, a2 + l) == spec_rotl32(
            x2,
            1,
        ) ^ t) by {
            assert(spec_rotl32(x2, 1) == spec_rotl32(spec_rotl32(h2, ((l - 1) % 32) as u32), 1)
                ^ spec_rotl32(p2, 1));
            lemma_xor_shuffle(
                spec_rotl32(h2, (l % 32) as u32),
                spec_rotl32(p2, 1),
                t,
            );
        }
    }
}

/// Exclusive-or is associative and commutative in the shape the filter
/// derivation needs: `a ^ (rotl(p,1) ^ t) == (a ^ rotl(p,1)) ^ t`.
proof fn lemma_xor_shuffle(a: u32, b: u32, c: u32)
    ensures
        a ^ (b ^ c) == (a ^ b) ^ c,
{
    assert(a ^ (b ^ c) == (a ^ b) ^ c) by (bit_vector);
}

/// Distances and lengths are both strictly increasing along a
/// candidate list, per the enumeration contract of the match finder.
pub open spec fn reps_increasing(s: Seq<(usize, u32)>) -> bool {
    forall|i: int|
        0 <= i < s.len() - 1 ==> ((#[trigger] s[i]).0 < s[i + 1].0 && s[i].1 < s[i + 1].1)
}

/// The prefix hash of `data[0..x]` is resident in the ring at position
/// `pos`: the ring covers everything from one ring length behind the
/// look-ahead frontier up to the frontier itself.
pub open spec fn ring_live(pos: int, len: int, x: int) -> bool {
    &&& 0 <= x
    &&& x <= pos + 258
    &&& x <= len
    &&& x > pos + 258 - 131072
}

/// Two positions less than one hash-ring length apart are pinned by
/// their common residue.
proof fn lemma_ring_mod_window(end: int, lo: int)
    requires
        0 <= lo,
        0 <= end,
        lo - 131071 <= end <= lo + 131071,
        end % 131072 == lo % 131072,
    ensures
        end == lo,
{
    vstd::arithmetic::div_mod::lemma_fundamental_div_mod(end, 131072);
    vstd::arithmetic::div_mod::lemma_fundamental_div_mod(lo, 131072);
    let k = end / 131072 - lo / 131072;
    assert(end - lo == 131072 * k);
    if k >= 1 {
        assert(131072 * k >= 131072) by (nonlinear_arith)
            requires
                k >= 1,
        ;
        assert(false);
    }
    if k <= -1 {
        assert(131072 * k <= -131072) by (nonlinear_arith)
            requires
                k <= -1,
        ;
        assert(false);
    }
}

/// The sliding-window index of earlier 3-byte prefixes.  `head` maps a
/// prefix hash to the most recent position bearing it (stored as
/// `position + 1`, 0 meaning none); `prev` chains each position to the
/// previous one with the same hash, indexed by position modulo the
/// window.  Entries older than the window, or overwritten by a position
/// that collided modulo the window, are cut off when a chain is walked,
/// so no eviction pass is needed and every returned candidate is
/// re-verified byte by byte.
///
/// The well-formedness invariant carries two verified models: every
/// `head` entry equals `last_match` of its hash (so the chain head is
/// provably the closest indexed candidate), and every live ring entry
/// equals `spec_prefix_hash` of its prefix (so the substring-hash filter
/// is provably sound).  The `prev` links below the chain head are kept
/// as plain data; their completeness is not modeled.
pub struct RepsTracker<'a> {
    data: &'a [u8],
    /// Current position in `data`.
    pos: usize,
    head: Vec<usize>,
    prev: Vec<usize>,
    /// Rolling hash of every prefix `data[0..x]`, for `x` within the
    /// window and up to `HASH_AHEAD` bytes ahead, at index
    /// `x % HASH_WINDOW_SIZE`.
    window_rolling_hash: Vec<u32>,
}

impl<'a> RepsTracker<'a> {
    pub closed spec fn wf(self) -> bool {
        &&& self.pos <= self.data@.len()
        &&& input_len_ok(self.data@.len() as int)
        &&& self.head@.len() == 32768
        &&& self.prev@.len() == 32768
        &&& self.window_rolling_hash@.len() == 131072
        &&& forall|x: int|
            ring_live(self.pos as int, self.data@.len() as int, x)
                ==> self.window_rolling_hash@[x % 131072] == spec_prefix_hash(self.data@, x)
        &&& forall|h: int|
            0 <= h < 32768 ==> (#[trigger] self.head@[h]) == last_match(
                self.data@,
                h,
                self.pos as int,
            ) + 1
    }

    /// The prefix hash of `data[0..x]` is still resident in the ring.
    pub closed spec fn prefix_live(self, x: int) -> bool {
        ring_live(self.pos as int, self.data@.len() as int, x)
    }

    pub closed spec fn spec_pos(self) -> usize {
        self.pos
    }

    pub closed spec fn spec_data(self) -> Seq<u8> {
        self.data@
    }

    /// Extends the rolling hash of a prefix by one byte.
    fn extend_hash(hash: u32, b: u8) -> (r: u32)
        ensures
            r == spec_extend_hash(hash, b),
    {
        let r = rotl32(hash, 1);
        r ^ buz_entry(b)
    }

    pub fn new(data: &'a [u8]) -> (s: Self)
        requires
            input_len_ok(data@.len() as int),
        ensures
            s.wf(),
            s.spec_pos() == 0,
            s.spec_data() == data@,
    {
        let mut head: Vec<usize> = Vec::new();
        let mut i: usize = 0;
        while i < HASH_HEADS
            invariant
                head@.len() == i,
                i <= 32768,
                forall|t: int| 0 <= t < i ==> head@[t] == 0,
            decreases 32768 - i,
        {
            head.push(0);
            i += 1;
        }
        let mut prev: Vec<usize> = Vec::new();
        let mut j: usize = 0;
        while j < MAX_REP_DIST
            invariant
                prev@.len() == j,
                j <= 32768,
            decreases 32768 - j,
        {
            prev.push(0);
            j += 1;
        }
        let mut wrh: Vec<u32> = Vec::new();
        let mut k: usize = 0;
        while k < HASH_WINDOW_SIZE
            invariant
                wrh@.len() == k,
                k <= 131072,
                forall|x: int| 0 <= x < k ==> wrh@[x] == 0,
            decreases 131072 - k,
        {
            wrh.push(0);
            k += 1;
        }
        let mut s = RepsTracker { data, pos: 0, head, prev, window_rolling_hash: wrh };
        // Seed the prefix hashes of the initial look-ahead.
        let ahead = if data.len() < HASH_AHEAD {
            data.len()
        } else {
            HASH_AHEAD
        };
        let mut t: usize = 0;
        proof {
            assert(s.window_rolling_hash@[0] == 0);
        }
        while t < ahead
            invariant
                s.data@ == data@,
                s.pos == 0,
                s.head@.len() == 32768,
                forall|t: int| 0 <= t < 32768 ==> s.head@[t] == 0,
                s.prev@.len() == 32768,
                s.window_rolling_hash@.len() == 131072,
                ahead <= data@.len(),
                ahead <= 258,
                t <= ahead,
                forall|x: int|
                    0 <= x <= t ==> s.window_rolling_hash@[x % 131072] == spec_prefix_hash(
                        data@,
                        x,
                    ),
            decreases ahead - t,
        {
            let h = s.window_rolling_hash[t];
            let e = RepsTracker::extend_hash(h, data[t]);
            s.window_rolling_hash[t + 1] = e;
            proof {
                assert forall|x: int|
                    0 <= x <= t + 1 implies s.window_rolling_hash@[x % 131072]
                    == spec_prefix_hash(data@, x) by {
                    if x == t + 1 {
                        assert(x % 131072 == x);
                        assert(spec_prefix_hash(data@, t + 1) == spec_extend_hash(
                            spec_prefix_hash(data@, t as int),
                            data@[t as int],
                        ));
                    } else {
                        assert(x % 131072 == x && (t + 1) % 131072 == t + 1);
                    }
                }
            }
            t += 1;
        }
        proof {
            assert forall|h: int|
                0 <= h < 32768 implies (#[trigger] s.head@[h]) == last_match(data@, h, 0) + 1 by {
                assert(last_match(data@, h, 0) == -1);
            }
        }
        s
    }

    /// Indexes the 3-byte prefix at the current position (if any), keeps
    /// the rolling hash one look-ahead ahead, and advances by one byte;
    /// the well-formedness it returns carries the chain-head and
    /// prefix-hash models forward to the new position.
    pub fn advance(&mut self)
        requires
            old(self).wf(),
            old(self).spec_pos() < old(self).spec_data().len(),
        ensures
            final(self).wf(),
            final(self).spec_pos() == old(self).spec_pos() + 1,
            final(self).spec_data() == old(self).spec_data(),
    {
        let n = self.data.len();
        if self.pos + 3 <= n {
            let h = hash3(self.data[self.pos], self.data[self.pos + 1], self.data[self.pos + 2]);
            self.prev[self.pos % MAX_REP_DIST] = self.head[h];
            self.head[h] = self.pos + 1;
            proof {
                let d = self.data@;
                let p = self.pos as int;
                assert(key_at(d, p) == h);
                assert forall|h2: int|
                    0 <= h2 < 32768 implies (#[trigger] self.head@[h2]) == last_match(d, h2, p + 1)
                    + 1 by {
                    if h2 == h {
                        assert(last_match(d, h2, p + 1) == p);
                    } else {
                        assert(last_match(d, h2, p + 1) == last_match(d, h2, p));
                    }
                }
            }
        } else {
            proof {
                let d = self.data@;
                let p = self.pos as int;
                assert forall|h2: int|
                    0 <= h2 < 32768 implies (#[trigger] self.head@[h2]) == last_match(d, h2, p + 1)
                    + 1 by {
                    assert(last_match(d, h2, p + 1) == last_match(d, h2, p));
                }
            }
        }
        if self.pos + HASH_AHEAD < n {
            let b = self.data[self.pos + HASH_AHEAD];
            let prev_hash = self.window_rolling_hash[(self.pos + HASH_AHEAD) % HASH_WINDOW_SIZE];
            let next_hash = RepsTracker::extend_hash(prev_hash, b);
            proof {
                let pos = self.pos as int;
                let len = self.data@.len() as int;
                assert(ring_live(pos, len, pos + 258));
                assert(prev_hash == spec_prefix_hash(self.data@, pos + 258));
                assert(spec_prefix_hash(self.data@, pos + 259) == spec_extend_hash(
                    spec_prefix_hash(self.data@, pos + 258),
                    self.data@[pos + 258],
                ));
            }
            self.window_rolling_hash[(self.pos + HASH_AHEAD + 1) % HASH_WINDOW_SIZE] = next_hash;
            proof {
                let pos = self.pos as int;
                let len = self.data@.len() as int;
                assert forall|x: int|
                    ring_live(pos + 1, len, x) implies self.window_rolling_hash@[x % 131072]
                    == spec_prefix_hash(self.data@, x) by {
                    if x == pos + 259 {
                    } else {
                        if x % 131072 == (pos + 259) % 131072 {
                            lemma_ring_mod_window(x, pos + 259);
                            assert(false);
                        }
                        assert(ring_live(pos, len, x));
                    }
                }
            }
        } else {
            proof {
                let pos = self.pos as int;
                let len = self.data@.len() as int;
                assert forall|x: int|
                    ring_live(pos + 1, len, x) implies self.window_rolling_hash@[x % 131072]
                    == spec_prefix_hash(self.data@, x) by {
                    assert(ring_live(pos, len, x));
                }
            }
        }
        self.pos = self.pos + 1;
    }

    /// Rolling hash of `data[a..b]`, derived from the two resident
    /// prefix hashes by rotate and exclusive-or; while both prefixes
    /// are still in the ring this is exactly the rotation-compensated
    /// combination of their rolling hashes, so two equal substrings
    /// with live endpoints always combine to equal values.
    pub fn hash_recent_substring(&self, a: usize, b: usize) -> (r: u32)
        requires
            self.wf(),
            a <= b,
        ensures
            (self.prefix_live(a as int) && self.prefix_live(b as int)) ==> r == spec_rotl32(
                spec_prefix_hash(self.spec_data(), a as int),
                ((b - a) % 32) as u32,
            ) ^ spec_prefix_hash(self.spec_data(), b as int),
    {
        let ha = self.window_rolling_hash[a % HASH_WINDOW_SIZE];
        let hb = self.window_rolling_hash[b % HASH_WINDOW_SIZE];
        let d: usize = (b - a) % HASH_WINDOW_SIZE;
        proof {
            if self.prefix_live(a as int) && self.prefix_live(b as int) {
                assert(ha == spec_prefix_hash(self.spec_data(), a as int));
                assert(hb == spec_prefix_hash(self.spec_data(), b as int));
            }
            let diff = (b - a) as int;
            vstd::arithmetic::div_mod::lemma_fundamental_div_mod(diff, 131072);
            let q = diff / 131072;
            assert(131072 * q == 32 * (4096 * q)) by (nonlinear_arith);
            vstd::arithmetic::div_mod::lemma_mod_multiples_vanish(4096 * q, diff % 131072, 32);
            assert(diff % 32 == (diff % 131072) % 32);
        }
        rotl32(ha, (d % 32) as u32) ^ hb
    }

    /// True match length at `start` against the current position, with
    /// two quick rejection filters for candidates that cannot reach
    /// `min_len_to_care`.  A nonzero result is an exact, byte-verified
    /// match length.
    fn max_len(&self, start: usize, min_len_to_care: usize) -> (l: u32)
        requires
            self.wf(),
            start < self.spec_pos(),
            self.spec_pos() - start <= 32768,
            self.spec_pos() + 3 <= self.spec_data().len(),
            1 <= min_len_to_care,
        ensures
            l <= 258,
            self.spec_pos() + l <= self.spec_data().len(),
            forall|q: int|
                0 <= q < l ==> (#[trigger] self.spec_data()[self.spec_pos() + q])
                    == self.spec_data()[start + q],
            l == 0 || l == spec_match_len(self.spec_data(), start as int, self.spec_pos() as int),
            (min_len_to_care <= 258 && self.spec_pos() + min_len_to_care
                <= self.spec_data().len() && (forall|q: int|
                0 <= q < min_len_to_care ==> (#[trigger] self.spec_data()[self.spec_pos() + q])
                    == self.spec_data()[start + q])) ==> l == spec_match_len(
                self.spec_data(),
                start as int,
                self.spec_pos() as int,
            ),
    {
        let n = self.data.len();
        let pos = self.pos;
        let ghost dat = self.spec_data();
        let ghost can_reach = min_len_to_care <= 258 && pos + min_len_to_care <= dat.len() && (
        forall|q: int|
            0 <= q < min_len_to_care ==> (#[trigger] dat[pos + q]) == dat[start + q]);
        if min_len_to_care > MAX_REP_LEN || pos + min_len_to_care > n {
            // Nothing this candidate could win with fits in the input.
            return 0;
        }
        // A mismatch at the decisive byte rules the candidate out.
        if self.data[start + min_len_to_care - 1] != self.data[pos + min_len_to_care - 1] {
            proof {
                if can_reach {
                    assert(dat[pos + (min_len_to_care - 1)] == dat[start + (min_len_to_care - 1)]);
                    assert(false);
                }
            }
            return 0;
        }
        // A substring-hash mismatch rules it out as well; the combined
        // hashes of equal substrings with resident endpoints are equal,
        // so the filter never rejects a candidate that reaches
        // `min_len_to_care`.
        let h1 = self.hash_recent_substring(start, start + min_len_to_care);
        let h2 = self.hash_recent_substring(pos, pos + min_len_to_care);
        if h1 != h2 {
            proof {
                if can_reach {
                    assert(self.prefix_live(start as int));
                    assert(self.prefix_live(start as int + min_len_to_care));
                    assert(self.prefix_live(pos as int));
                    assert(self.prefix_live(pos as int + min_len_to_care));
                    lemma_filter_eq(dat, pos as int, start as int, min_len_to_care as int);
                    assert(false);
                }
            }
            return 0;
        }
        // Passed both filters: extend byte by byte, computing the exact
        // match length.
        let mut res: usize = 0;
        while pos + res < n && res < MAX_REP_LEN && self.data[start + res] == self.data[pos + res]
            invariant
                self.wf(),
                pos == self.spec_pos(),
                n == self.spec_data().len(),
                dat == self.spec_data(),
                start < pos,
                res <= 258,
                pos + res <= n,
                forall|q: int|
                    0 <= q < res ==> (#[trigger] self.spec_data()[pos + q])
                        == self.spec_data()[start + q],
                spec_match_len(dat, start as int, pos as int) == res + match_len_from(
                    dat,
                    start as int,
                    pos as int,
                    res as int,
                ),
            decreases 258 - res,
        {
            res += 1;
        }
        proof {
            assert(match_len_from(dat, start as int, pos as int, res as int) == 0);
            assert(res as int == spec_match_len(dat, start as int, pos as int));
        }
        res as u32
    }

    /// Enumerates back-reference candidates for the current position:
    /// `(distance, length)` pairs with both components strictly
    /// increasing, every one byte-verified against the input and
    /// carrying the exact match length of its distance.  When the
    /// closest indexed candidate is a true in-window match, the
    /// enumeration is never empty; candidates further down the chain
    /// are found on a best-effort basis and re-verified.
    pub fn get_reps(&self) -> (reps: Vec<(usize, u32)>)
        requires
            self.wf(),
        ensures
            forall|i: int|
                0 <= i < reps@.len() ==> #[trigger] token_valid_at(
                    self.spec_data(),
                    self.spec_pos() as int,
                    Token::Repeat(reps@[i].1, reps@[i].0 as u32),
                ),
            forall|i: int|
                0 <= i < reps@.len() ==> 1 <= (#[trigger] reps@[i]).0 <= 32768 && reps@[i].0
                    <= self.spec_pos(),
            forall|i: int|
                0 <= i < reps@.len() ==> (#[trigger] reps@[i]).1 == spec_match_len(
                    self.spec_data(),
                    self.spec_pos() - reps@[i].0,
                    self.spec_pos() as int,
                ),
            reps_increasing(reps@),
            ({
                let p = self.spec_pos() as int;
                let d = self.spec_data();
                let lm = last_match(d, key_at(d, p), p);
                (p + 3 <= d.len() && 0 <= lm && p - lm <= 32768 && d[lm] == d[p] && d[lm + 1]
                    == d[p + 1] && d[lm + 2] == d[p + 2]) ==> reps@.len() > 0
            }),
    {
        let n = self.data.len();
        let pos = self.pos;
        let mut out: Vec<(usize, u32)> = Vec::new();
        if pos + 3 > n {
            return out;
        }
        let h = hash3(self.data[pos], self.data[pos + 1], self.data[pos + 2]);
        let mut q: usize = self.head[h];
        let mut longest: u32 = 0;
        // Strict upper bound on the start of the next acceptable candidate;
        // the hash chains keep starts decreasing, and any stale link that
        // does not is cut off here.
        let mut limit: usize = pos;
        while q > 0
            invariant
                self.wf(),
                pos == self.spec_pos(),
                n == self.spec_data().len(),
                pos + 3 <= n,
                limit <= pos,
                longest <= 258,
                forall|i: int|
                    0 <= i < out@.len() ==> #[trigger] token_valid_at(
                        self.spec_data(),
                        pos as int,
                        Token::Repeat(out@[i].1, out@[i].0 as u32),
                    ),
                forall|i: int|
                    0 <= i < out@.len() ==> 1 <= (#[trigger] out@[i]).0 <= 32768 && out@[i].0
                        <= pos,
                forall|i: int|
                    0 <= i < out@.len() ==> (#[trigger] out@[i]).1 == spec_match_len(
                        self.spec_data(),
                        pos - out@[i].0,
                        pos as int,
                    ),
                reps_increasing(out@),
                out@.len() > 0 ==> out@[out@.len() - 1].0 == pos - limit && out@[out@.len()
                    - 1].1 == longest,
                out@.len() == 0 ==> longest == 0,
                ({
                    let p = pos as int;
                    let d = self.spec_data();
                    let lm = last_match(d, key_at(d, p), p);
                    (p + 3 <= d.len() && 0 <= lm && p - lm <= 32768 && d[lm] == d[p] && d[lm + 1]
                        == d[p + 1] && d[lm + 2] == d[p + 2]) ==> (out@.len() > 0 || (q == lm + 1
                        && limit == pos && longest == 0))
                }),
            ensures
                ({
                    let p = pos as int;
                    let d = self.spec_data();
                    let lm = last_match(d, key_at(d, p), p);
                    (p + 3 <= d.len() && 0 <= lm && p - lm <= 32768 && d[lm] == d[p] && d[lm + 1]
                        == d[p + 1] && d[lm + 2] == d[p + 2]) ==> out@.len() > 0
                }),
            decreases q,
        {
            proof {
                lemma_last_match_props(
                    self.spec_data(),
                    key_at(self.spec_data(), pos as int),
                    pos as int,
                );
            }
            let start = q - 1;
            if start >= limit {
                break;
            }
            let dist = pos - start;
            if dist > MAX_REP_DIST {
                // Older candidates on this chain are even farther away.
                break;
            }
            let l = self.max_len(start, longest as usize + 1);
            proof {
                let d = self.spec_data();
                let p = pos as int;
                let lm = last_match(d, key_at(d, p), p);
                if out@.len() == 0 && p + 3 <= d.len() && 0 <= lm && p - lm <= 32768 && d[lm]
                    == d[p] && d[lm + 1] == d[p + 1] && d[lm + 2] == d[p + 2] {
                    // The head of the chain is this candidate; it reaches
                    // at least the three matching prefix bytes, so the
                    // exact extension is at least a usable repeat.
                    assert(start as int == lm);
                    assert forall|qq: int| 0 <= qq < 1 implies (#[trigger] d[p + qq]) == d[start
                        + qq] by {
                        assert(d[p] == d[lm]);
                    }
                    assert(l == spec_match_len(d, lm, p));
                    assert(match_len_from(d, lm, p, 0) == 1 + match_len_from(d, lm, p, 1));
                    assert(match_len_from(d, lm, p, 1) == 1 + match_len_from(d, lm, p, 2));
                    assert(match_len_from(d, lm, p, 2) == 1 + match_len_from(d, lm, p, 3));
                    lemma_match_len_nonneg(d, lm, p, 3);
                    assert(l >= 3);
                }
            }
            if l > longest && l >= 3 {
                let ghost old_out = out@;
                out.push((dist, l));
                proof {
                    assert(token_valid_at(
                        self.spec_data(),
                        pos as int,
                        Token::Repeat(l, dist as u32),
                    )) by {
                        assert forall|qq: int| 0 <= qq < l implies (#[trigger] self.spec_data()[
                            pos as int + qq]) == self.spec_data()[pos as int - dist as int + qq] by {
                            assert(self.spec_data()[pos + qq] == self.spec_data()[start + qq]);
                        }
                    }
                    assert(reps_increasing(out@)) by {
                        assert forall|i: int|
                            0 <= i < out@.len() - 1 implies ((#[trigger] out@[i]).0 < out@[i + 1].0
                            && out@[i].1 < out@[i + 1].1) by {
                            if i < old_out.len() - 1 {
                                assert(reps_increasing(old_out));
                                assert(old_out[i].0 < old_out[i + 1].0 && old_out[i].1 < old_out[i
                                    + 1].1);
                                assert(out@[i] == old_out[i] && out@[i + 1] == old_out[i + 1]);
                            } else {
                                assert(i == old_out.len() - 1);
                                assert(out@[i] == old_out[old_out.len() - 1]);
                                assert(out@[i + 1] == (dist, l));
                                assert(out@[i].0 == pos - limit && out@[i].1 == longest);
                                assert(dist > pos - limit);
                                assert(l > longest);
                            }
                        }
                    }
                }
                longest = l;
                limit = start;
            }
            if longest >= 258 {
                break;
            }
            let nq = self.prev[start % MAX_REP_DIST];
            if nq >= q {
                break;
            }
            q = nq;
        }
        out
    }
}

/// One node of the shared token-list arena: the token plus the index of
/// the list it extends.  Nodes only ever point backwards, so every list
/// is finite and the arena can be append-only.
#[derive(Clone, Copy)]
struct ArenaNode {
    token: Token,
    prev: Option<usize>,
}

spec fn nodes_wf(nodes: Seq<ArenaNode>) -> bool {
    forall|j: int|
        0 <= j < nodes.len() ==> match (#[trigger] nodes[j]).prev {
            Option::Some(p) => (p as int) < j,
            Option::None => true,
        }
}

/// The token list that ends at arena node `i`, in emission order.
spec fn chain_tokens(nodes: Seq<ArenaNode>, i: int) -> Seq<Token>
    decreases i,
{
    if 0 <= i < nodes.len() {
        match nodes[i].prev {
            Option::None => seq![nodes[i].token],
            Option::Some(p) => if (p as int) < i {
                chain_tokens(nodes, p as int).push(nodes[i].token)
            } else {
                Seq::<Token>::empty()
            },
        }
    } else {
        Seq::<Token>::empty()
    }
}

/// Growing the arena never changes an existing list.
proof fn lemma_chain_push(nodes: Seq<ArenaNode>, x: ArenaNode, i: int)
    requires
        0 <= i < nodes.len(),
    ensures
        chain_tokens(nodes.push(x), i) == chain_tokens(nodes, i),
    decreases i,
{
    if let Option::Some(p) = nodes[i].prev {
        if (p as int) < i {
            lemma_chain_push(nodes, x, p as int);
        }
    }
}

/// Two arenas that agree on a prefix agree on every list inside it.
proof fn lemma_chain_prefix(n1: Seq<ArenaNode>, n2: Seq<ArenaNode>, i: int)
    requires
        0 <= i < n1.len(),
        n1.len() <= n2.len(),
        forall|j: int| 0 <= j < n1.len() ==> n1[j] == n2[j],
    ensures
        chain_tokens(n2, i) == chain_tokens(n1, i),
    decreases i,
{
    assert(n1[i] == n2[i]);
    if let Option::Some(p) = n1[i].prev {
        if (p as int) < i {
            lemma_chain_prefix(n1, n2, p as int);
        }
    }
}

/// One candidate parse: the arena node its token list ends at, its
/// estimated size in bits, and the input position it ends at.
#[derive(Clone, Copy)]
struct Slot {
    node: usize,
    size: u64,
    end: usize,
}

/// The DP invariant of a slot array: a filled slot at index `s` holds a
/// token list that exactly covers `data[0..end]`, ends in the current
/// ring window `[lo, lo + 257]`, sits at `end % 258 == s`, and carries a
/// size estimate that undercounts the list's total heuristic cost by
/// exactly the 8 bits of the seed literal (and so stays within 31 bits
/// per input byte).
spec fn slots_ok(
    slots: Seq<Option<Slot>>,
    nodes: Seq<ArenaNode>,
    data: Seq<u8>,
    lo: int,
) -> bool {
    forall|s: int|
        0 <= s < slots.len() ==> match #[trigger] slots[s] {
            Option::Some(st) => {
                &&& (st.node as int) < nodes.len()
                &&& (st.end as int) % 258 == s
                &&& lo <= st.end <= lo + 257
                &&& st.end <= data.len()
                &&& st.size <= 31 * st.end
                &&& st.size + 8 == tokens_cost_sum(chain_tokens(nodes, st.node as int))
                &&& tokens_cover(chain_tokens(nodes, st.node as int), data, 0, st.end as int)
            },
            Option::None => true,
        }
}

/// Two positions less than one ring width apart are pinned by their
/// common residue.
proof fn lemma_mod_window(end: int, lo: int)
    requires
        0 <= lo,
        0 <= end,
        lo - 257 <= end <= lo + 257,
        end % 258 == lo % 258,
    ensures
        end == lo,
{
    vstd::arithmetic::div_mod::lemma_fundamental_div_mod(end, 258);
    vstd::arithmetic::div_mod::lemma_fundamental_div_mod(lo, 258);
    let d = end - lo;
    let k = end / 258 - lo / 258;
    assert(d == 258 * k);
    if k >= 1 {
        assert(258 * k >= 258) by (nonlinear_arith)
            requires
                k >= 1,
        ;
        assert(false);
    }
    if k <= -1 {
        assert(258 * k <= -258) by (nonlinear_arith)
            requires
                k <= -1,
        ;
        assert(false);
    }
}

/// The optimal parser: a ring of 258 candidate parses, one per
/// reachable end position, refined one input byte at a time.
struct Encoder<'a> {
    data: &'a [u8],
    reps_tracker: RepsTracker<'a>,
    nodes: Vec<ArenaNode>,
    possible_encodings: Vec<Option<Slot>>,
}

impl<'a> Encoder<'a> {
    spec fn wf(self) -> bool {
        &&& self.reps_tracker.wf()
        &&& self.reps_tracker.spec_data() == self.data@
        &&& input_len_ok(self.data@.len() as int)
        &&& self.possible_encodings@.len() == 258
        &&& nodes_wf(self.nodes@)
    }

    fn new(data: &'a [u8]) -> (e: Self)
        requires
            input_len_ok(data@.len() as int),
        ensures
            e.wf(),
            e.data@ == data@,
            e.reps_tracker.spec_pos() == 0,
            e.nodes@.len() == 0,
            forall|s: int| 0 <= s < 258 ==> e.possible_encodings@[s] is None,
    {
        let mut possible_encodings: Vec<Option<Slot>> = Vec::new();
        let mut i: usize = 0;
        while i < MAX_REP_LEN
            invariant
                possible_encodings@.len() == i,
                i <= 258,
                forall|s: int| 0 <= s < i ==> possible_encodings@[s] is None,
            decreases 258 - i,
        {
            possible_encodings.push(None);
            i += 1;
        }
        Encoder { data, reps_tracker: RepsTracker::new(data), nodes: Vec::new(), possible_encodings }
    }

    /// Offers the parse `curr ++ [next_token]` to the slot it ends at;
    /// the slot keeps whichever offer is cheaper.
    fn insert_next(&mut self, curr_node: usize, curr_size: u64, next_token: Token)
        requires
            old(self).wf(),
            old(self).reps_tracker.spec_pos() < old(self).data@.len(),
            (curr_node as int) < old(self).nodes@.len(),
            curr_size <= 31 * old(self).reps_tracker.spec_pos(),
            tokens_cover(
                chain_tokens(old(self).nodes@, curr_node as int),
                old(self).data@,
                0,
                old(self).reps_tracker.spec_pos() as int,
            ),
            token_valid_at(
                old(self).data@,
                old(self).reps_tracker.spec_pos() as int,
                next_token,
            ),
            slots_ok(
                old(self).possible_encodings@,
                old(self).nodes@,
                old(self).data@,
                old(self).reps_tracker.spec_pos() + 1,
            ),
            curr_size + 8 == tokens_cost_sum(
                chain_tokens(old(self).nodes@, curr_node as int),
            ),
        ensures
            final(self).wf(),
            final(self).data@ == old(self).data@,
            final(self).reps_tracker == old(self).reps_tracker,
            final(self).nodes@.len() >= old(self).nodes@.len(),
            forall|j: int|
                0 <= j < old(self).nodes@.len() ==> final(self).nodes@[j] == old(self).nodes@[j],
            slots_ok(
                final(self).possible_encodings@,
                final(self).nodes@,
                final(self).data@,
                old(self).reps_tracker.spec_pos() + 1,
            ),
            forall|s: int|
                0 <= s < 258 && old(self).possible_encodings@[s] is Some ==> final(self)
                    .possible_encodings@[s] is Some,
            final(self).possible_encodings@[((old(self).reps_tracker.spec_pos() + token_step(
                next_token,
            )) % 258) as int] is Some,
            forall|s: int|
                0 <= s < 258 && s != (old(self).reps_tracker.spec_pos() + token_step(next_token))
                    % 258 ==> final(self).possible_encodings@[s] == old(self)
                    .possible_encodings@[s],
            ({
                let offer = curr_size + spec_token_cost(next_token);
                let tgt = (old(self).reps_tracker.spec_pos() + token_step(next_token)) % 258;
                match final(self).possible_encodings@[tgt] {
                    Option::Some(st2) => {
                        &&& st2.end == old(self).reps_tracker.spec_pos() + token_step(next_token)
                        &&& st2.size == (match old(self).possible_encodings@[tgt] {
                            Option::Some(st) => if st.size <= offer {
                                st.size as int
                            } else {
                                offer
                            },
                            Option::None => offer,
                        })
                    },
                    Option::None => false,
                }
            }),
    {
        let pos = self.reps_tracker.pos;
        let extra_length: usize = match next_token {
            Token::Literal(_) => 1,
            Token::Repeat(len, _) => len as usize,
        };
        let extra_size = size_of_token(&next_token);
        let end = pos + extra_length;
        let i = end % MAX_REP_LEN;
        let should_insert = match &self.possible_encodings[i] {
            None => true,
            Some(other) => curr_size + extra_size < other.size,
        };
        if should_insert {
            let node_idx = self.nodes.len();
            let ghost old_nodes = self.nodes@;
            self.nodes.push(ArenaNode { token: next_token, prev: Some(curr_node) });
            let ghost old_slots = self.possible_encodings@;
            self.possible_encodings[i] = Some(
                Slot { node: node_idx, size: curr_size + extra_size, end },
            );
            proof {
                let nodes2 = self.nodes@;
                assert(nodes2 == old_nodes.push(
                    ArenaNode { token: next_token, prev: Some(curr_node) },
                ));
                assert(nodes_wf(nodes2)) by {
                    assert forall|j: int|
                        0 <= j < nodes2.len() implies match (#[trigger] nodes2[j]).prev {
                        Option::Some(p) => (p as int) < j,
                        Option::None => true,
                    } by {
                        if j < old_nodes.len() {
                            assert(nodes2[j] == old_nodes[j]);
                        }
                    }
                }
                lemma_chain_push(old_nodes, ArenaNode { token: next_token, prev: Some(curr_node) },
                    curr_node as int);
                assert(chain_tokens(nodes2, node_idx as int) == chain_tokens(
                    old_nodes,
                    curr_node as int,
                ).push(next_token));
                lemma_tokens_cover_snoc(
                    chain_tokens(old_nodes, curr_node as int),
                    self.data@,
                    0,
                    pos as int,
                    next_token,
                );
                assert(token_step(next_token) == extra_length as int);
                assert(tokens_cover(
                    chain_tokens(nodes2, node_idx as int),
                    self.data@,
                    0,
                    end as int,
                ));
                assert(chain_tokens(nodes2, node_idx as int).drop_last() =~= chain_tokens(
                    old_nodes,
                    curr_node as int,
                ));
                assert(tokens_cost_sum(chain_tokens(nodes2, node_idx as int)) == curr_size + 8
                    + spec_token_cost(next_token));
                assert forall|s: int|
                    0 <= s < self.possible_encodings@.len() implies match #[trigger] self
                    .possible_encodings@[s] {
                    Option::Some(st) => {
                        &&& (st.node as int) < nodes2.len()
                        &&& (st.end as int) % 258 == s
                        &&& pos + 1 <= st.end <= pos + 1 + 257
                        &&& st.end <= self.data@.len()
                        &&& st.size <= 31 * st.end
                        &&& st.size + 8 == tokens_cost_sum(chain_tokens(nodes2, st.node as int))
                        &&& tokens_cover(
                            chain_tokens(nodes2, st.node as int),
                            self.data@,
                            0,
                            st.end as int,
                        )
                    },
                    Option::None => true,
                } by {
                    if s != i as int {
                        assert(self.possible_encodings@[s] == old_slots[s]);
                        if let Option::Some(st) = old_slots[s] {
                            lemma_chain_push(
                                old_nodes,
                                ArenaNode { token: next_token, prev: Some(curr_node) },
                                st.node as int,
                            );
                        }
                    }
                }
            }
        } else {
            proof {
                assert(self.possible_encodings@[i as int] is Some);
                if let Option::Some(st) = self.possible_encodings@[i as int] {
                    lemma_mod_window(st.end as int, end as int);
                    assert(st.end == end);
                }
            }
        }
    }

    /// Runs the parser over the whole input and returns the cheapest
    /// token list found, in emission order.
    fn run(self) -> (tokens: Vec<Token>)
        requires
            self.wf(),
            self.reps_tracker.spec_pos() == 0,
            self.nodes@.len() == 0,
            forall|s: int| 0 <= s < 258 ==> self.possible_encodings@[s] is None,
        ensures
            tokens_cover(tokens@, self.data@, 0, self.data@.len() as int),
            tokens_cost_sum(tokens@) <= 8 * self.data@.len(),
            (tokens@.len() == 0) <==> (self.data@.len() == 0),
    {
        let mut this = self;
        let ghost data = this.data@;
        let n = this.data.len();
        if n == 0 {
            let tokens: Vec<Token> = Vec::new();
            proof {
                assert(tokens_cost_sum(tokens@) == 0);
            }
            return tokens;
        }

        // Seed: the first byte can only be a literal.
        let first = this.data[0];
        this.nodes.push(ArenaNode { token: Token::Literal(first), prev: None });
        this.possible_encodings[1 % MAX_REP_LEN] = Some(Slot { node: 0, size: 0, end: 1 });
        proof {
            assert(chain_tokens(this.nodes@, 0) == seq![Token::Literal(first)]);
            assert(seq![Token::Literal(first)].subrange(1, 1) =~= Seq::<Token>::empty());
            assert(tokens_cover(Seq::<Token>::empty(), data, 1, 1));
            assert(token_valid_at(data, 0, Token::Literal(first)));
            assert(tokens_cover(seq![Token::Literal(first)], data, 0, 1));
            assert(seq![Token::Literal(first)].drop_last() =~= Seq::<Token>::empty());
            assert(tokens_cost_sum(Seq::<Token>::empty()) == 0);
            assert(seq![Token::Literal(first)].last() == Token::Literal(first));
            assert(tokens_cost_sum(seq![Token::Literal(first)]) == 8);
        }
        this.reps_tracker.advance();
        proof {
            assert forall|s: int|
                0 <= s < this.possible_encodings@.len() implies match #[trigger] this
                .possible_encodings@[s] {
                Option::Some(st) => {
                    &&& (st.node as int) < this.nodes@.len()
                    &&& (st.end as int) % 258 == s
                    &&& 1 <= st.end <= 1 + 257
                    &&& st.end <= data.len()
                    &&& st.size <= 31 * st.end
                    &&& st.size + 8 == tokens_cost_sum(chain_tokens(this.nodes@, st.node as int))
                    &&& tokens_cover(chain_tokens(this.nodes@, st.node as int), data, 0, st.end as int)
                },
                Option::None => true,
            } by {}
        }

        while this.reps_tracker.pos < n
            invariant
                this.wf(),
                this.data@ == data,
                n == data.len(),
                1 <= this.reps_tracker.spec_pos() <= n,
                slots_ok(
                    this.possible_encodings@,
                    this.nodes@,
                    data,
                    this.reps_tracker.spec_pos() as int,
                ),
                this.possible_encodings@[(this.reps_tracker.spec_pos() % 258) as int] is Some,
                (match this.possible_encodings@[(this.reps_tracker.spec_pos() % 258) as int] {
                    Option::Some(st) => st.size + 8 <= 8 * this.reps_tracker.spec_pos(),
                    Option::None => false,
                }),
            decreases n - this.reps_tracker.spec_pos(),
        {
            let pos = this.reps_tracker.pos;
            let i = pos % MAX_REP_LEN;
            let slot_opt = this.possible_encodings[i];
            this.possible_encodings[i] = None;
            let (curr_node, curr_size) = match slot_opt {
                Some(st) => {
                    proof {
                        lemma_mod_window(st.end as int, pos as int);
                    }
                    (st.node, st.size)
                },
                None => {
                    proof {
                        assert(false);
                    }
                    (0, 0)
                },
            };
            proof {
                let ghost slots2 = this.possible_encodings@;
                assert forall|s: int|
                    0 <= s < slots2.len() implies match #[trigger] slots2[s] {
                    Option::Some(st) => {
                        &&& (st.node as int) < this.nodes@.len()
                        &&& (st.end as int) % 258 == s
                        &&& pos + 1 <= st.end <= pos + 1 + 257
                        &&& st.end <= data.len()
                        &&& st.size <= 31 * st.end
                        &&& st.size + 8 == tokens_cost_sum(chain_tokens(this.nodes@, st.node as int))
                        &&& tokens_cover(chain_tokens(this.nodes@, st.node as int), data, 0, st.end as int)
                    },
                    Option::None => true,
                } by {
                    if s != i as int {
                        if let Option::Some(st) = slots2[s] {
                            if st.end == pos {
                                lemma_mod_window(st.end as int, pos as int);
                                assert(s == i as int);
                            }
                        }
                    }
                }
            }

            // A literal for the next byte is always possible.
            let ghost nodes_before_lit = this.nodes@;
            this.insert_next(curr_node, curr_size, Token::Literal(this.data[pos]));
            proof {
                lemma_chain_prefix(nodes_before_lit, this.nodes@, curr_node as int);
            }

            // Every verified back-reference is a candidate too.
            let reps = this.reps_tracker.get_reps();
            let mut r: usize = 0;
            while r < reps.len()
                invariant
                    this.wf(),
                    this.data@ == data,
                    n == data.len(),
                    r <= reps@.len(),
                    this.reps_tracker.spec_pos() == pos,
                    pos < n,
                    (curr_node as int) < this.nodes@.len(),
                    curr_size <= 31 * pos,
                    curr_size + 8 == tokens_cost_sum(chain_tokens(this.nodes@, curr_node as int)),
                    tokens_cover(chain_tokens(this.nodes@, curr_node as int), data, 0, pos as int),
                    slots_ok(this.possible_encodings@, this.nodes@, data, pos + 1),
                    this.possible_encodings@[((pos + 1) % 258) as int] is Some,
                    (match this.possible_encodings@[((pos + 1) % 258) as int] {
                        Option::Some(st) => st.size + 8 <= 8 * (pos + 1),
                        Option::None => false,
                    }),
                    forall|k: int|
                        0 <= k < reps@.len() ==> #[trigger] token_valid_at(
                            data,
                            pos as int,
                            Token::Repeat(reps@[k].1, reps@[k].0 as u32),
                        ),
                decreases reps@.len() - r,
            {
                let (dist, len) = reps[r];
                let ghost nodes_before = this.nodes@;
                this.insert_next(curr_node, curr_size, Token::Repeat(len, dist as u32));
                proof {
                    lemma_chain_prefix(nodes_before, this.nodes@, curr_node as int);
                    // A repeat ends at least two bytes past the literal's
                    // successor slot, so that slot is untouched.
                    assert(token_valid_at(
                        data,
                        pos as int,
                        Token::Repeat(reps@[r as int].1, reps@[r as int].0 as u32),
                    ));
                    assert(3 <= len <= 258);
                    if (pos + 1) % 258 == (pos + len as int) % 258 {
                        lemma_mod_window((pos + 1) as int, pos + len as int);
                        assert(false);
                    }
                }
                r += 1;
            }
            this.reps_tracker.advance();
        }

        // Exactly one candidate remains: the parse of the whole input.
        let i = n % MAX_REP_LEN;
        let slot_opt = this.possible_encodings[i];
        let st = match slot_opt {
            Some(st) => {
                proof {
                    lemma_mod_window(st.end as int, n as int);
                }
                st
            },
            None => {
                proof {
                    assert(false);
                }
                Slot { node: 0, size: 0, end: 0 }
            },
        };

        // Walk the list head-to-front, then reverse.
        let ghost whole = chain_tokens(this.nodes@, st.node as int);
        proof {
            assert(tokens_cost_sum(whole) <= 8 * n);
        }
        let mut rev: Vec<Token> = Vec::new();
        let mut cur: usize = st.node;
        loop
            invariant_except_break
                nodes_wf(this.nodes@),
                (cur as int) < this.nodes@.len(),
                whole == chain_tokens(this.nodes@, st.node as int),
                whole =~= chain_tokens(this.nodes@, cur as int) + rev_suffix(rev@),
            ensures
                whole =~= rev_suffix(rev@),
            decreases cur,
        {
            let node = this.nodes[cur];
            let ghost old_rev = rev@;
            rev.push(node.token);
            proof {
                assert(rev_suffix(rev@) =~= seq![node.token] + rev_suffix(old_rev));
            }
            match node.prev {
                None => {
                    proof {
                        assert(chain_tokens(this.nodes@, cur as int) == seq![node.token]);
                        assert(whole =~= rev_suffix(rev@));
                    }
                    break ;
                },
                Some(p) => {
                    proof {
                        assert(chain_tokens(this.nodes@, cur as int) == chain_tokens(
                            this.nodes@,
                            p as int,
                        ).push(node.token));
                        assert(chain_tokens(this.nodes@, p as int).push(node.token) + rev_suffix(
                            old_rev,
                        ) =~= chain_tokens(this.nodes@, p as int) + rev_suffix(rev@));
                    }
                    cur = p;
                },
            }
        }
        let mut out: Vec<Token> = Vec::new();
        let m = rev.len();
        let mut k: usize = 0;
        while k < m
            invariant
                m == rev@.len(),
                k <= m,
                out@.len() == k,
                forall|t: int| 0 <= t < k ==> out@[t] == rev@[m - 1 - t],
            decreases m - k,
        {
            out.push(rev[m - 1 - k]);
            k += 1;
        }
        proof {
            assert(out@ =~= rev_suffix(rev@));
            assert(out@ =~= whole);
            assert(tokens_cost_sum(out@) <= 8 * n);
            if out@.len() == 0 {
                assert(tokens_cover(out@, data, 0, n as int));
                assert(false);
            }
        }
        out
    }
}

/// A vector of tokens read back to front.
spec fn rev_suffix(s: Seq<Token>) -> Seq<Token> {
    Seq::new(s.len(), |j: int| s[s.len() - 1 - j])
}

/// Reduces the input to a token sequence that covers it exactly: the
/// tokens decode back to `data`, every repeat refers into the 32 KiB
/// window, and no token runs past the end of the input.
pub fn lempel_ziv(data: &[u8]) -> (tokens: Vec<Token>)
    requires
        input_len_ok(data@.len() as int),
    ensures
        tokens_cover(tokens@, data@, 0, data@.len() as int),
        forall|i: int| 0 <= i < tokens@.len() ==> #[trigger] token_wf(tokens@[i]),
        tokens@.len() <= data@.len(),
        tokens_cost_sum(tokens@) <= 8 * data@.len(),
        (tokens@.len() == 0) <==> (data@.len() == 0),
{
    let tokens = Encoder::new(data).run();
    proof {
        lemma_tokens_cover_wf(tokens@, data@, 0, data@.len() as int);
        lemma_tokens_cover_len(tokens@, data@, 0, data@.len() as int);
    }
    tokens
}

} // verus!
