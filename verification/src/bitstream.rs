//! The mathematical model of an LSB-first bitstream: a `Seq<bool>` of
//! transmitted bits, and how byte vectors and bounded integers map onto
//! it.  The bit-stream writer's contracts are stated over this model.

use vstd::prelude::*;
use vstd::arithmetic::power2::pow2;
use vstd::arithmetic::power2::lemma_pow2_adds;
use vstd::arithmetic::power2::lemma_pow2_pos;
use vstd::arithmetic::power2::lemma_pow2_unfold;
use vstd::arithmetic::power2::lemma_pow2_strictly_increases;
use vstd::arithmetic::div_mod::lemma_fundamental_div_mod;
use vstd::arithmetic::div_mod::lemma_fundamental_div_mod_converse;
use vstd::arithmetic::div_mod::lemma_div_denominator;
use vstd::arithmetic::div_mod::lemma_mod_multiples_vanish;

verus! {

/// Bit `k` of a value, LSB first.
pub open spec fn bit_of(x: nat, k: nat) -> bool {
    (x / pow2(k)) % 2 == 1
}

/// The low `n` bits of a value, in transmission (LSB-first) order.
pub open spec fn val_bits(x: nat, n: nat) -> Seq<bool> {
    Seq::new(n, |i: int| bit_of(x, i as nat))
}

/// The eight bits of one byte, LSB first.
pub open spec fn byte_bits(b: u8) -> Seq<bool> {
    val_bits(b as nat, 8)
}

/// The bitstream a byte vector carries: each byte LSB first, in order.
pub open spec fn bytes_bits(s: Seq<u8>) -> Seq<bool> {
    Seq::new(8 * s.len(), |i: int| bit_of(s[i / 8] as nat, (i % 8) as nat))
}

/// Bit `i` of `a + b * 2^m` is bit `i` of `a` below `m` and bit
/// `i - m` of `b` from `m` on, provided `a` fits in `m` bits.
pub proof fn lemma_bit_of_combine(a: nat, b: nat, m: nat, i: nat)
    requires
        a < pow2(m),
    ensures
        bit_of(a + b * pow2(m), i) == if i < m {
            bit_of(a, i)
        } else {
            bit_of(b, (i - m) as nat)
        },
{
    let x = a + b * pow2(m);
    lemma_pow2_pos(m);
    if i < m {
        lemma_pow2_pos(i as nat);
        lemma_pow2_adds(i as nat, (m - i) as nat);
        lemma_fundamental_div_mod(a as int, pow2(i) as int);
        let qa = a as int / pow2(i) as int;
        let ra = a as int % pow2(i) as int;
        let t = b * pow2((m - i) as nat);
        assert(b * pow2(m) == t * pow2(i)) by (nonlinear_arith)
            requires
                pow2(m) == pow2(i) * pow2((m - i) as nat),
                t == b * pow2((m - i) as nat),
        ;
        assert(x as int == (qa + t) * pow2(i) as int + ra) by (nonlinear_arith)
            requires
                a as int == qa * pow2(i) as int + ra,
                x == a + b * pow2(m),
                b * pow2(m) == t * pow2(i),
        ;
        lemma_fundamental_div_mod_converse(x as int, pow2(i) as int, qa + t, ra);
        assert(x as int / pow2(i) as int == qa + t);
        // `t` is even because `m - i >= 1`.
        lemma_pow2_unfold((m - i) as nat);
        let h = b * pow2((m - i - 1) as nat);
        assert(t == 2 * h) by (nonlinear_arith)
            requires
                t == b * pow2((m - i) as nat),
                pow2((m - i) as nat) == 2 * pow2((m - i - 1) as nat),
                h == b * pow2((m - i - 1) as nat),
        ;
        lemma_mod_multiples_vanish(h as int, qa, 2);
        assert((qa + t) % 2 == qa % 2);
    } else {
        // Dividing by 2^m strips `a` and leaves `b`.
        lemma_fundamental_div_mod_converse(x as int, pow2(m) as int, b as int, a as int);
        assert(x as int / pow2(m) as int == b);
        lemma_pow2_adds(m, (i - m) as nat);
        lemma_pow2_pos((i - m) as nat);
        lemma_div_denominator(x as int, pow2(m) as int, pow2((i - m) as nat) as int);
        assert(x as int / pow2(i) as int == b as int / pow2((i - m) as nat) as int);
    }
}

/// Concatenation law of the bit model: the bits of `a + b * 2^m` are
/// the `m` bits of `a` followed by the bits of `b`.
pub proof fn lemma_val_bits_combine(a: nat, b: nat, m: nat, k: nat)
    requires
        a < pow2(m),
    ensures
        val_bits(a + b * pow2(m), (m + k) as nat) == val_bits(a, m) + val_bits(b, k),
{
    assert forall|i: int| 0 <= i < m + k implies val_bits(a + b * pow2(m), (m + k) as nat)[i]
        == (val_bits(a, m) + val_bits(b, k))[i] by {
        lemma_bit_of_combine(a, b, m, i as nat);
    }
    assert(val_bits(a + b * pow2(m), (m + k) as nat) =~= val_bits(a, m) + val_bits(b, k));
}

/// Bits above the width of a value are zero.
pub proof fn lemma_bit_of_high_zero(x: nat, n: nat, i: nat)
    requires
        x < pow2(n),
        n <= i,
    ensures
        !bit_of(x, i),
{
    lemma_pow2_pos(i);
    if n < i {
        lemma_pow2_strictly_increases(n, i);
    }
    lemma_fundamental_div_mod_converse(x as int, pow2(i) as int, 0, x as int);
    assert(x as int / pow2(i) as int == 0);
}

/// Widening a value's bit window only appends zero bits.
pub proof fn lemma_val_bits_extend(x: nat, n: nat, k: nat)
    requires
        x < pow2(n),
        n <= k,
    ensures
        val_bits(x, k) == val_bits(x, n) + val_bits(0, (k - n) as nat),
{
    assert forall|i: int| 0 <= i < k implies val_bits(x, k)[i] == (val_bits(x, n) + val_bits(
        0,
        (k - n) as nat,
    ))[i] by {
        if i >= n {
            lemma_bit_of_high_zero(x, n, i as nat);
            lemma_pow2_pos((i - n) as nat);
            assert(0nat / pow2((i - n) as nat) == 0);
        }
    }
    assert(val_bits(x, k) =~= val_bits(x, n) + val_bits(0, (k - n) as nat));
}

/// Appending a byte to a vector appends its eight bits to the stream.
pub proof fn lemma_bytes_bits_push(s: Seq<u8>, b: u8)
    ensures
        bytes_bits(s.push(b)) == bytes_bits(s) + byte_bits(b),
{
    let t = s.push(b);
    assert forall|i: int| 0 <= i < 8 * t.len() implies bytes_bits(t)[i] == (bytes_bits(s)
        + byte_bits(b))[i] by {
        lemma_fundamental_div_mod(i, 8);
        if i < 8 * s.len() {
            assert(i / 8 < s.len()) by (nonlinear_arith)
                requires
                    i == 8 * (i / 8) + i % 8,
                    0 <= i % 8 < 8,
                    i < 8 * s.len(),
            ;
            assert(t[i / 8] == s[i / 8]);
        } else {
            lemma_fundamental_div_mod_converse(i, 8, s.len() as int, i - 8 * s.len());
            assert(i / 8 == s.len() as int);
            assert(t[i / 8] == b);
            assert(byte_bits(b)[i - 8 * s.len()] == bit_of(b as nat, (i % 8) as nat));
        }
    }
    assert(bytes_bits(t) =~= bytes_bits(s) + byte_bits(b));
}

/// Splitting off the low byte of a bit-register: its first eight bits
/// are the byte `c % 256`, the rest are the bits of `c / 256`.
pub proof fn lemma_split_low_byte(c: nat, f: nat)
    requires
        8 <= f,
    ensures
        val_bits(c, f) == val_bits(c % 256, 8) + val_bits(c / 256, (f - 8) as nat),
{
    lemma_fundamental_div_mod(c as int, 256);
    assert(pow2(8) == 256) by {
        vstd::arithmetic::power2::lemma2_to64();
    }
    assert(c == (c % 256) + (c / 256) * pow2(8)) by (nonlinear_arith)
        requires
            c as int == 256 * (c as int / 256) + c as int % 256,
            pow2(8) == 256,
    ;
    lemma_val_bits_combine(c % 256, c / 256, 8, (f - 8) as nat);
}

} // verus!

