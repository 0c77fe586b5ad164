//! Exact integer computation of a rounded base-two logarithm estimate.
//!
//! The entropy of a password of `len` characters drawn from an alphabet of
//! `k` symbols is `len * log2(k)` bits, rounded to the nearest integer.
//! Rounding half up, that value equals `floor((floor(2 * len * log2(k)) + 1) / 2)`,
//! and `floor(2 * len * log2(k))` is one less than the bit length of
//! `(k * k) ^ len`.  So the rounded entropy is exactly
//! `bit_length((k * k) ^ len) / 2`, an integer quantity that an accumulator
//! over machine words can compute without any floating-point arithmetic.

use vstd::prelude::*;
use vstd::arithmetic::power2::{pow2, lemma_pow2_adds, lemma_pow2_pos, lemma_pow2_strictly_increases, lemma2_to64, lemma2_to64_rest};
use vstd::arithmetic::div_mod::lemma_fundamental_div_mod;
use vstd::arithmetic::mul::lemma_mul_inequality;

verus! {

/// `base` raised to `exp`, over the natural numbers.
pub open spec fn pow_nat(base: nat, exp: nat) -> nat
    decreases exp,
{
    if exp == 0 {
        1
    } else {
        base * pow_nat(base, (exp - 1) as nat)
    }
}

/// Number of binary digits of `n`: 0 for 0, and `floor(log2(n)) + 1` otherwise.
pub open spec fn bit_length(n: nat) -> nat
    decreases n,
{
    if n == 0 {
        0
    } else {
        1 + bit_length(n / 2)
    }
}

/// Rounded number of entropy bits of `len` symbols over an alphabet of `k`
/// symbols: `len * log2(k)` rounded half up to the nearest integer.
pub open spec fn entropy_bits(len: nat, k: nat) -> nat {
    if len == 0 {
        0
    } else {
        bit_length(pow_nat(k * k, len)) / 2
    }
}

/// `n` clamped to the values a `u32` can carry.
pub open spec fn sat_u32(n: nat) -> nat {
    if n > u32::MAX {
        u32::MAX as nat
    } else {
        n
    }
}

/// Value of a little-endian sequence of 64-bit words.
pub open spec fn words_value(s: Seq<u64>) -> nat
    decreases s.len(),
{
    if s.len() == 0 {
        0
    } else {
        words_value(s.drop_last()) + (s.last() as nat) * pow2(64 * (s.len() - 1) as nat)
    }
}

proof fn lemma_words_value_bound(s: Seq<u64>)
    ensures
        words_value(s) < pow2(64 * s.len()),
    decreases s.len(),
{
    lemma_pow2_pos(64 * s.len());
    if s.len() > 0 {
        let n = s.len();
        lemma_words_value_bound(s.drop_last());
        lemma_pow2_pos(64 * (n - 1) as nat);
        lemma_mul_inequality(s.last() as int, 0xffff_ffff_ffff_ffff, pow2(64 * (n - 1) as nat) as int);
        lemma_pow2_adds(64 * (n - 1) as nat, 64);
        lemma2_to64_rest();
        assert(pow2(64) == 0x1_0000_0000_0000_0000);
        assert(words_value(s.drop_last()) + (s.last() as nat) * pow2(64 * (n - 1) as nat)
            < pow2(64 * (n - 1) as nat) + 0xffff_ffff_ffff_ffff * pow2(64 * (n - 1) as nat));
        assert(pow2(64 * (n - 1) as nat) * pow2(64) == pow2(64 * n));
    }
}

/// Adding a high part shifts the bit length: for `a >= 1` and `b < 2^s`,
/// the bit length of `b + a * 2^s` is `s` plus the bit length of `a`.
proof fn lemma_bit_length_shift(a: nat, b: nat, s: nat)
    requires
        a >= 1,
        b < pow2(s),
    ensures
        bit_length(b + a * pow2(s)) == s + bit_length(a),
    decreases s,
{
    lemma_pow2_pos(s);
    if s == 0 {
        lemma2_to64();
        assert(pow2(0) == 1);
        assert(b == 0);
        assert(b + a * 1 == a);
    } else {
        let n0 = b + a * pow2(s);
        lemma_pow2_adds((s - 1) as nat, 1);
        lemma2_to64();
        assert(pow2(1) == 2);
        assert(pow2(s) == pow2((s - 1) as nat) * 2);
        let p = pow2((s - 1) as nat);
        lemma_pow2_pos((s - 1) as nat);
        // n0 = (b % 2) + 2 * (b / 2 + a * p), with b % 2 < 2
        lemma_fundamental_div_mod(b as int, 2);
        assert(a * (p * 2) == (a * p) * 2) by (nonlinear_arith);
        assert(n0 == (b % 2) + 2 * (b / 2 + a * p));
        assert(n0 / 2 == b / 2 + a * p) by {
            lemma_fundamental_div_mod(n0 as int, 2);
            let q = b / 2 + a * p;
            assert(n0 == 2 * q + (b % 2));
            assert(0 <= (b % 2) < 2);
            assert(n0 / 2 == q) by (nonlinear_arith)
                requires
                    n0 == 2 * q + (b % 2),
                    0 <= (b % 2) < 2,
                    q >= 0,
            ;
        }
        assert(b / 2 < p) by {
            assert(b < p * 2);
        }
        lemma_bit_length_shift(a, b / 2, (s - 1) as nat);
        assert(a * p >= 1) by (nonlinear_arith)
            requires
                a >= 1,
                p >= 1,
        ;
        assert(n0 != 0);
        assert(bit_length(n0) == 1 + bit_length(n0 / 2));
    }
}

/// A positive number lies between the two powers of two that its bit length
/// names.
proof fn lemma_bit_length_brackets(n: nat)
    requires
        n >= 1,
    ensures
        pow2((bit_length(n) - 1) as nat) <= n < pow2(bit_length(n)),
    decreases n,
{
    lemma2_to64();
    if n == 1 {
        assert(bit_length(1) == 1 + bit_length(0));
    } else {
        lemma_bit_length_brackets(n / 2);
        let bl2 = bit_length(n / 2);
        assert(bit_length(n) == 1 + bl2);
        lemma_pow2_adds((bl2 - 1) as nat, 1);
        lemma_pow2_adds(bl2, 1);
        assert(pow2(bl2) == pow2((bl2 - 1) as nat) * 2);
        assert(pow2(bl2 + 1) == pow2(bl2) * 2);
        assert(n >= 2 * (n / 2));
        assert(n <= 2 * (n / 2) + 1);
    }
}

/// A power of a positive base is positive.
proof fn lemma_pow_nat_pos(b: nat, e: nat)
    requires
        b >= 1,
    ensures
        pow_nat(b, e) >= 1,
    decreases e,
{
    if e > 0 {
        lemma_pow_nat_pos(b, (e - 1) as nat);
        assert(b * pow_nat(b, (e - 1) as nat) >= 1) by (nonlinear_arith)
            requires
                b >= 1,
                pow_nat(b, (e - 1) as nat) >= 1,
        ;
    }
}

/// A power with a positive exponent is at least its base.
proof fn lemma_pow_nat_at_least_base(b: nat, e: nat)
    requires
        b >= 1,
        e >= 1,
    ensures
        pow_nat(b, e) >= b,
{
    lemma_pow_nat_pos(b, (e - 1) as nat);
    assert(pow_nat(b, e) == b * pow_nat(b, (e - 1) as nat));
    assert(b * pow_nat(b, (e - 1) as nat) >= b) by (nonlinear_arith)
        requires
            b >= 1,
            pow_nat(b, (e - 1) as nat) >= 1,
    ;
}

/// Squaring the base halves the exponent.
proof fn lemma_pow_nat_square(k: nat, len: nat)
    ensures
        pow_nat(k * k, len) == pow_nat(k, 2 * len),
    decreases len,
{
    if len > 0 {
        lemma_pow_nat_square(k, (len - 1) as nat);
        assert(pow_nat(k, 2 * len) == k * pow_nat(k, (2 * len - 1) as nat));
        assert(pow_nat(k, (2 * len - 1) as nat) == k * pow_nat(k, (2 * (len - 1)) as nat));
        assert(k * (k * pow_nat(k, (2 * (len - 1)) as nat))
            == (k * k) * pow_nat(k, (2 * (len - 1)) as nat)) by (nonlinear_arith);
    }
}

/// The score is the rounded binary logarithm estimate: writing `m` for
/// `entropy_bits(len, k)`, the number `k ^ (2 * len)` lies on or above
/// `2 ^ (2 * m - 1)` and below `2 ^ (2 * m + 1)`, so `m` differs from
/// `len * log2(k)` by at most one half.
pub proof fn lemma_entropy_bits_is_rounded_log(len: nat, k: nat)
    requires
        1 <= len,
        2 <= k,
    ensures
        entropy_bits(len, k) >= 1,
        pow2((2 * entropy_bits(len, k) - 1) as nat) <= pow_nat(k, 2 * len),
        pow_nat(k, 2 * len) < pow2(2 * entropy_bits(len, k) + 1),
{
    lemma_pow_nat_square(k, len);
    let v = pow_nat(k * k, len);
    assert(k * k >= 4) by (nonlinear_arith)
        requires
            k >= 2,
    ;
    lemma_pow_nat_at_least_base(k * k, len);
    assert(v >= 4);
    lemma_bit_length_brackets(v);
    let bl = bit_length(v);
    assert(bl >= 3) by {
        lemma2_to64();
        if bl <= 2 {
            lemma_bit_length_bound(v, 2);
            assert(v < pow2(2));
        }
    }
    let m = entropy_bits(len, k);
    assert(m == bl / 2);
    if bl == 2 * m {
        lemma_pow2_strictly_increases(2 * m, 2 * m + 1);
    } else {
        assert(bl == 2 * m + 1);
        lemma_pow2_strictly_increases((2 * m - 1) as nat, 2 * m);
    }
}

/// A number below `2^k` has bit length at most `k`.
proof fn lemma_bit_length_bound(n: nat, k: nat)
    requires
        n < pow2(k),
    ensures
        bit_length(n) <= k,
    decreases k,
{
    if n == 0 {
    } else if k == 0 {
        lemma2_to64();
        assert(pow2(0) == 1);
    } else {
        lemma_pow2_adds((k - 1) as nat, 1);
        lemma2_to64();
        assert(pow2(1) == 2);
        assert(n / 2 < pow2((k - 1) as nat));
        lemma_bit_length_bound(n / 2, (k - 1) as nat);
    }
}

/// Little-endian multiple-precision accumulator for one natural number.
pub struct Accum {
    words: Vec<u64>,
}

impl Accum {
    /// The words carry no leading zero, so the bit length of the value is
    /// determined by the topmost word.
    pub closed spec fn wf(self) -> bool {
        self.words@.len() >= 1 && self.words@.last() != 0
    }

    pub closed spec fn value(self) -> nat {
        words_value(self.words@)
    }

    /// The accumulator holding one.
    pub fn one() -> (r: Accum)
        ensures
            r.wf(),
            r.value() == 1,
    {
        let mut words: Vec<u64> = Vec::new();
        words.push(1u64);
        let r = Accum { words };
        proof {
            assert(r.words@.drop_last() =~= Seq::<u64>::empty());
            assert(words_value(Seq::<u64>::empty()) == 0);
            lemma2_to64();
            assert(pow2(0) == 1);
            assert(r.words@.last() == 1u64);
        }
        r
    }

    /// Multiply the held value in place by a small factor.
    pub fn mul_small(&mut self, m: u64)
        requires
            old(self).wf(),
            1 <= m <= 0x1_0000_0000,
        ensures
            final(self).wf(),
            final(self).value() == m * old(self).value(),
    {
        let ghost orig = self.words@;
        let n = self.words.len();
        let mut out: Vec<u64> = Vec::new();
        let mut carry: u64 = 0;
        let mut i: usize = 0;
        proof {
            assert(orig.subrange(0, 0) =~= Seq::<u64>::empty());
            assert(out@ =~= Seq::<u64>::empty());
            assert(words_value(Seq::<u64>::empty()) == 0);
            lemma2_to64();
            assert(pow2(0) == 1);
        }
        while i < n
            invariant
                n == orig.len(),
                self.words@ == orig,
                old(self).wf(),
                orig.last() != 0,
                1 <= m <= 0x1_0000_0000,
                i <= n,
                out@.len() == i,
                carry < m,
                (m as nat) * words_value(orig.subrange(0, i as int))
                    == words_value(out@) + (carry as nat) * pow2(64 * i as nat),
                i == n && carry == 0 ==> out@.last() != 0,
            decreases n - i,
        {
            let w = self.words[i];
            proof {
                assert((w as nat) * (m as nat) <= 0xffff_ffff_ffff_ffff * 0x1_0000_0000)
                    by (nonlinear_arith)
                    requires
                        w <= 0xffff_ffff_ffff_ffff,
                        m <= 0x1_0000_0000,
                ;
            }
            let prod: u128 = (w as u128) * (m as u128) + (carry as u128);
            let low: u64 = (prod % 0x1_0000_0000_0000_0000u128) as u64;
            let hi: u64 = (prod / 0x1_0000_0000_0000_0000u128) as u64;
            proof {
                lemma_fundamental_div_mod(prod as int, 0x1_0000_0000_0000_0000);
                // the new carry stays below m
                assert(prod < (m as u128) * 0x1_0000_0000_0000_0000) by (nonlinear_arith)
                    requires
                        prod == (w as u128) * (m as u128) + (carry as u128),
                        w <= 0xffff_ffff_ffff_ffff,
                        carry < m,
                        1 <= m,
                ;
                assert(hi < m) by (nonlinear_arith)
                    requires
                        prod < (m as u128) * 0x1_0000_0000_0000_0000,
                        hi == prod / 0x1_0000_0000_0000_0000,
                ;
            }
            let ghost out_before = out@;
            out.push(low);
            proof {
                let i0 = i as int;
                let p = pow2(64 * i as nat);
                let big: nat = 0x1_0000_0000_0000_0000;
                assert(out@.drop_last() =~= out_before);
                assert(words_value(out@) == words_value(out_before) + (low as nat) * p);
                assert(orig.subrange(0, i0 + 1).drop_last() =~= orig.subrange(0, i0));
                assert(words_value(orig.subrange(0, i0 + 1))
                    == words_value(orig.subrange(0, i0)) + (orig[i0] as nat) * p);
                lemma_pow2_adds(64 * i as nat, 64);
                lemma2_to64_rest();
                assert(pow2(64) == 0x1_0000_0000_0000_0000);
                assert(pow2(64 * (i + 1) as nat) == p * big);
                assert((low as nat) + (hi as nat) * big == prod as nat);
                assert(prod as nat == (orig[i0] as nat) * (m as nat) + (carry as nat));
                assert((m as nat) * (orig[i0] as nat) == (orig[i0] as nat) * (m as nat))
                    by (nonlinear_arith);
                assert((m as nat) * (orig[i0] as nat) + (carry as nat)
                    == (low as nat) + (hi as nat) * big);
                assert((m as nat) * words_value(orig.subrange(0, i0 + 1))
                    == (m as nat) * words_value(orig.subrange(0, i0))
                        + ((m as nat) * (orig[i0] as nat)) * p) by (nonlinear_arith)
                    requires
                        words_value(orig.subrange(0, i0 + 1))
                            == words_value(orig.subrange(0, i0)) + (orig[i0] as nat) * p,
                ;
                assert(((m as nat) * (orig[i0] as nat)) * p + (carry as nat) * p
                    == ((low as nat) + (hi as nat) * big) * p) by (nonlinear_arith)
                    requires
                        (m as nat) * (orig[i0] as nat) + (carry as nat)
                            == (low as nat) + (hi as nat) * big,
                ;
                assert(((low as nat) + (hi as nat) * big) * p
                    == (low as nat) * p + (hi as nat) * (p * big)) by (nonlinear_arith);
                assert((m as nat) * words_value(orig.subrange(0, i0 + 1))
                    == words_value(out@) + (hi as nat) * pow2(64 * (i + 1) as nat));
                // a zero final carry leaves a nonzero top word
                if i + 1 == n && hi == 0 {
                    assert(orig[i0] == orig.last());
                    assert(prod == (w as u128) * (m as u128) + (carry as u128));
                    assert((w as u128) * (m as u128) >= 1) by (nonlinear_arith)
                        requires
                            w >= 1,
                            m >= 1,
                    ;
                    assert(low >= 1);
                }
            }
            carry = hi;
            i = i + 1;
        }
        proof {
            assert(orig.subrange(0, n as int) =~= orig);
        }
        if carry > 0 {
            let ghost out_before = out@;
            out.push(carry);
            proof {
                assert(out@.drop_last() =~= out_before);
            }
        }
        self.words = out;
    }

    /// Bit length of the held value.
    pub fn bit_len(&self) -> (r: u128)
        requires
            self.wf(),
        ensures
            r == bit_length(self.value()),
    {
        let n = self.words.len();
        let top = self.words[n - 1];
        let tb = bits_u64(top);
        proof {
            let s = self.words@;
            assert(s.last() == top);
            lemma_words_value_bound(s.drop_last());
            lemma_bit_length_shift(top as nat, words_value(s.drop_last()), 64 * (n - 1) as nat);
        }
        ((n - 1) as u128) * 64 + (tb as u128)
    }
}

/// Bit length of a single 64-bit word.
fn bits_u64(x: u64) -> (r: u64)
    requires
        x >= 1,
    ensures
        r == bit_length(x as nat),
{
    let mut rest: u64 = x;
    let mut count: u64 = 0;
    proof {
        lemma2_to64_rest();
        assert(pow2(64) == 0x1_0000_0000_0000_0000);
        lemma_bit_length_bound(x as nat, 64);
    }
    while rest > 0
        invariant
            count + bit_length(rest as nat) == bit_length(x as nat),
            bit_length(x as nat) <= 64,
        decreases rest,
    {
        rest = rest / 2;
        count = count + 1;
    }
    count
}

/// Rounded entropy, clamped to `u32`, of `len` symbols over an alphabet of
/// `k` symbols.
pub fn entropy_bits_u32(len: usize, k: u32) -> (r: u32)
    requires
        2 <= k <= 65536,
    ensures
        r == sat_u32(entropy_bits(len as nat, k as nat)),
{
    if len == 0 {
        return 0;
    }
    proof {
        assert(4 <= (k as nat) * (k as nat) <= 0x1_0000_0000) by (nonlinear_arith)
            requires
                2 <= k <= 65536,
        ;
    }
    let k2: u64 = (k as u64) * (k as u64);
    let mut acc = Accum::one();
    let mut i: usize = 0;
    while i < len
        invariant
            2 <= k <= 65536,
            k2 == (k as nat) * (k as nat),
            4 <= k2 <= 0x1_0000_0000,
            i <= len,
            acc.wf(),
            acc.value() == pow_nat(k2 as nat, i as nat),
        decreases len - i,
    {
        acc.mul_small(k2);
        i = i + 1;
    }
    let bits: u128 = acc.bit_len();
    let half: u128 = bits / 2;
    proof {
        assert(entropy_bits(len as nat, k as nat) == bit_length(pow_nat(k2 as nat, len as nat)) / 2);
    }
    if half > 0xffff_ffff {
        u32::MAX
    } else {
        half as u32
    }
}

} // verus!
