//! Exact sums of scaled integers, cut to machine width without losing what
//! rounding needs.

use crate::rounding::{count_bits, lemma_bit_length, lemma_power_at_most, lemma_top_power, two_to};
use vstd::arithmetic::div_mod::*;
use vstd::arithmetic::mul::*;
use vstd::arithmetic::power2::*;
use vstd::prelude::*;

verus! {

/// Absolute value of an integer.
pub open spec fn abs_int(x: int) -> nat {
    if x < 0 {
        (-x) as nat
    } else {
        x as nat
    }
}

/// The integer `+/-m * 2^k`.
pub open spec fn scaled(negative: bool, m: nat, k: nat) -> int {
    if negative {
        -((m * pow2(k)) as int)
    } else {
        (m * pow2(k)) as int
    }
}

pub proof fn lemma_shift(m: nat, k: nat, s: nat)
    requires
        s <= k,
    ensures
        (m * pow2(s)) * pow2((k - s) as nat) == m * pow2(k),
{
    lemma_pow2_adds(s, (k - s) as nat);
    lemma_mul_is_associative(m as int, pow2(s) as int, pow2((k - s) as nat) as int);
}

/// Moves the leading bit of `m` to bit 105.
pub fn normalise(m: u128, k: u32) -> (r: (u128, u32))
    requires
        0 < m < 0x400_0000_0000_0000_0000_0000_0000,
        106 <= k,
    ensures
        0x200_0000_0000_0000_0000_0000_0000 <= r.0 < 0x400_0000_0000_0000_0000_0000_0000,
        k - 106 <= r.1 <= k,
        r.0 * pow2(r.1 as nat) == m * pow2(k as nat),
{
    let l: u32 = count_bits(m);
    proof {
        lemma_normal_power();
        lemma_bit_length(m as nat);
        if l > 106 {
            lemma_power_at_most(106, (l - 1) as nat);
        }
    }
    let s: u32 = 106 - l;
    let p: u128 = two_to(s);
    proof {
        lemma_pow2_adds(l as nat, s as nat);
        lemma_pow2_adds((l - 1) as nat, s as nat);
        lemma_pow2_pos(s as nat);
        assert(m * p < pow2(l as nat) * pow2(s as nat)) by (nonlinear_arith)
            requires
                m < pow2(l as nat),
                p == pow2(s as nat),
                p > 0,
        ;
        assert(m * p >= pow2((l - 1) as nat) * pow2(s as nat)) by (nonlinear_arith)
            requires
                m >= pow2((l - 1) as nat),
                p == pow2(s as nat),
        ;
        lemma_shift(m as nat, k as nat, s as nat);
    }
    (m * p, k - s)
}

pub proof fn lemma_normal_power()
    ensures
        pow2(105) == 0x200_0000_0000_0000_0000_0000_0000,
        pow2(106) == 0x400_0000_0000_0000_0000_0000_0000,
        pow2(20) == 0x10_0000,
        pow2(126) == 0x4000_0000_0000_0000_0000_0000_0000_0000,
{
    lemma2_to64();
    lemma2_to64_rest();
    lemma_pow2_adds(64, 41);
    lemma_pow2_adds(64, 42);
    lemma_pow2_adds(64, 62);
}

/// The exact sum of two scaled integers, cut at a bit position that leaves room
/// for rounding: sign, integer part, exponent, and whether anything was cut off.
pub fn exact_sum(s1: bool, m1: u128, k1: u32, s2: bool, m2: u128, k2: u32) -> (r: (bool, u128, u32, bool))
    requires
        m1 < 0x400_0000_0000_0000_0000_0000_0000,
        m2 < 0x400_0000_0000_0000_0000_0000_0000,
        200 <= k1 <= 8000,
        200 <= k2 <= 8000,
    ensures
        ({
            let x = scaled(s1, m1 as nat, k1 as nat) + scaled(s2, m2 as nat, k2 as nat);
            let num = abs_int(x);
            &&& (x == 0) == (r.1 == 0)
            &&& x != 0 ==> r.0 == (x < 0)
            &&& x != 0 ==> r.1 == num / pow2(r.2 as nat)
            &&& x != 0 ==> r.3 == (num % pow2(r.2 as nat) != 0)
            &&& r.3 ==> r.1 >= 0x40_0000_0000_0000
            &&& r.2 <= 8000
        }),
{
    if m1 == 0 {
        proof {
            lemma_whole(m2 as nat, k2 as nat);
            lemma_mul_basics(pow2(k1 as nat) as int);
        }
        return (s2, m2, k2, false);
    }
    if m2 == 0 {
        proof {
            lemma_whole(m1 as nat, k1 as nat);
            lemma_mul_basics(pow2(k2 as nat) as int);
        }
        return (s1, m1, k1, false);
    }
    let (n1, j1): (u128, u32) = normalise(m1, k1);
    let (n2, j2): (u128, u32) = normalise(m2, k2);
    if j1 >= j2 {
        ordered_sum(s1, n1, j1, s2, n2, j2)
    } else {
        ordered_sum(s2, n2, j2, s1, n1, j1)
    }
}

pub proof fn lemma_whole(m: nat, k: nat)
    ensures
        (m * pow2(k)) / pow2(k) == m,
        (m * pow2(k)) % pow2(k) == 0,
        m > 0 ==> m * pow2(k) > 0,
{
    lemma_pow2_pos(k);
    lemma_fundamental_div_mod_converse((m * pow2(k)) as int, pow2(k) as int, m as int, 0);
    if m > 0 {
        assert(m * pow2(k) > 0) by (nonlinear_arith)
            requires
                m > 0,
                pow2(k) > 0,
        ;
    }
}

/// `exact_sum` for normalised operands with `k1 >= k2`.
fn ordered_sum(s1: bool, m1: u128, k1: u32, s2: bool, m2: u128, k2: u32) -> (r: (bool, u128, u32, bool))
    requires
        0x200_0000_0000_0000_0000_0000_0000 <= m1 < 0x400_0000_0000_0000_0000_0000_0000,
        0x200_0000_0000_0000_0000_0000_0000 <= m2 < 0x400_0000_0000_0000_0000_0000_0000,
        k2 <= k1 <= 8000,
        20 <= k1,
    ensures
        ({
            let x = scaled(s1, m1 as nat, k1 as nat) + scaled(s2, m2 as nat, k2 as nat);
            let num = abs_int(x);
            &&& (x == 0) == (r.1 == 0)
            &&& x != 0 ==> r.0 == (x < 0)
            &&& x != 0 ==> r.1 == num / pow2(r.2 as nat)
            &&& x != 0 ==> r.3 == (num % pow2(r.2 as nat) != 0)
            &&& r.3 ==> r.1 >= 0x40_0000_0000_0000
            &&& r.2 <= 8000
        }),
{
    let k: u32 = k1 - 20;
    let hi: u128 = m1 * 0x10_0000;
    let d: u32 = k1 - k2;
    let ghost w = pow2(k as nat) as int;
    let ghost x1 = m1 * pow2(k1 as nat);
    let ghost x2 = m2 * pow2(k2 as nat);
    proof {
        lemma_normal_power();
        lemma_pow2_pos(k as nat);
        lemma_shift(m1 as nat, k1 as nat, 20);
        assert(x1 == hi * w);
    }
    if d <= 20 {
        let p: u128 = two_to(20 - d);
        proof {
            lemma_pow2_pos((20 - d) as nat);
            lemma_power_at_most((20 - d) as nat, 20);
            if d > 0 {
                lemma_power_at_most((20 - d) as nat, 19);
                lemma_pow2_unfold(20);
            }
            assert(0 < m2 * p < 0x4000_0000_0000_0000_0000_0000_0000_0000) by (nonlinear_arith)
                requires
                    0 < m2 < 0x400_0000_0000_0000_0000_0000_0000,
                    0 < p <= 0x10_0000,
            ;
            if d > 0 {
                assert(m2 * p < hi) by (nonlinear_arith)
                    requires
                        0 < m2 < 0x400_0000_0000_0000_0000_0000_0000,
                        0 < p <= 0x8_0000,
                        hi >= 0x2000_0000_0000_0000_0000_0000_0000_0000,
                ;
            }
            lemma_shift(m2 as nat, k2 as nat, (20 - d) as nat);
        }
        let lo: u128 = m2 * p;
        if s1 == s2 {
            proof {
                lemma_combine(hi as int, lo as int, w, x1 as int, x2 as int);
                lemma_whole((hi + lo) as nat, k as nat);
            }
            (s1, hi + lo, k, false)
        } else if hi >= lo {
            proof {
                lemma_combine(hi as int, lo as int, w, x1 as int, x2 as int);
                lemma_whole((hi - lo) as nat, k as nat);
            }
            (s1, hi - lo, k, false)
        } else {
            proof {
                lemma_combine(hi as int, lo as int, w, x1 as int, x2 as int);
                lemma_whole((lo - hi) as nat, k as nat);
            }
            (s2, lo - hi, k, false)
        }
    } else {
        let t: u32 = d - 20;
        let (lo, sticky): (u128, bool) = if t < 128 {
            let p: u128 = two_to(t);
            proof {
                lemma_pow2_pos(t as nat);
            }
            (m2 / p, m2 % p != 0)
        } else {
            (0, true)
        };
        let ghost p = pow2(t as nat);
        proof {
            lemma_pow2_pos(t as nat);
            lemma_top_power();
            if t >= 128 {
                lemma_power_at_most(128, t as nat);
                lemma_basic_div(m2 as int, p as int);
                lemma_small_mod(m2 as nat, p);
            }
            lemma_tail(m2 as nat, k2 as nat, t as nat);
            lemma_div_nonincreasing(m2 as int, p as int);
        }
        let ghost tail = x2 - lo * w;
        if s1 == s2 {
            proof {
                lemma_combine(hi as int, lo as int, w, x1 as int, lo * w);
                lemma_fundamental_div_mod_converse(x1 + x2, w, hi + lo, tail);
            }
            (s1, hi + lo, k, sticky)
        } else if sticky {
            proof {
                lemma_combine(hi as int, lo as int, w, x1 as int, lo * w);
                assert((hi - lo - 1) * w == (hi - lo) * w - w) by (nonlinear_arith);
                lemma_fundamental_div_mod_converse(x1 - x2, w, hi - lo - 1, w - tail);
                assert((hi - lo - 1) * w >= 0) by (nonlinear_arith)
                    requires
                        hi - lo - 1 >= 0,
                        w > 0,
                ;
            }
            (s1, hi - lo - 1, k, true)
        } else {
            proof {
                lemma_combine(hi as int, lo as int, w, x1 as int, lo * w);
                lemma_whole((hi - lo) as nat, k as nat);
            }
            (s1, hi - lo, k, false)
        }
    }
}

proof fn lemma_combine(hi: int, lo: int, w: int, x1: int, x2: int)
    requires
        x1 == hi * w,
        x2 == lo * w,
        w > 0,
    ensures
        x1 + x2 == (hi + lo) * w,
        x1 - x2 == (hi - lo) * w,
        x2 - x1 == (lo - hi) * w,
        hi > lo ==> x1 > x2,
        hi < lo ==> x1 < x2,
        hi > 0 ==> x1 > 0,
        lo >= 0 ==> x2 >= 0,
{
    assert(x1 + x2 == (hi + lo) * w && x1 - x2 == (hi - lo) * w && x2 - x1 == (lo - hi) * w) by (nonlinear_arith)
        requires
            x1 == hi * w,
            x2 == lo * w,
    ;
    assert((hi > lo ==> hi * w > lo * w) && (hi < lo ==> hi * w < lo * w) && (hi > 0 ==> hi * w > 0) && (lo >= 0 ==> lo
        * w >= 0)) by (nonlinear_arith)
        requires
            w > 0,
    ;
}

/// Cutting `m * 2^k` at bit `k + t`.
proof fn lemma_tail(m: nat, k: nat, t: nat)
    ensures
        ({
            let tail = m * pow2(k) - (m / pow2(t)) * pow2(k + t);
            &&& 0 <= tail < pow2(k + t)
            &&& (tail != 0) == (m % pow2(t) != 0)
        }),
{
    let p = pow2(t);
    let g = pow2(k);
    lemma_pow2_pos(t);
    lemma_pow2_pos(k);
    lemma_pow2_adds(k, t);
    lemma_fundamental_div_mod(m as int, p as int);
    lemma_mod_pos_bound(m as int, p as int);
    let q = m / p;
    let low = m % p;
    assert(m * g - q * (g * p) == low * g) by (nonlinear_arith)
        requires
            m == p * q + low,
    ;
    assert(0 <= low * g < g * p && ((low * g != 0) == (low != 0))) by (nonlinear_arith)
        requires
            0 <= low < p,
            g > 0,
    ;
}

pub proof fn lemma_scaled(negative: bool, m: nat, e: nat, g: nat)
    ensures
        scaled(negative, m, e + g) == (if negative {
            -((m * pow2(e)) as int)
        } else {
            (m * pow2(e)) as int
        }) * pow2(g),
{
    lemma_pow2_adds(e, g);
    assert(m * pow2(e + g) == m * pow2(e) * pow2(g)) by (nonlinear_arith)
        requires
            pow2(e + g) == pow2(e) * pow2(g),
    ;
    assert((-((m * pow2(e)) as int)) * pow2(g) == -(m * pow2(e) * pow2(g))) by (nonlinear_arith);
}

pub proof fn lemma_scaled_sum(a: int, b: int, w: nat)
    requires
        w > 0,
    ensures
        a * w + b * w == (a + b) * w,
        abs_int((a + b) * w) == abs_int(a + b) * w,
        ((a + b) * w < 0) == (a + b < 0),
        ((a + b) * w == 0) == (a + b == 0),
{
    assert(a * w + b * w == (a + b) * w) by (nonlinear_arith);
    let c = a + b;
    assert(((c * w < 0) == (c < 0)) && ((c * w == 0) == (c == 0)) && (-c) * w == -(c * w)) by (nonlinear_arith)
        requires
            w > 0,
    ;
}

} // verus!
