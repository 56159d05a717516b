//! Rounding of exact rationals to binary64 magnitudes.
//!
//! A magnitude is measured in units of `2^-1074`, the smallest positive
//! subnormal, so that every finite magnitude is a natural number. The encoding
//! of a magnitude without its sign bit is called its code.

use vstd::arithmetic::div_mod::*;
use vstd::arithmetic::mul::*;
use vstd::arithmetic::power2::*;
use vstd::prelude::*;

verus! {

/// Code of positive infinity; every larger code is a NaN.
pub const INFINITE_CODE: u64 = 0x7ff0_0000_0000_0000;

/// Weight of the lowest exponent bit of a code, `2^52`.
pub const HIDDEN_BIT: u64 = 0x10_0000_0000_0000;

/// Exponent of the guard scale that the rounding kernel works at.
pub const GUARD: u32 = 2300;

/// Exponent of the unit in the last place of `num / den`: the least `e` with
/// `num / den < 2^(53 + e)`.
pub open spec fn ulp_exponent(num: nat, den: nat) -> nat
    decreases num - den,
{
    if den == 0 || num < den * 0x20_0000_0000_0000 {
        0
    } else {
        1 + ulp_exponent(num, den * 2)
    }
}

/// The quotient of `num` by `den`, rounded to the nearest integer, ties to even.
pub open spec fn divide_half_even(num: nat, den: nat) -> nat {
    let q = num / den;
    let r = num % den;
    if 2 * r > den || (2 * r == den && q % 2 == 1) {
        q + 1
    } else {
        q
    }
}

/// Code of `num / den` rounded to nearest, ties to even. A quotient that rounds
/// to `2^1024` or beyond gets the code of infinity.
pub open spec fn round_code(num: nat, den: nat) -> nat {
    let e = ulp_exponent(num, den);
    let code = divide_half_even(num, den * pow2(e)) + e * 0x10_0000_0000_0000;
    if code < INFINITE_CODE {
        code
    } else {
        INFINITE_CODE as nat
    }
}

/// `ulp_exponent` is the only exponent that brings the quotient into range.
pub proof fn lemma_ulp_exponent(num: nat, den: nat, e: nat)
    requires
        den > 0,
        num < den * pow2(e) * 0x20_0000_0000_0000,
        e > 0 ==> num >= den * pow2(e) * 0x10_0000_0000_0000,
    ensures
        ulp_exponent(num, den) == e,
    decreases e,
{
    lemma2_to64();
    if e == 0 {
        assert(den * pow2(e) == den) by (nonlinear_arith)
            requires
                pow2(e) == 1,
        ;
    } else {
        lemma_pow2_unfold(e);
        lemma_pow2_pos((e - 1) as nat);
        let h = pow2((e - 1) as nat);
        assert(den * pow2(e) == (den * 2) * h) by (nonlinear_arith)
            requires
                pow2(e) == 2 * h,
        ;
        assert(den * pow2(e) * 0x10_0000_0000_0000 >= den * 0x20_0000_0000_0000) by (nonlinear_arith)
            requires
                pow2(e) == 2 * h,
                h >= 1,
                den > 0,
        ;
        if e - 1 > 0 {
            assert((den * 2) * h * 0x10_0000_0000_0000 == den * pow2(e) * 0x10_0000_0000_0000);
        }
        lemma_ulp_exponent(num, den * 2, (e - 1) as nat);
    }
}

/// The quotient lies below `2^53` units in the last place.
pub proof fn lemma_ulp_exponent_bounds(num: nat, den: nat)
    requires
        den > 0,
    ensures
        num < den * pow2(ulp_exponent(num, den)) * 0x20_0000_0000_0000,
        ulp_exponent(num, den) > 0 ==> num >= den * pow2(ulp_exponent(num, den)) * 0x10_0000_0000_0000,
    decreases num - den,
{
    lemma2_to64();
    if num < den * 0x20_0000_0000_0000 {
        assert(den * 1 == den);
    } else {
        lemma_ulp_exponent_bounds(num, den * 2);
        let e1 = ulp_exponent(num, den * 2);
        lemma_pow2_unfold(e1 + 1);
        assert(den * pow2(e1 + 1) == den * 2 * pow2(e1)) by (nonlinear_arith)
            requires
                pow2(e1 + 1) == 2 * pow2(e1),
        ;
        if e1 == 0 {
            assert(den * 2 * 1 * 0x10_0000_0000_0000 == den * 0x20_0000_0000_0000);
        }
    }
}

/// Scaling numerator and denominator alike does not change the rounding.
pub proof fn lemma_round_scale(num: nat, den: nat, c: nat)
    requires
        den > 0,
        c > 0,
    ensures
        round_code(num * c, den * c) == round_code(num, den),
{
    let e = ulp_exponent(num, den);
    lemma_ulp_exponent_bounds(num, den);
    let w = den * pow2(e);
    lemma_pow2_pos(e);
    assert(w > 0) by (nonlinear_arith)
        requires
            w == den * pow2(e),
            den > 0,
            pow2(e) > 0,
    ;
    assert(den * c * pow2(e) == w * c) by (nonlinear_arith)
        requires
            w == den * pow2(e),
    ;
    assert(num * c < (w * c) * 0x20_0000_0000_0000) by (nonlinear_arith)
        requires
            num < w * 0x20_0000_0000_0000,
            c > 0,
    ;
    if e > 0 {
        assert(num * c >= (w * c) * 0x10_0000_0000_0000) by (nonlinear_arith)
            requires
                num >= w * 0x10_0000_0000_0000,
                c > 0,
        ;
    }
    assert(den * c > 0) by (nonlinear_arith)
        requires
            den > 0,
            c > 0,
    ;
    lemma_ulp_exponent(num * c, den * c, e);
    let q = (num / w) as int;
    let r = (num % w) as int;
    lemma_fundamental_div_mod(num as int, w as int);
    assert(num * c == q * (w * c) + r * c) by (nonlinear_arith)
        requires
            num == w * q + r,
    ;
    assert(0 <= r * c < w * c) by (nonlinear_arith)
        requires
            0 <= r < w,
            c > 0,
    ;
    lemma_fundamental_div_mod_converse((num * c) as int, (w * c) as int, q, r * c);
    assert((2 * r > w) == (2 * (r * c) > w * c)) by (nonlinear_arith)
        requires
            c > 0,
    ;
    assert((2 * r == w) == (2 * (r * c) == w * c)) by (nonlinear_arith)
        requires
            c > 0,
    ;
}

/// Number of binary digits of `x`.
pub open spec fn bit_length(x: nat) -> nat
    decreases x,
{
    if x == 0 {
        0
    } else {
        1 + bit_length(x / 2)
    }
}

pub proof fn lemma_bit_length(x: nat)
    ensures
        x < pow2(bit_length(x)),
        x > 0 ==> bit_length(x) > 0 && pow2((bit_length(x) - 1) as nat) <= x,
    decreases x,
{
    lemma2_to64();
    if x > 0 {
        lemma_bit_length(x / 2);
        lemma_pow2_unfold(bit_length(x));
        if x / 2 > 0 {
            lemma_pow2_unfold(bit_length(x / 2));
        }
    }
}

/// Number of binary digits of `x`.
pub fn count_bits(x: u128) -> (n: u32)
    ensures
        n == bit_length(x as nat),
        n <= 128,
{
    let mut rest: u128 = x;
    let mut n: u32 = 0;
    proof {
        lemma_top_power();
        lemma_bit_length_below(x as nat, 128);
    }
    while rest > 0
        invariant
            n + bit_length(rest as nat) == bit_length(x as nat),
            bit_length(x as nat) <= 128,
        decreases rest,
    {
        rest = rest / 2;
        n = n + 1;
    }
    n
}

proof fn lemma_bit_length_below(x: nat, k: nat)
    requires
        x < pow2(k),
    ensures
        bit_length(x) <= k,
{
    lemma_bit_length(x);
    if x > 0 && bit_length(x) > k {
        if bit_length(x) - 1 > k {
            lemma_pow2_strictly_increases(k, (bit_length(x) - 1) as nat);
        }
    }
}

/// `2^k` as a machine integer.
pub fn two_to(k: u32) -> (p: u128)
    requires
        k < 128,
    ensures
        p == pow2(k as nat),
{
    let top: u128 = 0x8000_0000_0000_0000_0000_0000_0000_0000;
    let drop: u128 = (127 - k) as u128;
    proof {
        vstd::bits::lemma_u128_shr_is_div(top, drop);
        lemma_top_power();
        lemma_pow2_adds(k as nat, (127 - k) as nat);
        lemma_pow2_pos((127 - k) as nat);
        lemma_div_by_multiple(pow2(k as nat) as int, pow2((127 - k) as nat) as int);
    }
    top >> drop
}

pub proof fn lemma_top_power()
    ensures
        pow2(127) == 0x8000_0000_0000_0000_0000_0000_0000_0000,
        pow2(128) == 0x1_0000_0000_0000_0000_0000_0000_0000_0000,
{
    lemma2_to64();
    lemma2_to64_rest();
    lemma_pow2_adds(64, 63);
    lemma_pow2_adds(64, 64);
}

/// Rounding to a multiple of `w = d * 2^t`, read off the quotient by `d`.
proof fn lemma_round_from_quotient(num: nat, d: nat, t: nat, m: nat, sticky: bool)
    requires
        d > 0,
        m == num / d,
        sticky == (num % d != 0),
        sticky ==> t > 0,
    ensures
        ({
            let p = pow2(t);
            let q = m / p;
            let low = m % p;
            let up = t > 0 && {
                let h = pow2((t - 1) as nat);
                low > h || (low == h && (sticky || q % 2 == 1))
            };
            divide_half_even(num, d * p) == if up {
                q + 1
            } else {
                q
            }
        }),
{
    let p = pow2(t);
    lemma_pow2_pos(t);
    let q = m / p;
    let low = m % p;
    let r = num % d;
    lemma_div_denominator(num as int, d as int, p as int);
    lemma_mod_breakdown(num as int, d as int, p as int);
    lemma_mod_pos_bound(num as int, d as int);
    lemma_mod_pos_bound(m as int, p as int);
    assert(num / (d * p) == q);
    assert(num % (d * p) == d * low + r);
    if t == 0 {
        lemma2_to64();
        assert(low == 0);
        assert(d * low == 0) by (nonlinear_arith)
            requires
                low == 0,
        ;
        assert(d * p == d) by (nonlinear_arith)
            requires
                p == 1,
        ;
    } else {
        let h = pow2((t - 1) as nat);
        lemma_pow2_unfold(t);
        assert((2 * (d * low + r) > d * p) == (low > h || (low == h && r > 0))) by (nonlinear_arith)
            requires
                p == 2 * h,
                0 <= r < d,
        ;
        assert((2 * (d * low + r) == d * p) == (low == h && r == 0)) by (nonlinear_arith)
            requires
                p == 2 * h,
                0 <= r < d,
        ;
    }
}

pub proof fn lemma_power_at_most(a: nat, b: nat)
    requires
        a <= b,
    ensures
        pow2(a) <= pow2(b),
{
    if a < b {
        lemma_pow2_strictly_increases(a, b);
    }
}

proof fn lemma_unit_range(num: nat, den: nat, m: nat, k: nat, l: nat, e: nat)
    requires
        den > 0,
        m == num / (den * pow2(k)),
        0 < l,
        pow2((l - 1) as nat) <= m < pow2(l),
        l + k <= GUARD + e + 53,
        e > 0 ==> l + k == GUARD + e + 53,
    ensures
        num < den * pow2(GUARD as nat) * pow2(e) * 0x20_0000_0000_0000,
        e > 0 ==> num >= den * pow2(GUARD as nat) * pow2(e) * 0x10_0000_0000_0000,
        den * pow2(GUARD as nat) > 0,
{
    let g = GUARD as nat;
    let d = den * pow2(k);
    lemma2_to64();
    lemma2_to64_rest();
    lemma_pow2_pos(k);
    lemma_pow2_pos(g);
    assert(d > 0 && den * pow2(g) > 0) by (nonlinear_arith)
        requires
            d == den * pow2(k),
            den > 0,
            pow2(k) > 0,
            pow2(g) > 0,
    ;
    lemma_fundamental_div_mod(num as int, d as int);
    lemma_mod_pos_bound(num as int, d as int);
    lemma_pow2_adds(l, k);
    lemma_pow2_adds(g, e);
    lemma_pow2_adds(g + e, 53);
    lemma_power_at_most(l + k, g + e + 53);
    let r = num % d;
    assert(num < den * pow2(l + k)) by (nonlinear_arith)
        requires
            num == d * m + r,
            0 <= r < d,
            d == den * pow2(k),
            m + 1 <= pow2(l),
            pow2(l + k) == pow2(l) * pow2(k),
    ;
    assert(den * pow2(l + k) <= den * pow2(g + e + 53)) by (nonlinear_arith)
        requires
            pow2(l + k) <= pow2(g + e + 53),
    ;
    assert(den * pow2(g + e + 53) == den * pow2(g) * pow2(e) * 0x20_0000_0000_0000) by (nonlinear_arith)
        requires
            pow2(g + e + 53) == pow2(g + e) * 0x20_0000_0000_0000,
            pow2(g + e) == pow2(g) * pow2(e),
    ;
    if e > 0 {
        let lo = (l - 1) as nat;
        lemma_pow2_adds(lo, k);
        lemma_pow2_adds(g + e, 52);
        assert(num >= den * pow2(lo + k)) by (nonlinear_arith)
            requires
                num == d * m + r,
                d == den * pow2(k),
                m >= pow2(lo),
                pow2(lo + k) == pow2(lo) * pow2(k),
        ;
        assert(den * pow2(lo + k) == den * pow2(g) * pow2(e) * 0x10_0000_0000_0000) by (nonlinear_arith)
            requires
                lo + k == g + e + 52,
                pow2(lo + k) == pow2(g + e) * 0x10_0000_0000_0000,
                pow2(g + e) == pow2(g) * pow2(e),
        ;
    }
}

proof fn lemma_code_saturates(num: nat, unit: nat, e: nat)
    requires
        unit > 0,
        e >= 2046,
        ulp_exponent(num, unit) == e,
        num >= unit * pow2(e) * 0x10_0000_0000_0000,
    ensures
        round_code(num, unit) == INFINITE_CODE,
{
    let w = unit * pow2(e);
    lemma_pow2_pos(e);
    assert(w > 0) by (nonlinear_arith)
        requires
            w == unit * pow2(e),
            unit > 0,
            pow2(e) > 0,
    ;
    lemma_div_is_ordered((0x10_0000_0000_0000 * w) as int, num as int, w as int);
    lemma_div_by_multiple(0x10_0000_0000_0000, w as int);
}

proof fn lemma_exact_left(num: nat, den: nat, m: nat, k: nat, s: nat, l: nat)
    requires
        den > 0,
        m == num / (den * pow2(k)),
        num % (den * pow2(k)) == 0,
        m < pow2(l),
        s < k,
        l + k <= s + 53,
    ensures
        m * pow2((k - s) as nat) < 0x20_0000_0000_0000,
        divide_half_even(num, den * pow2(s)) == m * pow2((k - s) as nat),
{
    let c = (k - s) as nat;
    let w = den * pow2(s);
    lemma2_to64();
    lemma2_to64_rest();
    lemma_pow2_pos(s);
    lemma_pow2_pos(k);
    lemma_pow2_pos(c);
    lemma_pow2_adds(s, c);
    lemma_pow2_adds(l, c);
    lemma_power_at_most(l + c, 53);
    let d = den * pow2(k);
    assert(w > 0 && d > 0) by (nonlinear_arith)
        requires
            w == den * pow2(s),
            d == den * pow2(k),
            den > 0,
            pow2(s) > 0,
            pow2(k) > 0,
    ;
    lemma_fundamental_div_mod(num as int, d as int);
    assert(m * pow2(c) < pow2(l) * pow2(c)) by (nonlinear_arith)
        requires
            m < pow2(l),
            pow2(c) > 0,
    ;
    assert(num == (m * pow2(c)) * w) by (nonlinear_arith)
        requires
            num == d * m,
            d == den * pow2(k),
            pow2(k) == pow2(s) * pow2(c),
            w == den * pow2(s),
    ;
    lemma_fundamental_div_mod_converse(num as int, w as int, (m * pow2(c)) as int, 0);
}

proof fn lemma_quotient_small(m: nat, l: nat, t: nat)
    requires
        m < pow2(l),
        l <= t + 53,
    ensures
        m / pow2(t) < 0x20_0000_0000_0000,
{
    lemma2_to64();
    lemma2_to64_rest();
    lemma_pow2_pos(t);
    lemma_pow2_adds(53, t);
    lemma_power_at_most(l, t + 53);
    lemma_fundamental_div_mod(m as int, pow2(t) as int);
    lemma_mod_pos_bound(m as int, pow2(t) as int);
    let q = m / pow2(t);
    assert(q < 0x20_0000_0000_0000) by (nonlinear_arith)
        requires
            pow2(t) * q <= m,
            m < 0x20_0000_0000_0000 * pow2(t),
    ;
}

/// Rounds the rational `num / (den * 2^2300)`, given the integer part `m` of
/// `num / (den * 2^k)` and whether a fraction was cut off from it.
pub(crate) fn round_parts(m: u128, k: u32, sticky: bool, Ghost(num): Ghost<nat>, Ghost(den): Ghost<nat>) -> (code: u64)
    requires
        den > 0,
        k <= 8000,
        m > 0,
        m == num / (den * pow2(k as nat)),
        sticky == (num % (den * pow2(k as nat)) != 0),
        sticky ==> m >= 0x40_0000_0000_0000,
    ensures
        code == round_code(num, den * pow2(GUARD as nat)),
{
    let l: u32 = count_bits(m);
    let top: u32 = l + k;
    let e: u32 = if top > GUARD + 53 {
        top - GUARD - 53
    } else {
        0
    };
    let s: u32 = GUARD + e;
    let ghost unit = den * pow2(GUARD as nat);
    let ghost d = den * pow2(k as nat);
    proof {
        lemma_bit_length(m as nat);
        lemma2_to64();
        lemma2_to64_rest();
        if sticky {
            if l < 55 {
                if l < 54 {
                    lemma_pow2_strictly_increases(l as nat, 54);
                }
            }
        }
        lemma_unit_range(num, den, m as nat, k as nat, l as nat, e as nat);
        lemma_ulp_exponent(num, unit, e as nat);
        lemma_pow2_adds(GUARD as nat, e as nat);
        assert(unit * pow2(e as nat) == den * pow2(s as nat)) by (nonlinear_arith)
            requires
                unit == den * pow2(GUARD as nat),
                pow2(s as nat) == pow2(GUARD as nat) * pow2(e as nat),
        ;
        lemma_pow2_pos(k as nat);
        assert(d > 0) by (nonlinear_arith)
            requires
                d == den * pow2(k as nat),
                den > 0,
                pow2(k as nat) > 0,
        ;
    }
    if e >= 2046 {
        proof {
            lemma_code_saturates(num, unit, e as nat);
        }
        return INFINITE_CODE;
    }
    let q: u64 = if k > s {
        let p: u128 = two_to(k - s);
        proof {
            lemma_exact_left(num, den, m as nat, k as nat, s as nat, l as nat);
        }
        (m * p) as u64
    } else {
        let t: u32 = s - k;
        proof {
            lemma_pow2_adds(k as nat, t as nat);
            assert(den * pow2(s as nat) == d * pow2(t as nat)) by (nonlinear_arith)
                requires
                    d == den * pow2(k as nat),
                    pow2(s as nat) == pow2(k as nat) * pow2(t as nat),
            ;
            lemma_round_from_quotient(num, d, t as nat, m as nat, sticky);
            lemma_top_power();
        }
        if t >= 128 {
            let half: u128 = two_to(127);
            proof {
                if t > 128 {
                    lemma_pow2_strictly_increases(128, t as nat);
                    if t > 129 {
                        lemma_pow2_strictly_increases(128, (t - 1) as nat);
                    }
                }
                lemma_basic_div(m as int, pow2(t as nat) as int);
                lemma_small_mod(m as nat, pow2(t as nat));
            }
            if t == 128 && (m > half || (m == half && sticky)) {
                1
            } else {
                0
            }
        } else {
            let p: u128 = two_to(t);
            proof {
                lemma_pow2_pos(t as nat);
                if t > 0 {
                    lemma_pow2_unfold(t as nat);
                }
                lemma_quotient_small(m as nat, l as nat, t as nat);
            }
            let q: u128 = m / p;
            let low: u128 = m % p;
            if t > 0 && (low > p / 2 || (low == p / 2 && (sticky || q % 2 == 1))) {
                q as u64 + 1
            } else {
                q as u64
            }
        }
    };
    let code: u64 = q + e as u64 * HIDDEN_BIT;
    if code < INFINITE_CODE {
        code
    } else {
        INFINITE_CODE
    }
}

} // verus!
