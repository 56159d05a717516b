//! Arithmetic on numbers that are all multiplied by a power of two or its negative.
//!
//! Negation commutes with rounding. Doubling does too, unless a result is too small to
//! carry all its digits or grows beyond the largest number.

use crate::double::{law_rounding_is_monotone, lemma_code_magnitude, lemma_round_zero, lemma_zero_magnitude, Double};
use crate::exact::abs_int;
use crate::rounding::{
    divide_half_even, lemma_ulp_exponent, lemma_ulp_exponent_bounds, round_code, ulp_exponent,
};
use vstd::arithmetic::div_mod::*;
use vstd::arithmetic::power2::*;
use vstd::prelude::*;

verus! {

/// The factors at hand: the powers of two, and their negatives.
pub open spec fn is_factor(f: int) -> bool {
    exists|j: nat| abs_int(f) == #[trigger] pow2(j)
}

/// A factor that changes more than the sign.
pub open spec fn resizes(f: int) -> bool {
    f != 1 && f != -1
}

/// `b` is `f` times `a`, exactly.
pub open spec fn multiple(a: Double, b: Double, f: int) -> bool {
    &&& a.finite()
    &&& b.finite()
    &&& b.value() == f * a.value()
}

/// A product that is zero or large enough to carry all its digits.
pub open spec fn full(a: Double, b: Double) -> bool {
    a.magnitude() * b.magnitude() == 0 || a.magnitude() * b.magnitude() >= pow2(1074) * 0x10_0000_0000_0000
}

/// Twice a quotient rounds to twice its rounding, if it is zero, whole, or large enough
/// to carry all its digits.
proof fn lemma_round_twice(num: nat, den: nat, d: Double, e2: Double)
    requires
        den > 0,
        num == 0 || den == 1 || num >= den * 0x10_0000_0000_0000,
        d.finite(),
        d.code() == round_code(num, den),
        e2.finite(),
        e2.code() == round_code(2 * num, den),
    ensures
        e2.magnitude() == 2 * d.magnitude(),
{
    lemma2_to64();
    if num == 0 {
        lemma_round_zero(den);
        lemma_zero_magnitude(d);
        lemma_zero_magnitude(e2);
    } else {
        let e = ulp_exponent(num, den);
        let u = pow2(e);
        let w = den * u;
        lemma_ulp_exponent_bounds(num, den);
        lemma_pow2_pos(e);
        assert(w > 0) by (nonlinear_arith)
            requires
                w == den * u,
                den > 0,
                u > 0,
        ;
        let n = divide_half_even(num, w);
        lemma_fundamental_div_mod(num as int, w as int);
        lemma_mod_pos_bound(num as int, w as int);
        let q = num / w;
        let r = num % w;
        assert(q < 0x20_0000_0000_0000) by (nonlinear_arith)
            requires
                num < w * 0x20_0000_0000_0000,
                num == w * q + r,
                r >= 0,
                w > 0,
        ;
        if num >= den * 0x10_0000_0000_0000 {
            assert(num >= w * 0x10_0000_0000_0000) by (nonlinear_arith)
                requires
                    num >= den * 0x10_0000_0000_0000,
                    e > 0 ==> num >= w * 0x10_0000_0000_0000,
                    e == 0 ==> u == 1,
                    w == den * u,
            ;
            assert(q >= 0x10_0000_0000_0000) by (nonlinear_arith)
                requires
                    num >= w * 0x10_0000_0000_0000,
                    num == w * q + r,
                    r < w,
                    w > 0,
            ;
            lemma_pow2_unfold(e + 1);
            assert(den * pow2(e + 1) == 2 * w) by (nonlinear_arith)
                requires
                    pow2(e + 1) == 2 * u,
                    w == den * u,
            ;
            lemma_ulp_exponent(2 * num, den, e + 1);
            assert(2 * num == (2 * w) * q + 2 * r) by (nonlinear_arith)
                requires
                    num == w * q + r,
            ;
            lemma_fundamental_div_mod_converse((2 * num) as int, (2 * w) as int, q as int, (2 * r) as int);
            assert(divide_half_even(2 * num, 2 * w) == n);
            lemma_code_magnitude(d, n, e);
            lemma_code_magnitude(e2, n, e + 1);
            assert(n * pow2(e + 1) == 2 * (n * u)) by (nonlinear_arith)
                requires
                    pow2(e + 1) == 2 * u,
            ;
        } else {
            assert(den == 1 && num < 0x10_0000_0000_0000);
            assert(ulp_exponent(num, 1) == 0);
            assert(ulp_exponent(2 * num, 1) == 0);
            assert(1 * pow2(0) == 1);
            lemma_fundamental_div_mod_converse(num as int, 1, num as int, 0);
            lemma_fundamental_div_mod_converse((2 * num) as int, 1, (2 * num) as int, 0);
            assert(divide_half_even(num, 1) == num);
            assert(divide_half_even(2 * num, 1) == 2 * num);
            lemma_code_magnitude(d, num, 0);
            lemma_code_magnitude(e2, 2 * num, 0);
            assert(num * pow2(0) == num && (2 * num) * pow2(0) == 2 * num) by (nonlinear_arith)
                requires
                    pow2(0) == 1,
            ;
        }
    }
}

/// A quotient times a power of two rounds to the rounded quotient times that power, if
/// it is zero, whole, or large enough to carry all its digits.
proof fn lemma_round_scaled(num: nat, den: nat, j: nat, d: Double, scaled: Double)
    requires
        den > 0,
        j == 0 || num == 0 || den == 1 || num >= den * 0x10_0000_0000_0000,
        d.finite(),
        d.code() == round_code(num, den),
        scaled.finite(),
        scaled.code() == round_code(pow2(j) * num, den),
    ensures
        scaled.magnitude() == pow2(j) * d.magnitude(),
    decreases j,
{
    lemma2_to64();
    if j == 0 {
        let m = d.magnitude();
        assert(pow2(j) * num == num && pow2(j) * m == m) by (nonlinear_arith)
            requires
                pow2(j) == 1,
        ;
        lemma_same_code(d, scaled);
    } else {
        let i = (j - 1) as nat;
        lemma_pow2_unfold(j);
        lemma_pow2_pos(i);
        let half = pow2(i) * num;
        assert(pow2(j) * num == 2 * half && num <= half) by (nonlinear_arith)
            requires
                pow2(j) == 2 * pow2(i),
                half == pow2(i) * num,
                pow2(i) >= 1,
        ;
        law_rounding_is_monotone(half, 2 * half, den);
        let code = round_code(half, den);
        let between = Double { bits: code as u64 };
        lemma_round_scaled(num, den, i, d, between);
        lemma_round_twice(half, den, between, scaled);
        let m = d.magnitude();
        assert(2 * (pow2(i) * m) == pow2(j) * m) by (nonlinear_arith)
            requires
                pow2(j) == 2 * pow2(i),
        ;
    }
}

proof fn lemma_same_code(a: Double, b: Double)
    requires
        a.code() == b.code(),
    ensures
        a.magnitude() == b.magnitude(),
{
}

/// Sums of multiples are multiples.
pub proof fn lemma_sum_of_multiples(a: Double, b: Double, c: Double, d: Double, f: int)
    requires
        is_factor(f),
        multiple(a, b, f),
        multiple(c, d, f),
        a.plus(c).finite(),
        b.plus(d).finite(),
    ensures
        multiple(a.plus(c), b.plus(d), f),
{
    reveal(Double::spec_plus);
    let s = a.value() + c.value();
    let t = b.value() + d.value();
    assert(t == f * s) by (nonlinear_arith)
        requires
            t == f * a.value() + f * c.value(),
            s == a.value() + c.value(),
    ;
    let x = a.plus(c);
    let y = b.plus(d);
    let j = choose|j: nat| abs_int(f) == #[trigger] pow2(j);
    lemma_pow2_pos(j);
    if s == 0 {
        assert(t == 0);
        lemma_zero_magnitude(x);
        lemma_zero_magnitude(y);
    } else {
        lemma_signs(f, s);
        lemma_round_scaled(abs_int(s), 1, j, x, y);
        assert(x.negative() == (s < 0) && y.negative() == (t < 0));
        lemma_signs(f, x.value());
    }
}

/// Sizes and signs of a product.
pub proof fn lemma_signs(f: int, s: int)
    ensures
        abs_int(f * s) == abs_int(f) * abs_int(s),
        f * s < 0 <==> (f < 0 && s > 0) || (f > 0 && s < 0),
        f * s == 0 <==> f == 0 || s == 0,
{
    assert(f > 0 && s > 0 ==> f * s > 0) by (nonlinear_arith);
    assert(f < 0 && s > 0 ==> f * s < 0) by (nonlinear_arith);
    assert(f > 0 && s < 0 ==> f * s < 0) by (nonlinear_arith);
    assert(f < 0 && s < 0 ==> f * s > 0) by (nonlinear_arith);
    assert((-f) * s == -(f * s)) by (nonlinear_arith);
    assert(f * (-s) == -(f * s)) by (nonlinear_arith);
    assert((-f) * (-s) == f * s) by (nonlinear_arith);
    assert(0 * s == 0 && f * 0 == 0) by (nonlinear_arith);
}

/// The negated numbers are multiples too.
pub proof fn lemma_negated_multiples(a: Double, b: Double, f: int)
    requires
        multiple(a, b, f),
    ensures
        multiple(a.neg(), b.neg(), f),
{
    assert(a.neg().code() == a.code() && b.neg().code() == b.code());
    lemma_same_code(a, a.neg());
    lemma_same_code(b, b.neg());
    assert(a.neg().value() == -a.value());
    assert(b.neg().value() == -b.value());
    assert(-(f * a.value()) == f * (-a.value())) by (nonlinear_arith);
}

/// Products of one number with multiples are multiples, where no digit is lost.
pub proof fn lemma_product_of_multiples(z: Double, a: Double, b: Double, f: int)
    requires
        is_factor(f),
        multiple(a, b, f),
        z.times(a).finite(),
        z.times(b).finite(),
        resizes(f) ==> full(z, a),
    ensures
        multiple(z.times(a), z.times(b), f),
{
    lemma_factors_are_finite(z, a);
    reveal(Double::spec_times);
    lemma_pow2_pos(1074);
    let x = z.times(a);
    let y = z.times(b);
    let (m, k, l) = (z.magnitude(), a.magnitude(), b.magnitude());
    let j = choose|j: nat| abs_int(f) == #[trigger] pow2(j);
    lemma_pow2_pos(j);
    lemma2_to64();
    lemma_signs(f, a.value());
    assert(l == pow2(j) * k);
    assert(m * l == pow2(j) * (m * k)) by (nonlinear_arith)
        requires
            l == pow2(j) * k,
    ;
    if j > 0 {
        lemma_pow2_unfold(j);
        lemma_pow2_pos((j - 1) as nat);
    }
    lemma_round_scaled(m * k, pow2(1074), j, x, y);
    if m * k == 0 {
        lemma_round_zero(pow2(1074));
        lemma_zero_magnitude(x);
        lemma_zero_magnitude(y);
        assert(f * x.value() == 0) by (nonlinear_arith)
            requires
                x.value() == 0,
        ;
    } else {
        assert(k != 0) by (nonlinear_arith)
            requires
                m * k != 0,
        ;
        assert(a.value() != 0);
        assert(b.value() < 0 <==> b.negative());
        assert(b.negative() == (a.negative() != (f < 0)));
        lemma_signs(f, x.value());
    }
}

/// A finite sum has finite terms.
pub proof fn lemma_terms_are_finite(a: Double, b: Double)
    requires
        a.plus(b).finite(),
    ensures
        a.finite(),
        b.finite(),
{
    reveal(Double::spec_plus);
}

/// A finite product has finite factors.
pub proof fn lemma_factors_are_finite(a: Double, b: Double)
    requires
        a.times(b).finite(),
    ensures
        a.finite(),
        b.finite(),
{
    reveal(Double::spec_times);
}

} // verus!
