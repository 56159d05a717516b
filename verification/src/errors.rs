//! How far rounded results lie from exact ones.

use crate::data::dot_of;
use crate::double::{lemma_code_magnitude, lemma_zero, lemma_zero_magnitude, zero, Double};
use crate::exact::abs_int;
use crate::rounding::{divide_half_even, lemma_ulp_exponent_bounds, round_code, ulp_exponent};
use crate::scaling::{lemma_factors_are_finite, lemma_terms_are_finite};
use vstd::arithmetic::div_mod::*;
use vstd::arithmetic::power2::*;
use vstd::prelude::*;

verus! {

/// A quotient is rounded by at most one part in `2^53`, or by half the smallest unit.
pub proof fn lemma_rounding_error(num: nat, den: nat, d: Double)
    requires
        den > 0,
        d.finite(),
        d.code() == round_code(num, den),
    ensures
        abs_int(num - den * d.magnitude()) * 0x20_0000_0000_0000 <= den * d.magnitude() || 2 * abs_int(
            num - den * d.magnitude(),
        ) <= den,
{
    lemma2_to64();
    let e = ulp_exponent(num, den);
    let u = pow2(e);
    let w = den * u;
    lemma_ulp_exponent_bounds(num, den);
    lemma_pow2_pos(e);
    assert(w > 0) by (nonlinear_arith)
        requires
            w == den * u,
            den > 0,
            u > 0,
    ;
    let n = divide_half_even(num, w);
    let q = num / w;
    let r = num % w;
    lemma_fundamental_div_mod(num as int, w as int);
    lemma_mod_pos_bound(num as int, w as int);
    assert(q < 0x20_0000_0000_0000) by (nonlinear_arith)
        requires
            num < w * 0x20_0000_0000_0000,
            num == w * q + r,
            r >= 0,
            w > 0,
    ;
    if e > 0 {
        assert(q >= 0x10_0000_0000_0000) by (nonlinear_arith)
            requires
                num >= w * 0x10_0000_0000_0000,
                num == w * q + r,
                r < w,
                w > 0,
        ;
    }
    lemma_code_magnitude(d, n, e);
    let m = den * d.magnitude();
    assert(m == n * w) by (nonlinear_arith)
        requires
            m == den * (n * u),
            w == den * u,
    ;
    assert(n * w == w * q + if n == q {
        0
    } else {
        w as int
    }) by (nonlinear_arith)
        requires
            n == q || n == q + 1,
    ;
    let err = abs_int(num - m);
    assert(2 * err <= w);
    if e > 0 {
        assert(m >= w * 0x10_0000_0000_0000) by (nonlinear_arith)
            requires
                m == n * w,
                n >= 0x10_0000_0000_0000,
        ;
    } else {
        assert(w == den) by (nonlinear_arith)
            requires
                w == den * u,
                u == 1,
        ;
    }
}

/// A finite sum is off by at most one part in `2^53`, and has the sign that it should.
pub proof fn lemma_plus_error(a: Double, b: Double)
    requires
        a.plus(b).finite(),
    ensures
        abs_int(a.value() + b.value() - a.plus(b).value()) * 0x20_0000_0000_0000 <= abs_int(a.plus(b).value()),
        a.plus(b).value() == 0 <==> a.value() + b.value() == 0,
        a.plus(b).value() > 0 <==> a.value() + b.value() > 0,
{
    lemma_terms_are_finite(a, b);
    reveal(Double::spec_plus);
    let sum = a.value() + b.value();
    let c = a.plus(b);
    lemma_zero_magnitude(c);
    if sum != 0 {
        assert(c.code() == round_code(abs_int(sum), 1));
        assert(c.negative() == (sum < 0));
        lemma_rounding_error(abs_int(sum), 1, c);
    }
}

/// Negation turns the value.
pub proof fn lemma_neg_value(b: Double)
    ensures
        b.neg().value() == -b.value(),
        b.neg().finite() == b.finite(),
{
    assert(b.neg().code() == b.code());
    assert(b.neg().magnitude() == b.magnitude());
}

/// The same for a finite difference.
pub proof fn lemma_minus_error(a: Double, b: Double)
    requires
        a.minus(b).finite(),
    ensures
        abs_int(a.value() - b.value() - a.minus(b).value()) * 0x20_0000_0000_0000 <= abs_int(a.minus(b).value()),
        a.minus(b).value() == 0 <==> a.value() == b.value(),
        b.finite(),
{
    lemma_neg_value(b);
    lemma_plus_error(a, b.neg());
    lemma_terms_are_finite(a, b.neg());
}

/// The exact inner product of the first `n` entries, in units of `2^-2148`.
pub open spec fn exact_dot(a: Seq<Double>, b: Seq<Double>, n: nat) -> int
    decreases n,
{
    if n == 0 {
        0
    } else {
        exact_dot(a, b, (n - 1) as nat) + a[n - 1].value() * b[n - 1].value()
    }
}

/// The sum of the sizes of its terms.
pub open spec fn dot_size(a: Seq<Double>, b: Seq<Double>, n: nat) -> nat
    decreases n,
{
    if n == 0 {
        0
    } else {
        dot_size(a, b, (n - 1) as nat) + a[n - 1].magnitude() * b[n - 1].magnitude()
    }
}

/// The size of the terms and two smallest units for each of them.
pub open spec fn dot_scale(a: Seq<Double>, b: Seq<Double>, n: nat) -> nat {
    dot_size(a, b, n) + 2 * (n * pow2(1074))
}

/// `computed` is the exact inner product, up to one smallest unit for each term and `n`
/// parts in `2^50` of the scale.
pub open spec fn close_dot(a: Seq<Double>, b: Seq<Double>, n: nat, computed: Double) -> bool {
    (abs_int(pow2(1074) * computed.value() - exact_dot(a, b, n)) - n * pow2(1074)) * 0x4_0000_0000_0000 <= n
        * dot_scale(a, b, n)
}

proof fn lemma_size_bounds(a: Seq<Double>, b: Seq<Double>, n: nat)
    ensures
        abs_int(exact_dot(a, b, n)) <= dot_size(a, b, n),
    decreases n,
{
    if n > 0 {
        lemma_size_bounds(a, b, (n - 1) as nat);
        lemma_product_value(a[n - 1], b[n - 1]);
    }
}

proof fn lemma_product_value(a: Double, b: Double)
    ensures
        a.value() * b.value() == if a.negative() == b.negative() {
            (a.magnitude() * b.magnitude()) as int
        } else {
            -(a.magnitude() * b.magnitude())
        },
{
    let (x, y) = (a.magnitude() as int, b.magnitude() as int);
    assert((-x) * y == -(x * y) && x * (-y) == -(x * y) && (-x) * (-y) == x * y) by (nonlinear_arith);
}

/// A finite product is off by at most half the smallest unit or one part in `2^52`.
pub proof fn lemma_times_error(a: Double, b: Double)
    requires
        a.times(b).finite(),
    ensures
        ({
            let off = abs_int(pow2(1074) * a.times(b).value() - a.value() * b.value());
            let size = a.magnitude() * b.magnitude();
            2 * off <= pow2(1074) || off * 0x10_0000_0000_0000 <= size
        }),
{
    let g = pow2(1074);
    let c = a.times(b);
    let num = a.magnitude() * b.magnitude();
    lemma_factors_are_finite(a, b);
    reveal(Double::spec_times);
    lemma_pow2_pos(1074);
    lemma_rounding_error(num, g, c);
    lemma_product_value(a, b);
    let m = c.magnitude() as int;
    assert(g * (-m) == -(g * m)) by (nonlinear_arith);
}

proof fn lemma_error_budget(
    g: int,
    kg: int,
    y: int,
    ky: int,
    size: int,
    before: int,
    product: int,
    sum: int,
    result: int,
    after: int,
)
    requires
        g > 0,
        kg >= 0,
        y >= 2 * kg,
        0 <= ky <= 0x100_0000_0000 * y,
        size >= 0,
        before >= 0,
        product >= 0,
        sum >= 0,
        (before - kg) * 0x4_0000_0000_0000 <= ky,
        2 * product <= g || product * 0x10_0000_0000_0000 <= size,
        sum * 0x20_0000_0000_0000 <= result,
        result <= (y - 2 * kg + before) + (size + product) + sum,
        after <= before + product + sum,
    ensures
        (after - (kg + g)) * 0x4_0000_0000_0000 <= ky + y + size + 2 * g,
{
    let next = y + size + 2 * g;
    assert(before <= kg + y);
    assert(2 * product <= g + size);
    assert(2 * result <= 8 * next);
    assert(sum * 0x8_0000_0000_0000 <= next);
    if 2 * product <= g {
        assert((product + sum - g) * 0x4_0000_0000_0000 <= next);
    } else {
        assert(product * 0x10_0000_0000_0000 <= next);
    }
}

proof fn lemma_dot_step(g: int, k: int, gs: int, t: int, y: int, gp: int, q: int, size: int, gn: int)
    requires
        g > 0,
        0 <= k < 0x100_0000_0000,
        y >= 2 * (k * g),
        abs_int(t) <= y - 2 * (k * g),
        size == abs_int(q),
        (abs_int(gs - t) - k * g) * 0x4_0000_0000_0000 <= k * y,
        2 * abs_int(gp - q) <= g || abs_int(gp - q) * 0x10_0000_0000_0000 <= size,
        abs_int(gs + gp - gn) * 0x20_0000_0000_0000 <= abs_int(gn),
    ensures
        (abs_int(gn - (t + q)) - (k + 1) * g) * 0x4_0000_0000_0000 <= (k + 1) * (y + size + 2 * g),
{
    let next = y + size + 2 * g;
    assert(k * g >= 0) by (nonlinear_arith)
        requires
            k >= 0,
            g > 0,
    ;
    assert(k * y <= 0x100_0000_0000 * y) by (nonlinear_arith)
        requires
            0 <= k <= 0x100_0000_0000,
            y >= 0,
    ;
    assert((k + 1) * g == k * g + g) by (nonlinear_arith);
    assert((k + 1) * next == k * y + k * (size + 2 * g) + next) by (nonlinear_arith)
        requires
            next == y + size + 2 * g,
    ;
    assert(k * (size + 2 * g) >= 0) by (nonlinear_arith)
        requires
            k >= 0,
            size >= 0,
            g > 0,
    ;
    lemma_error_budget(
        g,
        k * g,
        y,
        k * y,
        size,
        abs_int(gs - t) as int,
        abs_int(gp - q) as int,
        abs_int(gs + gp - gn) as int,
        abs_int(gn) as int,
        abs_int(gn - (t + q)) as int,
    );
}

/// A finite inner product is close to the exact one.
pub proof fn law_dot_is_close(a: Seq<Double>, b: Seq<Double>, n: nat)
    requires
        dot_of(a, b, n).finite(),
        n <= 0x100_0000_0000,
    ensures
        close_dot(a, b, n, dot_of(a, b, n)),
    decreases n,
{
    let g = pow2(1074);
    lemma_pow2_pos(1074);
    if n == 0 {
        lemma_zero();
        lemma_zero_magnitude(zero());
        assert(g * 0 == 0 && 0 * g == 0) by (nonlinear_arith);
        assert(0 * dot_scale(a, b, 0) == 0) by (nonlinear_arith);
    } else {
        let k = (n - 1) as nat;
        let (x, z) = (a[n - 1], b[n - 1]);
        let (s, p, next) = (dot_of(a, b, k), x.times(z), dot_of(a, b, n));
        lemma_terms_are_finite(s, p);
        law_dot_is_close(a, b, k);
        lemma_size_bounds(a, b, k);
        lemma_times_error(x, z);
        lemma_plus_error(s, p);
        lemma_product_value(x, z);
        let off = s.value() + p.value() - next.value();
        assert(g * s.value() + g * p.value() - g * next.value() == g * off) by (nonlinear_arith)
            requires
                off == s.value() + p.value() - next.value(),
        ;
        lemma_scaled_size(g as int, off);
        lemma_scaled_size(g as int, next.value());
        assert(g * abs_int(off) * 0x20_0000_0000_0000 <= g * abs_int(next.value())) by (nonlinear_arith)
            requires
                abs_int(off) * 0x20_0000_0000_0000 <= abs_int(next.value()),
                g > 0,
        ;
        assert(n * g == k * g + g) by (nonlinear_arith)
            requires
                n == k + 1,
        ;
        lemma_dot_step(
            g as int,
            k as int,
            g * s.value(),
            exact_dot(a, b, k),
            dot_scale(a, b, k) as int,
            g * p.value(),
            x.value() * z.value(),
            (x.magnitude() * z.magnitude()) as int,
            g * next.value(),
        );
    }
}

/// Sizes scale with a positive factor.
pub proof fn lemma_scaled_size(g: int, x: int)
    requires
        g > 0,
    ensures
        abs_int(g * x) == g * abs_int(x),
{
    assert(x >= 0 ==> g * x >= 0) by (nonlinear_arith)
        requires
            g > 0,
    ;
    assert(x < 0 ==> g * x < 0) by (nonlinear_arith)
        requires
            g > 0,
    ;
    assert(g * (-x) == -(g * x)) by (nonlinear_arith);
}

} // verus!
