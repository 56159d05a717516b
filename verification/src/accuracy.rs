//! Rounded operations in real numbers: each result lies within one part in `2^52` of the
//! exact one, or within the smallest unit.

use crate::double::{lemma_floor_sqrt_exists, lemma_zero_magnitude, Double, floor_sqrt};
use crate::errors::{lemma_plus_error, lemma_rounding_error};
use crate::exact::abs_int;
use crate::online::least_squares::{
    abs_real, lemma_casts, lemma_divided, lemma_over, lemma_product_sign, lemma_regroup, lemma_scaled_abs, lemma_spread,
    lemma_units, real_of,
};
use crate::scaling::{lemma_factors_are_finite, lemma_terms_are_finite};
use vstd::arithmetic::power2::*;
use vstd::prelude::*;

verus! {

/// One part in `2^52` of a number.
pub open spec fn portion(x: real) -> real {
    x / 4503599627370496real
}

/// The smallest unit, `2^-1074`.
pub open spec fn speck() -> real {
    1real / (pow2(1074) as real)
}

/// The smallest unit is positive.
pub proof fn lemma_speck()
    ensures
        speck() > 0real,
        pow2(1074) as real > 0real,
        (pow2(1074) as real) * speck() == 1real,
{
    let g = pow2(1074) as real;
    lemma_pow2_pos(1074);
    lemma_over(1real, g);
    if speck() <= 0real {
        lemma_scaled_abs(g, -speck());
        lemma_spread(g, 0real, speck());
    }
}

/// Sizes multiply.
pub proof fn lemma_abs_product(a: real, b: real)
    ensures
        abs_real(a * b) == abs_real(a) * abs_real(b),
{
    assert((-a) * b == -(a * b) && a * (-b) == -(a * b) && (-a) * (-b) == a * b) by (nonlinear_arith);
    assert(a >= 0real && b >= 0real ==> a * b >= 0real) by (nonlinear_arith);
    assert(a < 0real && b < 0real ==> a * b >= 0real) by (nonlinear_arith);
    assert(a >= 0real && b < 0real ==> a * b <= 0real) by (nonlinear_arith);
    assert(a < 0real && b >= 0real ==> a * b <= 0real) by (nonlinear_arith);
}

/// A product of two bounded numbers is bounded.
pub proof fn lemma_bounded_product(a: real, p: real, b: real, q: real)
    requires
        abs_real(a) <= p,
        abs_real(b) <= q,
    ensures
        abs_real(a * b) <= p * q,
{
    lemma_abs_product(a, b);
    let (x, y) = (abs_real(a), abs_real(b));
    assert(x * y <= p * q) by (nonlinear_arith)
        requires
            0real <= x <= p,
            0real <= y <= q,
    ;
}

/// Two products are as close as their factors are.
pub proof fn lemma_product_gap(a: real, b: real, c: real, d: real, da: real, pb: real, pc: real, db: real)
    requires
        abs_real(a - c) <= da,
        abs_real(b) <= pb,
        abs_real(c) <= pc,
        abs_real(b - d) <= db,
    ensures
        abs_real(a * b - c * d) <= da * pb + pc * db,
{
    lemma_bounded_product(a - c, da, b, pb);
    lemma_bounded_product(c, pc, b - d, db);
    lemma_spread(b, a, c);
    lemma_spread(c, b, d);
}

/// Portions scale.
pub proof fn lemma_portion(g: real, x: real)
    ensures
        g * portion(x) == portion(g * x),
{
    lemma_regroup(g, portion(x), 4503599627370496real);
}

/// A finite sum lies within one part in `2^52` of the exact one.
pub proof fn law_sum_is_close(a: Double, b: Double)
    requires
        a.plus(b).finite(),
    ensures
        abs_real(real_of(a.plus(b)) - (real_of(a) + real_of(b))) <= portion(abs_real(real_of(a) + real_of(b))),
        a.finite(),
        b.finite(),
{
    let g = pow2(1074) as real;
    let c = a.plus(b);
    lemma_terms_are_finite(a, b);
    lemma_units(a);
    lemma_units(b);
    lemma_units(c);
    lemma_plus_error(a, b);
    let (x, y, z) = (real_of(a), real_of(b), real_of(c));
    let off = z - (x + y);
    lemma_spread(g, z, x + y);
    lemma_spread(g, x, y);
    assert(g * off == c.value() as real - (a.value() as real + b.value() as real));
    lemma_scaled_abs(g, off);
    lemma_scaled_abs(g, x + y);
    let part53 = 0x20_0000_0000_0000int as real;
    assert(abs_real(g * off) * part53 <= abs_real(g * z));
    assert(abs_real(g * z) <= abs_real(g * (x + y)) + abs_real(g * off));
    assert(abs_real(g * off) <= portion(abs_real(g * (x + y))));
    assert(g * abs_real(off) == abs_real(g * off));
    assert(g * abs_real(x + y) == abs_real(g * (x + y)));
    lemma_portion(g, abs_real(x + y));
    lemma_divided(g, abs_real(off), portion(abs_real(x + y)));
}

/// The negative of a number.
pub proof fn lemma_neg_real(b: Double)
    ensures
        real_of(b.neg()) == -real_of(b),
        b.neg().finite() == b.finite(),
{
    crate::errors::lemma_neg_value(b);
    lemma_units(b);
    lemma_units(b.neg());
    let g = pow2(1074) as real;
    lemma_spread(g, real_of(b.neg()), real_of(b));
    lemma_scaled_abs(g, real_of(b.neg()) + real_of(b));
    lemma_divided(g, real_of(b.neg()) + real_of(b), 0real);
    lemma_divided(g, 0real, real_of(b.neg()) + real_of(b));
}

/// A finite difference lies within one part in `2^52` of the exact one.
pub proof fn law_difference_is_close(a: Double, b: Double)
    requires
        a.minus(b).finite(),
    ensures
        abs_real(real_of(a.minus(b)) - (real_of(a) - real_of(b))) <= portion(abs_real(real_of(a) - real_of(b))),
        a.finite(),
        b.finite(),
{
    law_sum_is_close(a, b.neg());
    lemma_neg_real(b);
}

/// From whole numbers to real ones: `whole` counts units of `2^-2148`.
proof fn lemma_square_units(whole: int, x: real)
    requires
        whole as real == (pow2(1074) as real) * (pow2(1074) as real) * x,
    ensures
        abs_int(whole) as real == (pow2(1074) as real) * (pow2(1074) as real) * abs_real(x),
        (pow2(1074) as real) * (pow2(1074) as real) > 0real,
{
    let g = pow2(1074) as real;
    lemma_speck();
    lemma_product_sign(g, g);
    lemma_scaled_abs(g * g, x);
}

proof fn lemma_two_units(a: Double, b: Double)
    ensures
        (a.value() * b.value()) as real == (pow2(1074) as real) * (pow2(1074) as real) * (real_of(a) * real_of(b)),
        (pow2(1074) * a.value()) as real == (pow2(1074) as real) * (pow2(1074) as real) * real_of(a),
{
    let g = pow2(1074) as real;
    let (x, y) = (real_of(a), real_of(b));
    lemma_units(a);
    lemma_units(b);
    lemma_casts(a.value(), b.value());
    lemma_casts(pow2(1074) as int, a.value());
    lemma_regroup(g * x, g, y);
    lemma_regroup(g, g * x, y);
    lemma_regroup(g, g, x);
    lemma_regroup(g * g, x, y);
}

/// The smallest unit and one part of it, in units of `2^-2148`.
proof fn lemma_speck_units()
    ensures
        (pow2(1074) as real) == (pow2(1074) as real) * (pow2(1074) as real) * speck(),
{
    let g = pow2(1074) as real;
    lemma_speck();
    lemma_regroup(g, g, speck());
    lemma_spread(g, 1real, 0real);
}

/// A finite product lies within one part in `2^52` of the exact one, or within the
/// smallest unit.
pub proof fn law_product_is_close(a: Double, b: Double)
    requires
        a.times(b).finite(),
    ensures
        abs_real(real_of(a.times(b)) - real_of(a) * real_of(b)) <= portion(abs_real(real_of(a) * real_of(b))) + speck(),
        a.finite(),
        b.finite(),
{
    let g = pow2(1074) as real;
    let area = g * g;
    let c = a.times(b);
    let (x, y, z) = (real_of(a), real_of(b), real_of(c));
    lemma_factors_are_finite(a, b);
    crate::errors::lemma_times_error(a, b);
    lemma_two_units(a, b);
    lemma_two_units(c, b);
    let whole = pow2(1074) * c.value() - a.value() * b.value();
    lemma_spread(area, z, x * y);
    lemma_square_units(whole, z - x * y);
    lemma_square_units(a.value() * b.value(), x * y);
    assert(abs_int(a.value() * b.value()) == a.magnitude() * b.magnitude()) by {
        let (m, n) = (a.magnitude() as int, b.magnitude() as int);
        assert(m * n >= 0 && (-m) * n == -(m * n) && m * (-n) == -(m * n) && (-m) * (-n) == m * n) by (nonlinear_arith)
            requires
                m >= 0,
                n >= 0,
        ;
    }
    lemma_speck_units();
    let (off, size) = (abs_real(z - x * y), abs_real(x * y));
    assert(area * off <= portion(area * size) + area * speck());
    lemma_portion(area, size);
    lemma_spread(area, portion(size), speck());
    lemma_divided(area, off, portion(size) + speck());
}

/// A finite sum of a product and a number, rounded once, lies within one part in `2^52` of
/// the exact one, or within the smallest unit.
pub proof fn law_fused_sum_is_close(a: Double, b: Double, c: Double)
    requires
        a.mul_add(b, c).finite(),
    ensures
        a.finite(),
        b.finite(),
        c.finite(),
        abs_real(real_of(a.mul_add(b, c)) - (real_of(a) * real_of(b) + real_of(c))) <= portion(
            abs_real(real_of(a) * real_of(b) + real_of(c)),
        ) + speck(),
{
    reveal(Double::spec_mul_add);
    let g = pow2(1074) as real;
    let area = g * g;
    let d = a.mul_add(b, c);
    let (x, y, w, z) = (real_of(a), real_of(b), real_of(c), real_of(d));
    let sum = a.value() * b.value() + c.value() * pow2(1074);
    lemma_pow2_pos(1074);
    lemma_zero_magnitude(d);
    let m = d.magnitude() as int;
    let u = pow2(1074) as int;
    assert(u * (-m) == -(u * m)) by (nonlinear_arith);
    assert(m == 0 ==> u * m == 0) by (nonlinear_arith);
    let whole = u * d.value() - sum;
    if sum != 0 {
        assert(d.code() == round_code_of(abs_int(sum), pow2(1074)));
        lemma_rounding_error(abs_int(sum), pow2(1074), d);
        assert(d.negative() == (sum < 0));
    }
    assert(2 * abs_int(whole) <= u || abs_int(whole) * 0x20_0000_0000_0000 <= u * m);
    assert(u * m <= abs_int(sum) + abs_int(whole));
    assert(2 * abs_int(whole) <= u || abs_int(whole) * 0x10_0000_0000_0000 <= abs_int(sum));
    assert(c.value() * pow2(1074) == pow2(1074) * c.value()) by (nonlinear_arith);
    lemma_two_units(a, b);
    lemma_two_units(c, b);
    lemma_two_units(d, b);
    lemma_spread(area, x * y, w);
    lemma_spread(area, z, x * y + w);
    lemma_square_units(whole, z - (x * y + w));
    lemma_square_units(sum, x * y + w);
    lemma_speck_units();
    let (off, size) = (abs_real(z - (x * y + w)), abs_real(x * y + w));
    assert(area * off <= portion(area * size) + area * speck());
    lemma_portion(area, size);
    lemma_spread(area, portion(size), speck());
    lemma_divided(area, off, portion(size) + speck());
}

spec fn round_code_of(num: nat, den: nat) -> nat {
    crate::rounding::round_code(num, den)
}

/// A finite quotient times its divisor lies within one part in `2^52` of the dividend, or
/// within the smallest unit times the divisor.
pub proof fn law_quotient_is_close(a: Double, b: Double)
    requires
        a.over(b).finite(),
        a.finite(),
        b.finite(),
        b.value() != 0,
    ensures
        abs_real(real_of(a.over(b)) * real_of(b) - real_of(a)) <= portion(abs_real(real_of(a))) + speck() * abs_real(
            real_of(b),
        ),
{
    reveal(Double::spec_over);
    let g = pow2(1074) as real;
    let area = g * g;
    let c = a.over(b);
    let (x, y, z) = (real_of(a), real_of(b), real_of(c));
    let u = pow2(1074) as int;
    lemma_zero_magnitude(b);
    lemma_pow2_pos(1074);
    let (ma, mb, mc) = (a.magnitude() as int, b.magnitude() as int, c.magnitude() as int);
    lemma_rounding_error(a.magnitude() * pow2(1074), b.magnitude(), c);
    let whole = c.value() * b.value() - u * a.value();
    assert(abs_int(whole) == abs_int(ma * u - mb * mc)) by {
        assert(mc * mb == mb * mc && u * ma == ma * u) by (nonlinear_arith);
        assert((-mc) * mb == -(mc * mb) && mc * (-mb) == -(mc * mb) && (-mc) * (-mb) == mc * mb && u * (-ma) == -(u * ma))
            by (nonlinear_arith);
    }
    assert(2 * abs_int(whole) <= mb || abs_int(whole) * 0x10_0000_0000_0000 <= ma * u);
    lemma_two_units(c, b);
    lemma_two_units(a, b);
    lemma_spread(area, z * y, x);
    lemma_square_units(whole, z * y - x);
    lemma_square_units(u * a.value(), x);
    assert(abs_int(u * a.value()) == ma * u) by {
        assert(u * ma == ma * u && u * (-ma) == -(u * ma)) by (nonlinear_arith);
        assert(u * ma >= 0) by (nonlinear_arith)
            requires
                u > 0,
                ma >= 0,
        ;
    }
    lemma_units(b);
    lemma_scaled_abs(g, y);
    assert(mb as real == g * abs_real(y));
    lemma_speck();
    assert(area * (speck() * abs_real(y)) == g * abs_real(y)) by {
        lemma_regroup(area, speck(), abs_real(y));
        lemma_speck_units();
    }
    let (off, size) = (abs_real(z * y - x), abs_real(x));
    assert(area * off <= portion(area * size) + area * (speck() * abs_real(y)));
    lemma_portion(area, size);
    lemma_spread(area, portion(size), speck() * abs_real(y));
    lemma_divided(area, off, portion(size) + speck() * abs_real(y));
}

/// `x` is at most `b` in size.
pub open spec fn within(x: real, b: real) -> bool {
    -b <= x && x <= b
}

/// A finite sum of bounded size.
pub proof fn lemma_sum_within(a: Double, b: Double, p: real)
    requires
        a.plus(b).finite(),
        within(real_of(a) + real_of(b), p),
    ensures
        within(real_of(a.plus(b)) - (real_of(a) + real_of(b)), portion(p)),
        within(real_of(a.plus(b)), p + portion(p)),
        a.finite(),
        b.finite(),
{
    law_sum_is_close(a, b);
}

/// A finite difference of bounded size.
pub proof fn lemma_difference_within(a: Double, b: Double, p: real)
    requires
        a.minus(b).finite(),
        within(real_of(a) - real_of(b), p),
    ensures
        within(real_of(a.minus(b)) - (real_of(a) - real_of(b)), portion(p)),
        within(real_of(a.minus(b)), p + portion(p)),
        a.finite(),
        b.finite(),
{
    law_difference_is_close(a, b);
}

/// A finite product of bounded size.
pub proof fn lemma_product_within(a: Double, b: Double, p: real)
    requires
        a.times(b).finite(),
        within(real_of(a) * real_of(b), p),
    ensures
        within(real_of(a.times(b)) - real_of(a) * real_of(b), portion(p) + speck()),
        within(real_of(a.times(b)), p + portion(p) + speck()),
        a.finite(),
        b.finite(),
{
    law_product_is_close(a, b);
}

/// A product of two bounded numbers is bounded.
pub proof fn lemma_within_product(a: real, p: real, b: real, q: real)
    requires
        within(a, p),
        within(b, q),
    ensures
        within(a * b, p * q),
{
    lemma_bounded_product(a, p, b, q);
}

/// Two products are as close as their factors are.
pub proof fn lemma_within_gap(a: real, b: real, c: real, d: real, da: real, pb: real, pc: real, db: real)
    requires
        within(a - c, da),
        within(b, pb),
        within(c, pc),
        within(b - d, db),
    ensures
        within(a * b - c * d, da * pb + pc * db),
{
    lemma_product_gap(a, b, c, d, da, pb, pc, db);
}

proof fn lemma_root_bound(x: int, s: int, m: int, f: int)
    requires
        s * s <= x < (s + 1) * (s + 1),
        s >= 0x1000_0000_0000_0000,
        m >= 0,
        0 <= f <= 1,
        abs_int(2 * s + f - 2 * m) * 0x20_0000_0000_0000 <= 2 * m || 2 * abs_int(2 * s + f - 2 * m) <= 2,
    ensures
        abs_int(m * m - x) * 0x10_0000_0000_0000 <= 4 * x,
{
    let size = abs_int(m - s) as int;
    let square = s * s;
    let sum = m + s;
    let apart = abs_int(m * m - square) as int;
    assert(size * 0x10_0000_0000_0000 <= s);
    assert(m * m - square == (m - s) * sum) by (nonlinear_arith)
        requires
            square == s * s,
            sum == m + s,
    ;
    assert(apart == size * sum) by {
        crate::scaling::lemma_signs(m - s, sum);
    }
    assert(size * sum <= 3 * (size * s)) by (nonlinear_arith)
        requires
            sum <= 3 * s,
            size >= 0,
    ;
    assert((size * s) * 0x10_0000_0000_0000 <= square) by (nonlinear_arith)
        requires
            size * 0x10_0000_0000_0000 <= s,
            s >= 0,
            square == s * s,
    ;
    assert((s + 1) * (s + 1) == square + 2 * s + 1) by (nonlinear_arith)
        requires
            square == s * s,
    ;
    assert(square >= 0x1000_0000_0000_0000 * s) by (nonlinear_arith)
        requires
            s >= 0x1000_0000_0000_0000,
            square == s * s,
    ;
}

/// The square of a rounded root lies within four parts in `2^52` of the number.
pub proof fn law_root_is_close(a: Double)
    requires
        a.finite(),
        a.value() > 0,
    ensures
        a.sqrt().finite(),
        a.sqrt().value() > 0,
        within(real_of(a.sqrt()) * real_of(a.sqrt()) - real_of(a), portion(4real * real_of(a))),
{
    reveal(Double::spec_sqrt);
    let g = pow2(1074) as real;
    let area = g * g;
    let r = a.sqrt();
    let u = pow2(1074);
    lemma_zero_magnitude(a);
    let x = a.magnitude() * u;
    let s = floor_sqrt(x);
    let f: nat = if s * s == x {
        0
    } else {
        1
    };
    lemma_floor_sqrt_exists(x);
    lemma_pow2_pos(1074);
    lemma_root_is_large(a.magnitude(), s);
    lemma_root_is_small(a, s);
    crate::double::lemma_round_is_finite(2 * s + f, 2, 1800);
    assert(r.code() == crate::rounding::round_code(2 * s + f, 2));
    lemma_rounding_error(2 * s + f, 2, r);
    let m = r.magnitude() as int;
    lemma_root_bound(x as int, s as int, m, f as int);
    assert(m > 0) by {
        if m == 0 {
            assert(m * m == 0);
            assert(x > 0) by (nonlinear_arith)
                requires
                    x == a.magnitude() * u,
                    a.magnitude() > 0,
                    u > 0,
            ;
        }
    }
    lemma_two_units(r, r);
    lemma_two_units(a, a);
    let (rr, ra) = (real_of(r), real_of(a));
    let whole = r.value() * r.value() - u * a.value();
    assert(a.magnitude() * u == u * a.magnitude()) by (nonlinear_arith);
    lemma_spread(area, rr * rr, ra);
    lemma_square_units(whole, rr * rr - ra);
    let off = abs_real(rr * rr - ra);
    assert(area * off <= portion(4real * (area * ra)));
    lemma_portion(area, 4real * ra);
    lemma_regroup(area, 4real, ra);
    lemma_divided(area, off, portion(4real * ra));
}

proof fn lemma_root_is_large(m: nat, s: nat)
    requires
        m > 0,
        m * pow2(1074) < (s + 1) * (s + 1),
    ensures
        s >= 0x1000_0000_0000_0000,
{
    let h = pow2(537);
    lemma2_to64();
    lemma_pow2_adds(537, 537);
    lemma_pow2_adds(64, 473);
    lemma_pow2_pos(473);
    assert(h >= 0x2000_0000_0000_0000) by (nonlinear_arith)
        requires
            h == pow2(64) * pow2(473),
            pow2(64) >= 0x2000_0000_0000_0000,
            pow2(473) >= 1,
    ;
    let u = pow2(1074);
    assert(m * u >= u) by (nonlinear_arith)
        requires
            m > 0,
            u >= 0,
    ;
    if s + 1 <= h {
        assert((s + 1) * (s + 1) <= h * h) by (nonlinear_arith)
            requires
                s + 1 <= h,
        ;
    }
}

proof fn lemma_root_is_small(a: Double, s: nat)
    requires
        a.finite(),
        s * s <= a.magnitude() * pow2(1074),
    ensures
        2 * s + 1 <= 2 * pow2(1800),
{
    let m = a.significand();
    let e = a.exponent();
    lemma2_to64();
    assert(m < pow2(64));
    assert(e <= 2046);
    crate::rounding::lemma_power_at_most(e, 2046);
    lemma_pow2_pos(e);
    lemma_pow2_adds(64, 2046);
    lemma_pow2_adds(2110, 1074);
    lemma_pow2_adds(1799, 1799);
    crate::rounding::lemma_power_at_most(3184, 3598);
    let (p, q, t) = (pow2(e), pow2(2046), pow2(64));
    assert(m * p <= t * q) by (nonlinear_arith)
        requires
            m <= t,
            p <= q,
    ;
    let v = pow2(1074);
    let top = pow2(2110);
    assert(a.magnitude() * v <= top * v) by (nonlinear_arith)
        requires
            a.magnitude() <= top,
    ;
    let h = pow2(1799);
    if s > h {
        assert(s * s > h * h) by (nonlinear_arith)
            requires
                s > h,
        ;
    }
    lemma_pow2_unfold(1800);
    lemma_pow2_pos(1799);
}

} // verus!
