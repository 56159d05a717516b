//! Running moments without compensation: what they are of the numbers read, up to
//! rounding.

use crate::accuracy::{
    law_quotient_is_close, law_root_is_close, lemma_difference_within, lemma_portion, lemma_product_within,
    lemma_speck, lemma_sum_within, lemma_within_gap, lemma_within_product, portion, speck, within,
};
use crate::constants::two;
use crate::double::{
    law_order_is_numeric, law_rounding_keeps_representable, lemma_one, lemma_whole_is_exact, lemma_wholes_add, lemma_zero,
    lemma_zero_magnitude, one, zero, Double,
};
use crate::online::least_squares::{
    abs_real, lemma_divided, lemma_product_sign, lemma_regroup, lemma_scaled_abs, lemma_shrunk, lemma_simple_values,
    lemma_spread, real_of,
};
use crate::online::mean_accuracy::{
    bounded, lemma_grows, lemma_mean_of, lemma_share_of, lemma_whole_value, mean_of, share_of,
};
use crate::online::moment_accuracy::{co_moment, is_scale, law_co_moment_grows, lemma_powers_of_count};
use crate::online::score_accuracy::moderate;
use crate::scaling::{lemma_factors_are_finite, lemma_terms_are_finite};
use crate::streaming::hoeffding::Gauss;
use crate::streaming::statistics::{OnlineGaussian, OnlineMean, OnlineVar, PairMoments};
use vstd::arithmetic::power2::*;
use vstd::prelude::*;

verus! {

/// The running mean of the first `k` numbers.
pub open spec fn plain_mean(values: Seq<Double>, k: nat) -> Double
    decreases k,
{
    if k == 0 {
        zero()
    } else {
        let m = plain_mean(values, (k - 1) as nat);
        m.plus(values[k - 1].minus(m).over(Double::from_u64(k as u64)))
    }
}

/// The running sum of the products of deviations of the first `k` pairs.
pub open spec fn plain_cross(xs: Seq<Double>, ys: Seq<Double>, k: nat) -> Double
    decreases k,
{
    if k == 0 {
        zero()
    } else {
        plain_cross(xs, ys, (k - 1) as nat).plus(
            xs[k - 1].minus(plain_mean(xs, (k - 1) as nat)).times(ys[k - 1].minus(plain_mean(ys, k))),
        )
    }
}

/// A finite quotient of a bounded number by a whole one.
pub proof fn lemma_quotient_within(a: Double, n: u64, p: real)
    requires
        a.finite(),
        0 < n <= 0x20_0000_0000_0000,
        a.over(Double::from_u64(n)).finite(),
        within(real_of(a), p),
    ensures
        within(real_of(a.over(Double::from_u64(n))) - real_of(a) * share_of(n as nat), portion(p) + speck()),
{
    let d = Double::from_u64(n);
    let m = n as real;
    let w = share_of(n as nat);
    let (x, q) = (real_of(a), real_of(a.over(d)));
    lemma_whole_value(n);
    lemma_whole_is_exact(n);
    lemma_pow2_pos(1074);
    assert(d.value() != 0) by (nonlinear_arith)
        requires
            d.value() == n * pow2(1074),
            n > 0,
            pow2(1074) > 0,
    ;
    law_quotient_is_close(a, d);
    lemma_share_of(n as nat);
    lemma_speck();
    let off = q - x * w;
    lemma_spread(m, q, x * w);
    lemma_regroup(m, x, w);
    lemma_spread(x, 1real, 0real);
    assert(m * off == q * m - x);
    lemma_scaled_abs(m, off);
    lemma_spread(m, portion(p), speck());
    lemma_grows(1real, m, portion(p));
    lemma_spread(portion(p), 1real, 0real);
    lemma_spread(m, speck(), 0real);
    lemma_divided(m, abs_real(off), portion(p) + speck());
}

proof fn lemma_mean_moves(m: Double, v: Double, n: u64, b: real)
    requires
        0 < n <= 0x20_0000_0000_0000,
        within(real_of(m), 2real * b),
        within(real_of(v), b),
        speck() <= portion(b),
        b > 0real,
        m.plus(v.minus(m).over(Double::from_u64(n))).finite(),
    ensures
        within(
            real_of(m.plus(v.minus(m).over(Double::from_u64(n)))) - (real_of(m) + (real_of(v) - real_of(m)) * share_of(
                n as nat,
            )),
            portion(40real * b),
        ),
        m.finite(),
        v.minus(m).finite(),
{
    let d = v.minus(m);
    let q = d.over(Double::from_u64(n));
    let w = share_of(n as nat);
    let (rm, rv, rd) = (real_of(m), real_of(v), real_of(d));
    lemma_terms_are_finite(m, q);
    lemma_dividend_is_finite(d, n);
    lemma_share_of(n as nat);
    lemma_difference_within(v, m, 3real * b);
    lemma_quotient_within(d, n, 4real * b);
    lemma_spread(w, rd, rv - rm);
    lemma_within_product(rd - (rv - rm), portion(3real * b), w, 1real);
    lemma_within_product(rd, 4real * b, w, 1real);
    lemma_spread(portion(3real * b), 1real, 0real);
    lemma_spread(rd - (rv - rm), w, 0real);
    lemma_sum_within(m, q, 7real * b);
}

proof fn lemma_dividend_is_finite(d: Double, n: u64)
    requires
        0 < n <= 0x20_0000_0000_0000,
        d.over(Double::from_u64(n)).finite(),
    ensures
        d.finite(),
{
    reveal(Double::spec_over);
    lemma_whole_is_exact(n);
}

/// The running mean is the arithmetic mean of the numbers read, up to `40 k` parts in
/// `2^52` of their size.
pub proof fn law_plain_mean_is_close(values: Seq<Double>, k: nat, b: real)
    requires
        0 < k <= 0x100_0000_0000,
        bounded(values, k, b),
        speck() <= portion(b),
        plain_mean(values, k).finite(),
    ensures
        within(real_of(plain_mean(values, k)) - mean_of(values, k), portion((k as real) * (40real * b))),
        within(real_of(plain_mean(values, k)), 2real * b),
        within(mean_of(values, k), b),
    decreases k,
{
    let c = 40real * b;
    let j = (k - 1) as nat;
    let m = plain_mean(values, j);
    let v = values[k - 1];
    lemma_speck();
    lemma_mean_of(values, k, b);
    lemma_grows(k as real, 1099511627776real, c);
    assert(within(real_of(v), b));
    let q = v.minus(m).over(Double::from_u64(k as u64));
    lemma_terms_are_finite(m, q);
    if j > 0 {
        law_plain_mean_is_close(values, j, b);
    } else {
        lemma_simple_values();
    }
    lemma_mean_moves(m, v, k as u64, b);
    let w = share_of(k);
    lemma_share_of(k);
    let (rm, rv, e) = (real_of(m), real_of(v), mean_of(values, j));
    lemma_spread(w, rv, rm);
    lemma_spread(w, rv, e);
    lemma_spread(w, rm, e);
    lemma_spread(c, j as real, 1real);
    if j > 0 {
        lemma_shrunk(w, rm - e);
    } else {
        assert(k as real == 1real);
        assert(w == 1real);
        lemma_spread(c, 1real, 0real);
        lemma_spread(rv, 1real, 0real);
    }
}

proof fn lemma_plain_increment(x: Double, mx: Double, y: Double, my: Double, ex: real, ey: real, b: real, d: real)
    requires
        within(real_of(x), b),
        within(real_of(y), b),
        within(real_of(mx), 2real * b),
        within(real_of(my), 2real * b),
        within(ex, b),
        within(ey, b),
        within(real_of(mx) - ex, d),
        within(real_of(my) - ey, d),
        x.minus(mx).times(y.minus(my)).finite(),
        speck() <= portion(b * b),
        b >= 0real,
    ensures
        ({
            let inc = x.minus(mx).times(y.minus(my));
            &&& within(real_of(inc) - (real_of(x) - ex) * (real_of(y) - ey), portion(35real * (b * b)) + 6real * (b * d))
            &&& within(real_of(inc), 17real * (b * b))
        }),
{
    let (left, right) = (x.minus(mx), y.minus(my));
    let (rl, rr) = (real_of(left), real_of(right));
    lemma_factors_are_finite(left, right);
    lemma_difference_within(x, mx, 3real * b);
    lemma_difference_within(y, my, 3real * b);
    let near = portion(3real * b) + d;
    lemma_within_gap(rl, rr, real_of(x) - ex, real_of(y) - ey, near, 4real * b, 2real * b, near);
    assert(near * (4real * b) + (2real * b) * near == portion(18real * (b * b)) + 6real * (b * d)) by {
        lemma_portion(b, 3real * b);
        lemma_regroup(b, 3real, b);
        lemma_spread(b, portion(3real * b), d);
        lemma_regroup(2real, b, near);
        assert(b * near == portion(3real * (b * b)) + b * d);
        lemma_regroup(near, 4real, b);
        lemma_spread(near, b, 0real);
    }
    lemma_within_product(rl, 4real * b, rr, 4real * b);
    assert((4real * b) * (4real * b) == 16real * (b * b)) by {
        lemma_regroup(4real * b, 4real, b);
        lemma_regroup(4real, b, b);
        lemma_spread(4real * b, b, 0real);
    }
    lemma_speck();
    lemma_product_within(left, right, 16real * (b * b));
}

/// The running sum of products is the co-moment of the pairs read, up to `500 k^2` parts
/// in `2^52` of the square of their size.
pub proof fn law_plain_cross_is_close(xs: Seq<Double>, ys: Seq<Double>, k: nat, b: real)
    requires
        0 < k <= 0x10_0000,
        bounded(xs, k, b),
        bounded(ys, k, b),
        is_scale(b),
        plain_cross(xs, ys, k).finite(),
        plain_mean(xs, k).finite(),
        plain_mean(ys, k).finite(),
    ensures
        within(
            real_of(plain_cross(xs, ys, k)) - co_moment(xs, ys, k),
            portion(500real * ((k as real) * ((k as real) * (b * b)))),
        ),
        within(real_of(plain_cross(xs, ys, k)), 20real * ((k as real) * (b * b))),
    decreases k,
{
    let j = (k - 1) as nat;
    let n = j as real;
    let unit = b * b;
    let (x, y) = (xs[k - 1], ys[k - 1]);
    let (mx, my) = (plain_mean(xs, j), plain_mean(ys, k));
    let c = plain_cross(xs, ys, j);
    let inc = x.minus(mx).times(y.minus(my));
    lemma_speck();
    lemma_product_sign(b, b);
    lemma_powers_of_count(j, unit);
    lemma_terms_are_finite(c, inc);
    lemma_terms_are_finite(mx, x.minus(mx).over(Double::from_u64(k as u64)));
    lemma_terms_are_finite(plain_mean(ys, j), y.minus(plain_mean(ys, j)).over(Double::from_u64(k as u64)));
    law_co_moment_grows(xs, ys, k, b);
    law_plain_mean_is_close(ys, k, b);
    assert(within(real_of(x), b) && within(real_of(y), b));
    let ey = mean_of(ys, k);
    let far = (k as real) * (40real * b);
    lemma_spread(40real * b, n, 1real);
    lemma_portion(b, far);
    lemma_regroup(b, k as real, 40real * b);
    lemma_regroup(b, 40real, b);
    lemma_regroup(k as real, 40real, unit);
    if j > 0 {
        law_plain_mean_is_close(xs, j, b);
        law_plain_cross_is_close(xs, ys, j, b);
        lemma_plain_increment(x, mx, y, my, mean_of(xs, j), ey, b, portion(far));
    } else {
        lemma_simple_values();
        assert(k == 1);
        lemma_mean_of(ys, 1, b);
        lemma_plain_increment(x, mx, y, my, 0real, ey, b, portion(far));
        assert(real_of(y) - ey == 0real);
        lemma_spread(real_of(x), 0real, 0real);
    }
    lemma_sum_within(c, inc, 20real * (n * unit) + 17real * unit);
}

/// Two is the whole number two.
pub proof fn lemma_two()
    ensures
        two() == Double::from_u64(2),
{
    lemma_wholes_add(1, 1);
    lemma_one();
    let d = two();
    let c = Double::from_u64(2);
    lemma_whole_is_exact(2);
    assert(d.code() == 0x4000_0000_0000_0000);
    lemma2_to64();
    lemma2_to64_rest();
    assert(pow2(52) == 0x10_0000_0000_0000);
    lemma_pow2_adds(52, 1023);
    lemma_pow2_unfold(1075);
    assert(d.exponent() == 1023 && d.significand() == 0x10_0000_0000_0000);
    assert(d.magnitude() == c.magnitude());
    law_rounding_keeps_representable(d);
    law_rounding_keeps_representable(c);
    assert(d.code() == c.code());
}

/// A whole number less one.
pub proof fn lemma_whole_less_one(k: u64)
    requires
        0 < k <= 0x20_0000_0000_0000,
    ensures
        Double::from_u64(k).minus(one()) == Double::from_u64((k - 1) as u64),
{
    reveal(Double::spec_plus);
    lemma_one();
    lemma_whole_is_exact(k);
    lemma_whole_is_exact((k - 1) as u64);
    crate::errors::lemma_neg_value(one());
    let d = Double::from_u64((k - 1) as u64);
    let g = pow2(1074) as int;
    assert(k * g - g == (k - 1) * g) by (nonlinear_arith);
    law_rounding_keeps_representable(d);
    lemma_pow2_pos(1074);
    if k == 1 {
        lemma_zero();
        assert(0 * g == 0);
    } else {
        assert((k - 1) * g > 0) by (nonlinear_arith)
            requires
                k > 1,
                g > 0,
        ;
    }
}

/// A whole number is below two exactly if it is zero or one.
pub proof fn lemma_below_two(k: u64)
    requires
        k <= 0x20_0000_0000_0000,
    ensures
        Double::from_u64(k).lt(two()) == (k < 2),
{
    lemma_two();
    lemma_whole_is_exact(k);
    lemma_whole_is_exact(2);
    law_order_is_numeric(Double::from_u64(k), two());
    let g = pow2(1074) as int;
    lemma_pow2_pos(1074);
    assert((k * g < 2 * g) == (k < 2)) by (nonlinear_arith)
        requires
            g > 0,
    ;
}

proof fn lemma_above_zero(k: u64)
    requires
        0 < k <= 0x20_0000_0000_0000,
    ensures
        !Double::from_u64(k).le(zero()),
{
    let z = zero();
    assert(z.code() == 0);
    lemma_zero_magnitude(z);
    crate::double::lemma_positive_whole(k);
    law_order_is_numeric(z, Double::from_u64(k));
    law_order_is_numeric(Double::from_u64(k), z);
}

proof fn lemma_next_count(k: nat)
    requires
        0 < k <= 0x10_0000,
    ensures
        Double::from_u64((k - 1) as u64).plus(one()) == Double::from_u64(k as u64),
{
    lemma_one();
    lemma_wholes_add((k - 1) as u64, 1);
}

/// A sample moment times one less than the count is the sum, up to rounding.
proof fn lemma_plain_score(xs: Seq<Double>, ys: Seq<Double>, k: nat, b: real)
    requires
        2 <= k <= 0x10_0000,
        bounded(xs, k, b),
        bounded(ys, k, b),
        is_scale(b),
        plain_cross(xs, ys, k).finite(),
        plain_mean(xs, k).finite(),
        plain_mean(ys, k).finite(),
    ensures
        ({
            let n = k as real;
            let score = plain_cross(xs, ys, k).over(Double::from_u64(k as u64).minus(one()));
            &&& score.finite()
            &&& within(real_of(score) * (n - 1real) - co_moment(xs, ys, k), portion(600real * (n * (n * (b * b)))))
        }),
{
    let n = k as real;
    let unit = b * b;
    let c = plain_cross(xs, ys, k);
    let d = Double::from_u64((k - 1) as u64);
    law_plain_cross_is_close(xs, ys, k, b);
    lemma_whole_less_one(k as u64);
    lemma_product_sign(b, b);
    lemma_powers_of_count(k, unit);
    crate::double::lemma_over_whole(c, (k - 1) as u64);
    lemma_quotient_within(c, (k - 1) as u64, 20real * (n * unit));
    let w = share_of((k - 1) as nat);
    let m = n - 1real;
    lemma_share_of((k - 1) as nat);
    let (q, rc) = (real_of(c.over(d)), real_of(c));
    lemma_whole_value((k - 1) as u64);
    lemma_whole_is_exact((k - 1) as u64);
    lemma_pow2_pos(1074);
    assert(d.value() != 0) by (nonlinear_arith)
        requires
            d.value() == (k - 1) * pow2(1074),
            k - 1 > 0,
            pow2(1074) > 0,
    ;
    law_quotient_is_close(c, d);
    lemma_speck();
    assert(real_of(d) == m);
    assert(speck() * abs_real(m) <= portion(n * unit)) by {
        lemma_grows(speck(), portion(unit), m);
        lemma_portion(m, unit);
        lemma_spread(m, portion(unit), speck());
        lemma_spread(m, speck(), portion(unit));
        lemma_spread(unit, n, 1real);
    }
}

proof fn lemma_moderate_bounded(values: Seq<Double>, b: real)
    requires
        moderate(values, b),
    ensures
        bounded(values, values.len(), b),
        forall|i: int| 0 <= i < values.len() ==> (#[trigger] values[i]).is_finite(),
{
}

proof fn lemma_mean_fold(values: Seq<Double>, k: nat)
    requires
        k <= values.len(),
        k <= 0x10_0000,
        forall|i: int| 0 <= i < values.len() ==> (#[trigger] values[i]).is_finite(),
    ensures
        OnlineMean::blank().after(values, k).n == Double::from_u64(k as u64),
        OnlineMean::blank().after(values, k).mean == plain_mean(values, k),
    decreases k,
{
    if k == 0 {
        lemma_zero();
    } else {
        lemma_mean_fold(values, (k - 1) as nat);
        lemma_next_count(k);
        assert(values[k - 1].is_finite());
    }
}

/// The mean of a stream is the arithmetic mean of its numbers, up to `40 n` parts in
/// `2^52` of their size.
pub proof fn law_stream_mean_is_the_mean(values: Seq<Double>, b: real)
    requires
        0 < values.len() <= 0x10_0000,
        moderate(values, b),
        speck() <= portion(b),
        OnlineMean::blank().after(values, values.len()).value().finite(),
    ensures
        within(
            real_of(OnlineMean::blank().after(values, values.len()).value()) - mean_of(values, values.len()),
            portion((values.len() as real) * (40real * b)),
        ),
{
    let k = values.len();
    lemma_moderate_bounded(values, b);
    lemma_mean_fold(values, k);
    lemma_above_zero(k as u64);
    law_plain_mean_is_close(values, k, b);
}

proof fn lemma_variance_fold(values: Seq<Double>, k: nat)
    requires
        k <= values.len(),
        k <= 0x10_0000,
        forall|i: int| 0 <= i < values.len() ==> (#[trigger] values[i]).is_finite(),
    ensures
        OnlineVar::blank().after(values, k).n == Double::from_u64(k as u64),
        OnlineVar::blank().after(values, k).mean == plain_mean(values, k),
        OnlineVar::blank().after(values, k).m2 == plain_cross(values, values, k),
        OnlineGaussian::blank().after(values, k).n == Double::from_u64(k as u64),
        OnlineGaussian::blank().after(values, k).mean == plain_mean(values, k),
        OnlineGaussian::blank().after(values, k).m2 == plain_cross(values, values, k),
        gathered(values, k) == (Gauss {
            n: Double::from_u64(k as u64),
            mean: plain_mean(values, k),
            m2: plain_cross(values, values, k),
        }),
    decreases k,
{
    if k == 0 {
        lemma_zero();
    } else {
        lemma_variance_fold(values, (k - 1) as nat);
        lemma_next_count(k);
        assert(values[k - 1].is_finite());
    }
}

/// A spread after the first `k` numbers.
pub open spec fn gathered(values: Seq<Double>, k: nat) -> Gauss
    decreases k,
{
    if k == 0 {
        Gauss::fresh()
    } else {
        gathered(values, (k - 1) as nat).pushed(values[k - 1])
    }
}

/// The variance of a stream is the sample variance of its numbers, up to `600 n^2` parts
/// in `2^52` of the square of their size.
pub proof fn law_stream_variance_is_the_variance(values: Seq<Double>, b: real)
    requires
        2 <= values.len() <= 0x10_0000,
        moderate(values, b),
        is_scale(b),
        OnlineVar::blank().after(values, values.len()).m2.finite(),
        OnlineVar::blank().after(values, values.len()).mean.finite(),
    ensures
        ({
            let n = values.len() as real;
            let score = OnlineVar::blank().after(values, values.len()).value();
            &&& score.finite()
            &&& within(
                real_of(score) * (n - 1real) - co_moment(values, values, values.len()),
                portion(600real * (n * (n * (b * b)))),
            )
        }),
{
    let k = values.len();
    lemma_moderate_bounded(values, b);
    lemma_variance_fold(values, k);
    lemma_below_two(k as u64);
    lemma_plain_score(values, values, k, b);
}

/// The mean and the squared deviations of a spread, or of a normal law, are those of the
/// numbers that it took in, up to rounding.
pub proof fn law_spread_is_that_of_its_numbers(values: Seq<Double>, b: real)
    requires
        0 < values.len() <= 0x10_0000,
        moderate(values, b),
        is_scale(b),
        plain_cross(values, values, values.len()).finite(),
        plain_mean(values, values.len()).finite(),
    ensures
        ({
            let n = values.len() as real;
            let g = gathered(values, values.len());
            let s = OnlineGaussian::blank().after(values, values.len());
            &&& real_of(g.n) == n
            &&& within(real_of(g.mean) - mean_of(values, values.len()), portion(n * (40real * b)))
            &&& within(real_of(g.m2) - co_moment(values, values, values.len()), portion(500real * (n * (n * (b * b)))))
            &&& s.n == g.n && s.mean == g.mean && s.m2 == g.m2
        }),
{
    let k = values.len();
    lemma_moderate_bounded(values, b);
    lemma_variance_fold(values, k);
    lemma_whole_value(k as u64);
    law_plain_mean_is_close(values, k, b);
    law_plain_cross_is_close(values, values, k, b);
}

/// Moments after the first `k` pairs.
pub open spec fn paired_up(xs: Seq<Double>, ys: Seq<Double>, k: nat) -> PairMoments
    decreases k,
{
    if k == 0 {
        PairMoments::fresh()
    } else {
        paired_up(xs, ys, (k - 1) as nat).joined(xs[k - 1], ys[k - 1])
    }
}

proof fn lemma_pair_fold(xs: Seq<Double>, ys: Seq<Double>, k: nat)
    requires
        k <= 0x10_0000,
    ensures
        paired_up(xs, ys, k) == (PairMoments {
            n: Double::from_u64(k as u64),
            mx: plain_mean(xs, k),
            my: plain_mean(ys, k),
            c: plain_cross(xs, ys, k),
            vx: plain_cross(xs, xs, k),
            vy: plain_cross(ys, ys, k),
        }),
    decreases k,
{
    if k == 0 {
        lemma_zero();
    } else {
        lemma_pair_fold(xs, ys, (k - 1) as nat);
        lemma_next_count(k);
    }
}

/// The covariance of some pairs is their sample covariance, up to `600 n^2` parts in
/// `2^52` of the square of their size.
pub proof fn law_pair_covariance_is_the_covariance(xs: Seq<Double>, ys: Seq<Double>, k: nat, b: real)
    requires
        2 <= k <= 0x10_0000,
        bounded(xs, k, b),
        bounded(ys, k, b),
        is_scale(b),
        paired_up(xs, ys, k).c.finite(),
        paired_up(xs, ys, k).mx.finite(),
        paired_up(xs, ys, k).my.finite(),
    ensures
        ({
            let n = k as real;
            let score = paired_up(xs, ys, k).covariance();
            &&& score.finite()
            &&& within(real_of(score) * (n - 1real) - co_moment(xs, ys, k), portion(600real * (n * (n * (b * b)))))
        }),
{
    lemma_pair_fold(xs, ys, k);
    lemma_below_two(k as u64);
    lemma_plain_score(xs, ys, k, b);
}

/// The moments behind the correlation of some pairs are their co-moment and their sums of
/// squared deviations, up to rounding; and the correlation, where it is a number, has the
/// sign of the first and is it over the root of the product of the others.
pub proof fn law_pair_correlation_is_a_ratio(xs: Seq<Double>, ys: Seq<Double>, k: nat, b: real)
    requires
        3 <= k <= 0x10_0000,
        bounded(xs, k, b),
        bounded(ys, k, b),
        is_scale(b),
        paired_up(xs, ys, k).c.finite(),
        paired_up(xs, ys, k).vx.finite(),
        paired_up(xs, ys, k).vy.finite(),
        paired_up(xs, ys, k).mx.finite(),
        paired_up(xs, ys, k).my.finite(),
        paired_up(xs, ys, k).correlation().finite(),
        paired_up(xs, ys, k).vx.times(paired_up(xs, ys, k).vy).finite(),
        paired_up(xs, ys, k).vx.times(paired_up(xs, ys, k).vy).value() > 0,
    ensures
        ({
            let m = paired_up(xs, ys, k);
            let n = k as real;
            let off = portion(500real * (n * (n * (b * b))));
            let root = real_of(m.vx.times(m.vy).sqrt());
            let square = real_of(m.vx.times(m.vy));
            &&& within(real_of(m.c) - co_moment(xs, ys, k), off)
            &&& within(real_of(m.vx) - co_moment(xs, xs, k), off)
            &&& within(real_of(m.vy) - co_moment(ys, ys, k), off)
            &&& m.correlation().negative() == m.c.negative()
            &&& within(
                real_of(m.correlation()) * root - real_of(m.c),
                portion(abs_real(real_of(m.c))) + speck() * abs_real(root),
            )
            &&& within(root * root - square, portion(4real * square))
            &&& within(
                square - real_of(m.vx) * real_of(m.vy),
                portion(abs_real(real_of(m.vx) * real_of(m.vy))) + speck(),
            )
        }),
{
    let m = paired_up(xs, ys, k);
    let area = m.vx.times(m.vy);
    let den = area.sqrt();
    lemma_pair_fold(xs, ys, k);
    law_plain_cross_is_close(xs, ys, k, b);
    law_plain_cross_is_close(xs, xs, k, b);
    law_plain_cross_is_close(ys, ys, k, b);
    law_root_is_close(area);
    crate::accuracy::law_product_is_close(m.vx, m.vy);
    assert(m.correlation() == m.c.over(den));
    law_quotient_is_close(m.c, den);
    assert(m.correlation().negative() == m.c.negative()) by {
        reveal(Double::spec_over);
        lemma_zero_magnitude(den);
    }
}

} // verus!
