//! What the metrics say of all pairs taken in, up to rounding.

use crate::accuracy::{
    law_quotient_is_close, lemma_difference_within, lemma_portion, lemma_product_within, lemma_speck, lemma_sum_within,
    lemma_within_gap, lemma_within_product, portion, speck, within,
};
use crate::constants::{half, two};
use crate::data::Matrix;
use crate::double::{
    law_rounding_keeps_representable, lemma_one, lemma_whole_is_exact, lemma_wholes_add, lemma_zero, zero, Double,
};
use crate::online::least_squares::{
    abs_real, lemma_product_sign, lemma_regroup, lemma_simple_values, lemma_spread, real_of,
};
use crate::online::mean_accuracy::{lemma_grows, lemma_speck_is_small, lemma_whole_value};
use crate::online::moment_accuracy::{is_scale, lemma_powers_of_count};
use crate::scaling::{lemma_factors_are_finite, lemma_terms_are_finite};
use crate::streaming::metrics::{
    metric_after, OnlineF1, OnlineMae, OnlineMse, OnlinePrecision, OnlineRecall, PairMetric,
};
use crate::streaming::plain_accuracy::lemma_two;
use vstd::arithmetic::power2::*;
use vstd::prelude::*;

verus! {

/// Finite predictions and targets of at most `b` in the first `k` rows.
pub open spec fn moderate_pairs(x: &Matrix, y: Seq<Double>, k: nat, b: real) -> bool {
    forall|i: int|
        0 <= i < k ==> {
            &&& (#[trigger] x.at(i, 0)).finite()
            &&& y[i].finite()
            &&& within(real_of(x.at(i, 0)), b)
            &&& within(real_of(y[i]), b)
        }
}

/// The sum of the squared errors of the first `k` predictions.
pub open spec fn squared_errors(x: &Matrix, y: Seq<Double>, k: nat) -> real
    decreases k,
{
    if k == 0 {
        0real
    } else {
        let e = real_of(x.at(k - 1, 0)) - real_of(y[k - 1]);
        squared_errors(x, y, (k - 1) as nat) + e * e
    }
}

/// The sum of the sizes of the errors of the first `k` predictions.
pub open spec fn error_sizes(x: &Matrix, y: Seq<Double>, k: nat) -> real
    decreases k,
{
    if k == 0 {
        0real
    } else {
        error_sizes(x, y, (k - 1) as nat) + abs_real(real_of(x.at(k - 1, 0)) - real_of(y[k - 1]))
    }
}

proof fn lemma_squared_error(p: Double, t: Double, b: real)
    requires
        within(real_of(p), b),
        within(real_of(t), b),
        b > 0real,
        speck() <= portion(b * b),
        p.minus(t).times(p.minus(t)).finite(),
    ensures
        within(
            real_of(p.minus(t).times(p.minus(t))) - (real_of(p) - real_of(t)) * (real_of(p) - real_of(t)),
            portion(20real * (b * b)),
        ),
        within(real_of(p.minus(t).times(p.minus(t))), 10real * (b * b)),
{
    let e = p.minus(t);
    let r = real_of(e);
    let d = real_of(p) - real_of(t);
    let unit = b * b;
    lemma_factors_are_finite(e, e);
    lemma_difference_within(p, t, 2real * b);
    lemma_within_gap(r, r, d, d, portion(2real * b), 3real * b, 2real * b, portion(2real * b));
    assert(portion(2real * b) * (3real * b) + (2real * b) * portion(2real * b) == portion(10real * unit)) by {
        let t2 = portion(2real * b);
        lemma_portion(b, 2real * b);
        lemma_regroup(b, 2real, b);
        lemma_regroup(t2, 3real, b);
        lemma_regroup(2real, b, t2);
        lemma_spread(t2, b, 0real);
        assert(b * t2 == portion(2real * unit));
    }
    lemma_within_product(r, 3real * b, r, 3real * b);
    assert((3real * b) * (3real * b) == 9real * unit) by {
        lemma_regroup(3real * b, 3real, b);
        lemma_regroup(3real, b, b);
        lemma_spread(3real * b, b, 0real);
    }
    lemma_speck();
    lemma_product_within(e, e, 9real * unit);
}

proof fn lemma_mse_state(x: &Matrix, y: Seq<Double>, k: nat, b: real)
    requires
        k <= 0x10_0000,
        moderate_pairs(x, y, k, b),
        is_scale(b),
        metric_after(OnlineMse::empty(), x, y, k).sse.finite(),
    ensures
        ({
            let s = metric_after(OnlineMse::empty(), x, y, k);
            let n = k as real;
            &&& s.n == k
            &&& within(real_of(s.sse), 11real * (n * (b * b)))
            &&& within(real_of(s.sse) - squared_errors(x, y, k), portion(40real * (n * (n * (b * b)))))
        }),
    decreases k,
{
    let unit = b * b;
    lemma_product_sign(b, b);
    if k == 0 {
        lemma_simple_values();
        lemma_powers_of_count(0, unit);
        lemma_spread(unit, 0real, 0real);
        lemma_spread(0real * unit, 0real, 0real);
    } else {
        let j = (k - 1) as nat;
        let s = metric_after(OnlineMse::empty(), x, y, j);
        let (p, t) = (x.at(k - 1, 0), y[k - 1]);
        let q = p.minus(t).times(p.minus(t));
        let n = j as real;
        lemma_terms_are_finite(s.sse, q);
        lemma_mse_state(x, y, j, b);
        lemma_powers_of_count(j, unit);
        lemma_squared_error(p, t, b);
        lemma_sum_within(s.sse, q, 11real * (n * unit) + 10real * unit);
    }
}

proof fn lemma_ratio(a: Double, n: u64)
    requires
        a.finite(),
        0 < n <= 0x20_0000_0000_0000,
        a.over(Double::from_u64(n)).finite(),
    ensures
        within(
            real_of(a.over(Double::from_u64(n))) * (n as real) - real_of(a),
            portion(abs_real(real_of(a))) + speck() * (n as real),
        ),
{
    let d = Double::from_u64(n);
    lemma_whole_value(n);
    lemma_whole_is_exact(n);
    lemma_pow2_pos(1074);
    assert(d.value() != 0) by (nonlinear_arith)
        requires
            d.value() == n * pow2(1074),
            n > 0,
            pow2(1074) > 0,
    ;
    law_quotient_is_close(a, d);
}

/// The mean squared error times the number of pairs is the sum of the squared errors, up
/// to `60 n^2` parts in `2^52` of the square of their size.
pub proof fn law_mse_is_the_mean_squared_error(x: &Matrix, y: Seq<Double>, k: nat, b: real)
    requires
        0 < k <= 0x10_0000,
        moderate_pairs(x, y, k, b),
        is_scale(b),
        metric_after(OnlineMse::empty(), x, y, k).sse.finite(),
    ensures
        ({
            let s = metric_after(OnlineMse::empty(), x, y, k);
            let n = k as real;
            &&& s.level().finite()
            &&& within(real_of(s.level()) * n - squared_errors(x, y, k), portion(60real * (n * (n * (b * b)))))
        }),
{
    let s = metric_after(OnlineMse::empty(), x, y, k);
    let unit = b * b;
    let n = k as real;
    lemma_mse_state(x, y, k, b);
    crate::double::lemma_over_whole(s.sse, k as u64);
    lemma_ratio(s.sse, k as u64);
    lemma_product_sign(b, b);
    lemma_powers_of_count(k, unit);
    lemma_speck();
    lemma_grows(speck(), portion(unit), n);
    lemma_portion(n, unit);
    lemma_spread(n, portion(unit), speck());
    lemma_spread(n, speck(), portion(unit));
}

proof fn lemma_size_of_error(p: Double, t: Double, b: real)
    requires
        within(real_of(p), b),
        within(real_of(t), b),
        p.minus(t).finite(),
    ensures
        p.minus(t).abs().finite(),
        within(
            real_of(p.minus(t).abs()) - abs_real(real_of(p) - real_of(t)),
            portion(2real * b),
        ),
        within(real_of(p.minus(t).abs()), 3real * b),
{
    let e = p.minus(t);
    lemma_difference_within(p, t, 2real * b);
    lemma_abs_value(e);
}

proof fn lemma_abs_value(e: Double)
    requires
        e.finite(),
    ensures
        e.abs().finite(),
        real_of(e.abs()) == abs_real(real_of(e)),
{
    let z = zero();
    assert(z.code() == 0);
    crate::double::lemma_zero_magnitude(z);
    crate::double::lemma_zero_magnitude(e);
    assert(e.abs().code() == e.code());
    assert(e.abs().magnitude() == e.magnitude());
    assert(!e.abs().negative());
    crate::accuracy::lemma_neg_real(e);
    lemma_simple_values();
    crate::online::least_squares::lemma_real_order(e, z);
    crate::online::least_squares::lemma_real_order(z, e);
    if e.negative() {
        assert(e.neg().code() == e.code());
        assert(e.neg().magnitude() == e.magnitude());
        assert(!e.neg().negative());
        crate::online::least_squares::lemma_real_order(e.abs(), e.neg());
    } else {
        crate::online::least_squares::lemma_real_order(e.abs(), e);
    }
}

proof fn lemma_mae_state(x: &Matrix, y: Seq<Double>, k: nat, b: real)
    requires
        k <= 0x10_0000,
        moderate_pairs(x, y, k, b),
        b > 0real,
        metric_after(OnlineMae::empty(), x, y, k).sae.finite(),
    ensures
        ({
            let s = metric_after(OnlineMae::empty(), x, y, k);
            let n = k as real;
            &&& s.n == k
            &&& within(real_of(s.sae), 4real * (n * b))
            &&& within(real_of(s.sae) - error_sizes(x, y, k), portion(20real * (n * (n * b))))
        }),
    decreases k,
{
    if k == 0 {
        lemma_simple_values();
        lemma_powers_of_count(0, b);
        lemma_spread(b, 0real, 0real);
        lemma_spread(0real * b, 0real, 0real);
    } else {
        let j = (k - 1) as nat;
        let s = metric_after(OnlineMae::empty(), x, y, j);
        let (p, t) = (x.at(k - 1, 0), y[k - 1]);
        let e = p.minus(t).abs();
        let n = j as real;
        lemma_terms_are_finite(s.sae, e);
        assert(e.code() == p.minus(t).code());
        lemma_mae_state(x, y, j, b);
        lemma_powers_of_count(j, b);
        lemma_size_of_error(p, t, b);
        lemma_sum_within(s.sae, e, 4real * (n * b) + 3real * b);
    }
}

/// The mean absolute error times the number of pairs is the sum of the sizes of the
/// errors, up to `40 n^2` parts in `2^52` of their size.
pub proof fn law_mae_is_the_mean_absolute_error(x: &Matrix, y: Seq<Double>, k: nat, b: real)
    requires
        0 < k <= 0x10_0000,
        moderate_pairs(x, y, k, b),
        speck() <= portion(b),
        metric_after(OnlineMae::empty(), x, y, k).sae.finite(),
    ensures
        ({
            let s = metric_after(OnlineMae::empty(), x, y, k);
            let n = k as real;
            &&& s.level().finite()
            &&& within(real_of(s.level()) * n - error_sizes(x, y, k), portion(40real * (n * (n * b))))
        }),
{
    let s = metric_after(OnlineMae::empty(), x, y, k);
    let n = k as real;
    lemma_speck();
    lemma_mae_state(x, y, k, b);
    crate::double::lemma_over_whole(s.sae, k as u64);
    lemma_ratio(s.sae, k as u64);
    lemma_powers_of_count(k, b);
    lemma_grows(speck(), portion(b), n);
    lemma_portion(n, b);
    lemma_spread(n, portion(b), speck());
    lemma_spread(n, speck(), portion(b));
}

/// The first `k` pairs whose prediction and target are on the given sides of one half.
pub open spec fn outcomes(x: &Matrix, y: Seq<Double>, predicted: bool, actual: bool, k: nat) -> nat
    decreases k,
{
    if k == 0 {
        0
    } else {
        outcomes(x, y, predicted, actual, (k - 1) as nat) + if half().lt(x.at(k - 1, 0)) == predicted && half().lt(
            y[k - 1],
        ) == actual {
            1nat
        } else {
            0nat
        }
    }
}

proof fn lemma_counts(x: &Matrix, y: Seq<Double>, k: nat)
    requires
        k <= 0x10_0000_0000_0000,
    ensures
        ({
            let (f, p, r) = (
                metric_after(OnlineF1::empty(), x, y, k),
                metric_after(OnlinePrecision::empty(), x, y, k),
                metric_after(OnlineRecall::empty(), x, y, k),
            );
            let (tp, fp, miss) = (
                outcomes(x, y, true, true, k),
                outcomes(x, y, true, false, k),
                outcomes(x, y, false, true, k),
            );
            &&& tp + fp + miss <= k
            &&& f.tp == Double::from_u64(tp as u64)
            &&& f.fp == Double::from_u64(fp as u64)
            &&& f.fn_ == Double::from_u64(miss as u64)
            &&& p.tp == f.tp
            &&& p.fp == f.fp
            &&& r.tp == f.tp
            &&& r.fn_ == f.fn_
        }),
    decreases k,
{
    if k == 0 {
        lemma_zero();
    } else {
        lemma_counts(x, y, (k - 1) as nat);
        lemma_one();
        lemma_wholes_add(outcomes(x, y, true, true, (k - 1) as nat) as u64, 1);
        lemma_wholes_add(outcomes(x, y, true, false, (k - 1) as nat) as u64, 1);
        lemma_wholes_add(outcomes(x, y, false, true, (k - 1) as nat) as u64, 1);
    }
}

proof fn lemma_whole_ratio(a: u64, n: u64)
    requires
        0 < n <= 0x20_0000_0000_0000,
        a <= n,
    ensures
        Double::from_u64(a).over(Double::from_u64(n)).finite(),
        !Double::from_u64(n).le(zero()),
        within(
            real_of(Double::from_u64(a).over(Double::from_u64(n))) * (n as real) - (a as real),
            portion(2real * (n as real)),
        ),
{
    let d = Double::from_u64(a);
    let z = zero();
    assert(z.code() == 0);
    crate::double::lemma_zero_magnitude(z);
    crate::double::lemma_positive_whole(n);
    crate::double::law_order_is_numeric(z, Double::from_u64(n));
    crate::double::law_order_is_numeric(Double::from_u64(n), z);
    lemma_whole_value(a);
    crate::double::lemma_over_whole(d, n);
    lemma_ratio(d, n);
    lemma_speck_is_small();
    let m = n as real;
    lemma_grows(speck(), portion(1real), m);
    lemma_portion(m, 1real);
    lemma_spread(m, portion(1real), speck());
    lemma_spread(m, speck(), portion(1real));
}

/// Precision is the share of the positive predictions that are right, and recall the share
/// of the positive targets that are found, up to rounding.
pub proof fn law_precision_and_recall_are_shares(x: &Matrix, y: Seq<Double>, k: nat)
    requires
        k <= 0x10_0000_0000_0000,
    ensures
        ({
            let p = real_of(metric_after(OnlinePrecision::empty(), x, y, k).level());
            let r = real_of(metric_after(OnlineRecall::empty(), x, y, k).level());
            let tp = outcomes(x, y, true, true, k);
            let guessed = tp + outcomes(x, y, true, false, k);
            let actual = tp + outcomes(x, y, false, true, k);
            &&& guessed > 0 ==> within(p * (guessed as real) - (tp as real), portion(2real * (guessed as real)))
            &&& actual > 0 ==> within(r * (actual as real) - (tp as real), portion(2real * (actual as real)))
            &&& guessed == 0 ==> metric_after(OnlinePrecision::empty(), x, y, k).level().is_nan()
            &&& actual == 0 ==> metric_after(OnlineRecall::empty(), x, y, k).level().is_nan()
        }),
{
    lemma_counts(x, y, k);
    let tp = outcomes(x, y, true, true, k);
    let fp = outcomes(x, y, true, false, k);
    let miss = outcomes(x, y, false, true, k);
    lemma_wholes_add(tp as u64, fp as u64);
    lemma_wholes_add(tp as u64, miss as u64);
    lemma_zero();
    assert(zero().code() == 0);
    if tp + fp > 0 {
        lemma_whole_ratio(tp as u64, (tp + fp) as u64);
    }
    if tp + miss > 0 {
        lemma_whole_ratio(tp as u64, (tp + miss) as u64);
    }
}

proof fn lemma_twice_whole(a: u64)
    requires
        2 * a <= 0x20_0000_0000_0000,
    ensures
        two().times(Double::from_u64(a)) == Double::from_u64((2 * a) as u64),
{
    let d = Double::from_u64(a);
    let c = Double::from_u64((2 * a) as u64);
    let g = pow2(1074);
    lemma_two();
    lemma_whole_is_exact(2);
    lemma_whole_is_exact(a);
    lemma_whole_is_exact((2 * a) as u64);
    lemma_pow2_pos(1074);
    reveal(Double::spec_times);
    assert(two().magnitude() * d.magnitude() == c.magnitude() * g) by (nonlinear_arith)
        requires
            two().magnitude() == 2 * g,
            d.magnitude() == a * g,
            c.magnitude() == (2 * a) * g,
    ;
    crate::rounding::lemma_round_scale(c.magnitude(), 1, g);
    assert(1 * g == g);
    law_rounding_keeps_representable(c);
}

/// The F1 score is twice the right positive predictions over those and all positive
/// predictions and targets that are wrong or missed, up to rounding.
pub proof fn law_f1_is_a_share(x: &Matrix, y: Seq<Double>, k: nat)
    requires
        k <= 0x8_0000_0000_0000,
    ensures
        ({
            let f = real_of(metric_after(OnlineF1::empty(), x, y, k).level());
            let tp = outcomes(x, y, true, true, k);
            let all = 2 * tp + outcomes(x, y, true, false, k) + outcomes(x, y, false, true, k);
            &&& all > 0 ==> within(f * (all as real) - 2real * (tp as real), portion(2real * (all as real)))
            &&& all == 0 ==> metric_after(OnlineF1::empty(), x, y, k).level().is_nan()
        }),
{
    lemma_counts(x, y, k);
    let tp = outcomes(x, y, true, true, k);
    let fp = outcomes(x, y, true, false, k);
    let miss = outcomes(x, y, false, true, k);
    lemma_twice_whole(tp as u64);
    lemma_wholes_add((2 * tp) as u64, fp as u64);
    lemma_wholes_add((2 * tp + fp) as u64, miss as u64);
    lemma_zero();
    assert(zero().code() == 0);
    let all = 2 * tp + fp + miss;
    if all > 0 {
        lemma_whole_ratio((2 * tp) as u64, all as u64);
    }
}

} // verus!
