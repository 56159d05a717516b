//! What exponentially weighted scores are: weighted means, variances and sums of squared
//! weights of all accepted observations, up to rounding.

use crate::accuracy::{
    law_fused_sum_is_close, law_quotient_is_close, law_root_is_close, lemma_difference_within, lemma_portion,
    lemma_product_within, lemma_speck, lemma_sum_within, lemma_within_gap, lemma_within_product, portion, speck, within,
};
use crate::data::Matrix;
use crate::double::{law_order_is_numeric, lemma_one, lemma_zero_magnitude, one, zero, Double};
use crate::online::accumulator::{history, law_history_is_a_stream, observe_all, stream, Accumulator};
use crate::online::autocorrelation::observations;
use crate::online::exponentially_weighted::{
    invalid_alpha, kish_size, squared_weights, weighted_mean_step, OnlineEwMean, OnlineEwVar,
};
use crate::online::least_squares::{
    abs_real, lemma_product_sign, lemma_real_order, lemma_regroup, lemma_shrunk, lemma_simple_values, lemma_spread,
    lemma_square, powered, real_of,
};
use crate::online::mean_accuracy::{lemma_grows, lemma_speck_is_small};
use crate::online::moment_accuracy::{is_scale, lemma_expand, lemma_powers_of_count};
use crate::online::score_accuracy::moderate;
use crate::scaling::{lemma_factors_are_finite, lemma_terms_are_finite};
use vstd::prelude::*;

verus! {

/// The weight of observation `i` once observation `last` is in: the first one starts with
/// weight one, the others with `a`, and each later one scales the old weights by `1 - a`.
pub open spec fn weight_of(a: real, i: nat, last: nat) -> real {
    powered(1real - a, (last - i) as nat) * if i == 0 {
        1real
    } else {
        a
    }
}

/// The sum of the first `k` weights times a power of their observations.
pub open spec fn weighted_sum(values: Seq<real>, a: real, last: nat, k: nat) -> real
    decreases k,
{
    if k == 0 {
        0real
    } else {
        weighted_sum(values, a, last, (k - 1) as nat) + weight_of(a, (k - 1) as nat, last) * values[k - 1]
    }
}

/// The weighted mean of the first `k` values.
pub open spec fn weighted_mean(values: Seq<real>, a: real, k: nat) -> real {
    weighted_sum(values, a, (k - 1) as nat, k)
}

/// The values of some numbers.
pub open spec fn values_of(s: Seq<Double>) -> Seq<real> {
    Seq::new(s.len(), |i: int| real_of(s[i]))
}

/// One for each value.
pub open spec fn ones(n: nat) -> Seq<real> {
    Seq::new(n, |i: int| 1real)
}

proof fn lemma_weights_fade(values: Seq<real>, a: real, last: nat, k: nat)
    requires
        k <= last + 1,
    ensures
        weighted_sum(values, a, last + 1, k) == (1real - a) * weighted_sum(values, a, last, k),
    decreases k,
{
    let rest = 1real - a;
    if k == 0 {
        lemma_spread(rest, 0real, 0real);
    } else {
        let i = (k - 1) as nat;
        lemma_weights_fade(values, a, last, i);
        let p = powered(rest, (last - i) as nat);
        let c = if i == 0 {
            1real
        } else {
            a
        };
        assert(powered(rest, (last + 1 - i) as nat) == rest * p);
        lemma_regroup(rest, p, c);
        lemma_regroup(rest, p * c, values[k - 1]);
        lemma_spread(rest, weighted_sum(values, a, last, i), weight_of(a, i, last) * values[k - 1]);
    }
}

/// A weighted mean follows from that of one value fewer: the old weights fade by `1 - a`,
/// and the new value has weight `a`.
pub proof fn law_weighted_mean_steps(values: Seq<real>, a: real, k: nat)
    requires
        k > 0,
    ensures
        k == 1 ==> weighted_mean(values, a, k) == values[0],
        k > 1 ==> weighted_mean(values, a, k) == (1real - a) * weighted_mean(values, a, (k - 1) as nat) + a * values[k
            - 1],
{
    if k == 1 {
        assert(weighted_sum(values, a, 0, 0) == 0real);
        assert(powered(1real - a, 0) == 1real);
        lemma_spread(values[0], 1real, 0real);
        assert(weighted_sum(values, a, 0, 1) == 0real + weight_of(a, 0, 0) * values[0]);
    } else {
        lemma_weights_fade(values, a, (k - 2) as nat, (k - 1) as nat);
        assert(powered(1real - a, 0) == 1real);
        lemma_spread(a, 1real, 0real);
    }
}

proof fn lemma_convex(a: real, x: real, y: real, b: real)
    requires
        0real < a <= 1real,
        within(x, b),
        within(y, b),
    ensures
        within((1real - a) * x + a * y, b),
{
    lemma_within_product(1real - a, 1real - a, x, b);
    lemma_within_product(a, a, y, b);
    lemma_spread(b, 1real, a);
    lemma_spread(b, a, 0real);
    lemma_spread(b, 1real - a, 0real);
}

/// The weights add up to one, and a weighted mean is not larger than its values.
pub proof fn law_weights_add_up_to_one(values: Seq<real>, a: real, k: nat, b: real)
    requires
        k > 0,
        0real < a <= 1real,
        forall|i: int| 0 <= i < k ==> within(#[trigger] values[i], b),
    ensures
        weighted_mean(ones(k), a, k) == 1real,
        within(weighted_mean(values, a, k), b),
    decreases k,
{
    law_weighted_mean_steps(values, a, k);
    law_weighted_mean_steps(ones(k), a, k);
    assert(within(values[k - 1], b));
    if k > 1 {
        let j = (k - 1) as nat;
        law_weights_add_up_to_one(values, a, j, b);
        lemma_same_weighted(ones(j), ones(k), a, (j - 1) as nat, j);
        lemma_spread(a, 1real, 0real);
        lemma_spread(1real - a, 1real, 0real);
        lemma_convex(a, weighted_mean(values, a, j), values[k - 1], b);
    } else {
        assert(ones(k)[0] == 1real);
        assert(values[0] == values[k - 1]);
    }
}

/// A weighted sum depends on its values alone.
pub proof fn lemma_same_weighted(u: Seq<real>, v: Seq<real>, a: real, last: nat, k: nat)
    requires
        forall|i: int| 0 <= i < k ==> #[trigger] u[i] == v[i],
    ensures
        weighted_sum(u, a, last, k) == weighted_sum(v, a, last, k),
    decreases k,
{
    if k > 0 {
        lemma_same_weighted(u, v, a, last, (k - 1) as nat);
    }
}

/// A weight in range, as a real number.
pub proof fn lemma_alpha(alpha: Double)
    requires
        !invalid_alpha(alpha),
    ensures
        alpha.finite(),
        0real < real_of(alpha) <= 1real,
{
    let z = zero();
    let unit = one();
    assert(z.code() == 0);
    assert(unit.code() == 0x3ff0_0000_0000_0000);
    lemma_zero_magnitude(z);
    law_order_is_numeric(alpha, z);
    law_order_is_numeric(unit, alpha);
    law_order_is_numeric(alpha, unit);
    lemma_simple_values();
    lemma_real_order(alpha, z);
    lemma_real_order(alpha, unit);
}

/// One step of a weighted mean is close to the exact step.
pub proof fn law_weighted_step_is_close(previous: Double, x: Double, alpha: Double, b: real)
    requires
        !invalid_alpha(alpha),
        within(real_of(previous), 2real * b),
        within(real_of(x), b),
        speck() <= portion(b),
        weighted_mean_step(previous, x, alpha).finite(),
    ensures
        within(
            real_of(weighted_mean_step(previous, x, alpha)) - ((1real - real_of(alpha)) * real_of(previous) + real_of(
                alpha,
            ) * real_of(x)),
            portion(20real * b),
        ),
        one().minus(alpha).finite(),
{
    let decay = one().minus(alpha);
    let p = decay.times(previous);
    let (a, d, rm, rx, rp) = (real_of(alpha), real_of(decay), real_of(previous), real_of(x), real_of(p));
    lemma_alpha(alpha);
    law_fused_sum_is_close(alpha, x, p);
    lemma_factors_are_finite(decay, previous);
    lemma_simple_values();
    lemma_difference_within(one(), alpha, 1real);
    lemma_within_gap(d, rm, 1real - a, rm, portion(1real), 2real * b, 1real, 0real);
    lemma_portion(2real * b, 1real);
    lemma_spread(2real * b, portion(1real), 0real);
    lemma_within_product(d, 2real, rm, 2real * b);
    lemma_product_within(decay, previous, 4real * b);
    lemma_within_product(a, 1real, rx, b);
    lemma_fused_within(alpha, x, p, 6real * b);
}

/// A fused sum of bounded size.
pub proof fn lemma_fused_within(a: Double, b: Double, c: Double, p: real)
    requires
        a.mul_add(b, c).finite(),
        within(real_of(a) * real_of(b) + real_of(c), p),
    ensures
        within(real_of(a.mul_add(b, c)) - (real_of(a) * real_of(b) + real_of(c)), portion(p) + speck()),
        within(real_of(a.mul_add(b, c)), p + portion(p) + speck()),
{
    law_fused_sum_is_close(a, b, c);
}

/// An exponentially weighted mean is close to the weighted mean of the values.
pub open spec fn near_weighted_mean(z: Seq<Double>, a: real, mean: Double, b: real) -> bool {
    &&& mean.finite()
    &&& within(real_of(mean) - weighted_mean(values_of(z), a, z.len()), portion(20real * ((z.len() as real) * b)))
}

proof fn lemma_mean_stays_near(z: Seq<Double>, x: Double, alpha: Double, mean: Double, b: real)
    requires
        !invalid_alpha(alpha),
        0 < z.len() < 0x100_0000_0000,
        near_weighted_mean(z, real_of(alpha), mean, b),
        moderate(z.push(x), b),
        speck() <= portion(b),
        weighted_mean_step(mean, x, alpha).finite(),
    ensures
        near_weighted_mean(z.push(x), real_of(alpha), weighted_mean_step(mean, x, alpha), b),
        within(real_of(mean), 2real * b),
        within(weighted_mean(values_of(z), real_of(alpha), z.len()), b),
        within(real_of(x), b),
        one().minus(alpha).finite(),
{
    let k = z.len();
    let a = real_of(alpha);
    let us = values_of(z.push(x));
    let vs = values_of(z);
    let (m, e) = (real_of(mean), weighted_mean(vs, a, k));
    lemma_speck();
    lemma_alpha(alpha);
    assert(z.push(x)[k as int] == x);
    assert forall|i: int| 0 <= i < k implies within(#[trigger] vs[i], b) by {
        assert(z.push(x)[i] == z[i]);
    }
    law_weights_add_up_to_one(vs, a, k, b);
    law_weighted_mean_steps(us, a, k + 1);
    assert forall|i: int| 0 <= i < k implies #[trigger] vs[i] == us[i] by {
        assert(z.push(x)[i] == z[i]);
    }
    lemma_same_weighted(vs, us, a, (k - 1) as nat, k);
    lemma_grows(k as real, 1099511627776real, b);
    law_weighted_step_is_close(mean, x, alpha, b);
    lemma_spread(1real - a, m, e);
    if a < 1real {
        lemma_shrunk(1real - a, m - e);
    } else {
        lemma_spread(m - e, 0real, 0real);
    }
    lemma_spread(b, k as real, 1real);
}

proof fn lemma_first_is_near(x: Double, a: real, b: real)
    requires
        x.finite(),
        b >= 0real,
    ensures
        near_weighted_mean(seq![x], a, x, b),
{
    law_weighted_mean_steps(values_of(seq![x]), a, 1);
    lemma_spread(b, 1real, 0real);
}

proof fn lemma_weighted_state(alpha: Double, values: Seq<(Double, Double)>, b: real)
    requires
        !invalid_alpha(alpha),
        0 < values.len() <= 0x100_0000_0000,
        observe_all(OnlineEwMean::empty(alpha), values) is Ok,
        moderate(observations(values), b),
        speck() <= portion(b),
    ensures
        ({
            let s = observe_all(OnlineEwMean::empty(alpha), values)->Ok_0;
            &&& s.n_seen == values.len()
            &&& s.alpha == alpha
            &&& near_weighted_mean(observations(values), real_of(alpha), s.mean, b)
            &&& s.weight_square_sum.finite()
            &&& within(
                real_of(s.weight_square_sum) - squared_total(real_of(alpha), values.len()),
                portion(30real * (values.len() as real)),
            )
        }),
    decreases values.len(),
{
    let earlier = values.drop_last();
    let z = observations(values);
    let was = observations(earlier);
    let x = values.last().0;
    assert(z =~= was.push(x));
    assert(z[was.len() as int] == x);
    lemma_speck();
    lemma_alpha(alpha);
    if values.len() == 1 {
        assert(earlier =~= Seq::empty());
        assert(observe_all(OnlineEwMean::empty(alpha), earlier) == Ok::<OnlineEwMean, crate::quality::IssueCode>(
            OnlineEwMean::empty(alpha),
        ));
        assert(z =~= seq![x]);
        lemma_first_is_near(x, real_of(alpha), b);
        law_squared_weights_step(real_of(alpha), 1);
        lemma_simple_values();
        lemma_one();
    } else {
        assert(moderate(was, b)) by {
            assert forall|i: int| 0 <= i < was.len() implies (#[trigger] was[i]).finite() && within(real_of(was[i]), b) by {
                assert(z[i] == was[i]);
            }
        }
        lemma_weighted_state(alpha, earlier, b);
        let s = observe_all(OnlineEwMean::empty(alpha), earlier)->Ok_0;
        lemma_mean_stays_near(was, x, alpha, s.mean, b);
        lemma_squares_stay_near(alpha, s.weight_square_sum, was.len());
    }
}

/// The sum of the squares of the weights of `k` observations.
pub open spec fn squared_total(a: real, k: nat) -> real {
    squared_sum(a, (k - 1) as nat, k)
}

/// The sum of the squares of the first `k` weights.
pub open spec fn squared_sum(a: real, last: nat, k: nat) -> real
    decreases k,
{
    if k == 0 {
        0real
    } else {
        squared_sum(a, last, (k - 1) as nat) + weight_of(a, (k - 1) as nat, last) * weight_of(a, (k - 1) as nat, last)
    }
}

proof fn lemma_squares_fade(a: real, last: nat, k: nat)
    requires
        k <= last + 1,
    ensures
        squared_sum(a, last + 1, k) == ((1real - a) * (1real - a)) * squared_sum(a, last, k),
    decreases k,
{
    let rest = 1real - a;
    let fade = rest * rest;
    if k == 0 {
        lemma_spread(fade, 0real, 0real);
    } else {
        let i = (k - 1) as nat;
        lemma_squares_fade(a, last, i);
        let p = powered(rest, (last - i) as nat);
        let c = if i == 0 {
            1real
        } else {
            a
        };
        let w = weight_of(a, i, last);
        let v = weight_of(a, i, last + 1);
        assert(powered(rest, (last + 1 - i) as nat) == rest * p);
        lemma_regroup(rest, p, c);
        assert(v == rest * w);
        assert(v * v == fade * (w * w)) by {
            lemma_regroup(rest * w, rest, w);
            lemma_regroup(rest, rest, w);
            lemma_regroup(fade, w, w);
            lemma_spread(rest * w, rest, 0real);
        }
        lemma_spread(fade, squared_sum(a, last, i), w * w);
    }
}

/// The squared weights of `k` observations follow from those of one fewer.
pub proof fn law_squared_weights_step(a: real, k: nat)
    requires
        k > 0,
    ensures
        k == 1 ==> squared_total(a, k) == 1real,
        k > 1 ==> squared_total(a, k) == ((1real - a) * (1real - a)) * squared_total(a, (k - 1) as nat) + a * a,
{
    assert(powered(1real - a, 0) == 1real);
    lemma_spread(a, 1real, 0real);
    if k == 1 {
        assert(squared_sum(a, 0, 0) == 0real);
        assert(squared_sum(a, 0, 1) == 0real + weight_of(a, 0, 0) * weight_of(a, 0, 0));
    } else {
        lemma_squares_fade(a, (k - 2) as nat, (k - 1) as nat);
    }
}

proof fn lemma_squares_bounded(a: real, k: nat)
    requires
        k > 0,
        0real < a <= 1real,
    ensures
        0real <= squared_total(a, k) <= 1real,
    decreases k,
{
    law_squared_weights_step(a, k);
    if k > 1 {
        let q = squared_total(a, (k - 1) as nat);
        lemma_squares_bounded(a, (k - 1) as nat);
        let rest = 1real - a;
        assert(0real <= (rest * rest) * q + a * a <= 1real) by (nonlinear_arith)
            requires
                rest == 1real - a,
                0real < a <= 1real,
                0real <= q <= 1real,
        ;
    }
}

proof fn lemma_squares_stay_near(alpha: Double, current: Double, k: nat)
    requires
        !invalid_alpha(alpha),
        0 < k < 0x100_0000_0000,
        current.finite(),
        one().minus(alpha).finite(),
        within(real_of(current) - squared_total(real_of(alpha), k), portion(30real * (k as real))),
        squared_weights(current, true, alpha).finite(),
    ensures
        within(
            real_of(squared_weights(current, true, alpha)) - squared_total(real_of(alpha), k + 1),
            portion(30real * ((k + 1) as real)),
        ),
{
    let decay = one().minus(alpha);
    let dd = decay.times(decay);
    let aa = alpha.times(alpha);
    let a = real_of(alpha);
    let rest = 1real - a;
    let (d, rdd, raa, c, q) = (real_of(decay), real_of(dd), real_of(aa), real_of(current), squared_total(a, k));
    lemma_alpha(alpha);
    lemma_squares_bounded(a, k);
    law_squared_weights_step(a, k + 1);
    lemma_speck_is_small();
    lemma_simple_values();
    law_fused_sum_is_close(dd, current, aa);
    lemma_difference_within(one(), alpha, 1real);
    lemma_within_gap(d, d, rest, rest, portion(1real), 2real, 1real, portion(1real));
    lemma_within_product(d, 2real, d, 2real);
    lemma_product_within(decay, decay, 4real);
    lemma_within_product(a, 1real, a, 1real);
    lemma_product_within(alpha, alpha, 1real);
    lemma_within_product(rest, 1real, rest, 1real);
    lemma_within_gap(rdd, c, rest * rest, c, portion(8real), 2real, 1real, 0real);
    lemma_within_product(rest * rest, 1real, c, 2real);
    lemma_fused_within(dd, current, aa, 5real);
    lemma_spread(rest * rest, c, q);
    lemma_within_product(rest * rest, 1real, c - q, portion(30real * (k as real)));
    lemma_spread(portion(30real * (k as real)), 1real, 0real);
}

/// The exponentially weighted mean is the weighted mean of all accepted observations, up
/// to `20 n` parts in `2^52` of their size: the first starts with weight one, the others
/// with `alpha`, and each later one scales the old weights by `1 - alpha`. The effective
/// sample size is one over the sum of the squares of these weights.
pub proof fn law_weighted_mean_is_the_mean(alpha: Double, batches: Seq<(Matrix, Option<Seq<Double>>)>, b: real)
    requires
        !invalid_alpha(alpha),
        0 < stream(OnlineEwMean::empty(alpha), batches).len() <= 0x100_0000_0000,
        moderate(observations(stream(OnlineEwMean::empty(alpha), batches)), b),
        speck() <= portion(b),
    ensures
        ({
            let s = history(OnlineEwMean::empty(alpha), batches);
            let z = observations(stream(OnlineEwMean::empty(alpha), batches));
            let n = z.len() as real;
            &&& s.level().finite()
            &&& within(real_of(s.level()) - weighted_mean(values_of(z), real_of(alpha), z.len()), portion(20real * (n * b)))
            &&& within(real_of(s.weight_square_sum) - squared_total(real_of(alpha), z.len()), portion(30real * n))
        }),
{
    let values = stream(OnlineEwMean::empty(alpha), batches);
    law_history_is_a_stream(OnlineEwMean::empty(alpha), batches);
    lemma_weighted_state(alpha, values, b);
}

/// A finite effective sample size times the sum of squared weights is one, up to rounding.
pub proof fn law_effective_size_inverts(n: u64, w: Double)
    requires
        n > 0,
        w.finite(),
        w.value() > 0,
        kish_size(n, w).finite(),
    ensures
        within(real_of(kish_size(n, w)) * real_of(w) - 1real, portion(1real) + speck() * abs_real(real_of(w))),
{
    lemma_one();
    lemma_simple_values();
    law_quotient_is_close(one(), w);
}

/// The weighted variance of the first `k` values: the weighted sum of the squares of their
/// deviations from the weighted mean.
pub open spec fn weighted_variance(values: Seq<real>, a: real, k: nat) -> real {
    weighted_mean(deviations(values, weighted_mean(values, a, k)), a, k)
}

/// The squares of the deviations from `m`.
pub open spec fn deviations(values: Seq<real>, m: real) -> Seq<real> {
    Seq::new(values.len(), |i: int| (values[i] - m) * (values[i] - m))
}

spec fn squares(values: Seq<real>) -> Seq<real> {
    Seq::new(values.len(), |i: int| values[i] * values[i])
}

proof fn lemma_deviation_sum(values: Seq<real>, m: real, a: real, last: nat, k: nat)
    requires
        k <= values.len(),
    ensures
        weighted_sum(deviations(values, m), a, last, k) == weighted_sum(squares(values), a, last, k) - 2real * (m
            * weighted_sum(values, a, last, k)) + (m * m) * weighted_sum(ones(values.len()), a, last, k),
    decreases k,
{
    if k == 0 {
        lemma_spread(m, 0real, 0real);
        lemma_spread(m * m, 0real, 0real);
    } else {
        let i = (k - 1) as nat;
        let w = weight_of(a, i, last);
        let x = values[k - 1];
        lemma_deviation_sum(values, m, a, last, i);
        lemma_expand(x, x, m, m);
        lemma_spread(w, x * x, m * x);
        lemma_spread(w, x * x - m * x, m * x);
        lemma_spread(w, x * x - m * x - m * x, m * m);
        lemma_regroup(w, m, x);
        lemma_spread(w, 1real, 0real);
        lemma_spread(w, m * m, 0real);
        lemma_spread(m, weighted_sum(values, a, last, i), w * x);
        lemma_spread(m * m, weighted_sum(ones(values.len()), a, last, i), w * 1real);
    }
}

proof fn lemma_variance_by_squares(values: Seq<real>, a: real, k: nat, b: real)
    requires
        0 < k <= values.len(),
        0real < a <= 1real,
        forall|i: int| 0 <= i < k ==> within(#[trigger] values[i], b),
    ensures
        ({
            let m = weighted_mean(values, a, k);
            weighted_variance(values, a, k) == weighted_mean(squares(values), a, k) - m * m
        }),
{
    let m = weighted_mean(values, a, k);
    law_weights_add_up_to_one(values, a, k, b);
    lemma_same_weighted(ones(k), ones(values.len()), a, (k - 1) as nat, k);
    lemma_deviation_sum(values, m, a, (k - 1) as nat, k);
    lemma_spread(m * m, 1real, 0real);
}

/// A weighted variance follows from that of one value fewer.
pub proof fn law_weighted_variance_steps(values: Seq<real>, a: real, k: nat, b: real)
    requires
        0 < k <= values.len(),
        0real < a <= 1real,
        b >= 0real,
        forall|i: int| 0 <= i < k ==> within(#[trigger] values[i], b),
    ensures
        k == 1 ==> weighted_variance(values, a, k) == 0real,
        k > 1 ==> ({
            let gap = values[k - 1] - weighted_mean(values, a, (k - 1) as nat);
            weighted_variance(values, a, k) == (1real - a) * (weighted_variance(values, a, (k - 1) as nat) + a * (gap
                * gap))
        }),
        0real <= weighted_variance(values, a, k) <= b * b,
    decreases k,
{
    let m = weighted_mean(values, a, k);
    let sq = squares(values);
    lemma_variance_by_squares(values, a, k, b);
    law_weighted_mean_steps(values, a, k);
    law_weighted_mean_steps(sq, a, k);
    assert forall|i: int| 0 <= i < k implies within(#[trigger] sq[i], b * b) by {
        assert(within(values[i], b));
        lemma_within_product(values[i], b, values[i], b);
    }
    law_weights_add_up_to_one(sq, a, k, b * b);
    lemma_square(m);
    if k > 1 {
        let j = (k - 1) as nat;
        lemma_variance_by_squares(values, a, j, b);
        law_weighted_variance_steps(values, a, j, b);
        let (e, x, q) = (weighted_mean(values, a, j), values[k - 1], weighted_mean(sq, a, j));
        let gap = x - e;
        lemma_variance_identity(a, e, x, q);
        lemma_square(gap);
        lemma_product_sign(a, gap * gap);
        let v = weighted_variance(values, a, j);
        if a < 1real {
            lemma_product_sign(1real - a, v + a * (gap * gap));
        } else {
            lemma_spread(v + a * (gap * gap), 0real, 0real);
        }
    }
}

proof fn lemma_square_of_sum(x: real, y: real)
    by (nonlinear_arith)
    ensures
        (x + y) * (x + y) == x * x + 2real * (x * y) + y * y,
{
}

proof fn lemma_variance_identity(a: real, e: real, x: real, q: real)
    ensures
        ((1real - a) * q + a * (x * x)) - ((1real - a) * e + a * x) * ((1real - a) * e + a * x) == (1real - a) * ((q - e
            * e) + a * ((x - e) * (x - e))),
{
    let g = x - e;
    let (ee, eg, gg) = (e * e, e * g, g * g);
    let ag = a * g;
    lemma_square_of_sum(e, g);
    assert(x * x == ee + 2real * eg + gg);
    lemma_spread(e, 1real, a);
    lemma_spread(a, x, e);
    assert((1real - a) * e + a * x == e + ag);
    lemma_square_of_sum(e, ag);
    lemma_regroup(e, a, g);
    assert(e * ag == a * eg);
    lemma_regroup(ag, a, g);
    lemma_spread(ag, g, 0real);
    lemma_regroup(g, a, g);
    assert(ag * ag == a * (a * gg));
    lemma_spread(a, ee + 2real * eg, gg);
    lemma_spread(a, ee, 2real * eg);
    lemma_regroup(a, 2real, eg);
    lemma_spread(q, 1real, a);
    let inside = (q - ee) + a * gg;
    lemma_spread(inside, 1real, a);
    lemma_spread(a, q - ee, a * gg);
    lemma_spread(a, q, ee);
}

proof fn lemma_innovation(alpha: Double, x: Double, mean: Double, e: real, b: real, d: real)
    requires
        !invalid_alpha(alpha),
        b > 0real,
        within(real_of(x), b),
        within(real_of(mean), 2real * b),
        within(e, b),
        within(real_of(mean) - e, d),
        speck() <= portion(b),
        speck() <= portion(b * b),
        ({
            let inn = alpha.sqrt().times(x).minus(alpha.sqrt().times(mean));
            inn.times(inn).finite()
        }),
    ensures
        ({
            let inn = alpha.sqrt().times(x).minus(alpha.sqrt().times(mean));
            let q = inn.times(inn);
            &&& within(
                real_of(q) - real_of(alpha) * ((real_of(x) - e) * (real_of(x) - e)),
                portion(320real * (b * b)) + 5real * (b * d),
            )
            &&& within(real_of(q), 65real * (b * b))
        }),
{
    let scale = alpha.sqrt();
    let (p1, p2) = (scale.times(x), scale.times(mean));
    let inn = p1.minus(p2);
    let q = inn.times(inn);
    let unit = b * b;
    let (a, sc, rx, m, ri) = (real_of(alpha), real_of(scale), real_of(x), real_of(mean), real_of(inn));
    lemma_alpha(alpha);
    let z = zero();
    assert(z.code() == 0);
    lemma_zero_magnitude(z);
    lemma_simple_values();
    lemma_real_order(alpha, z);
    lemma_real_order(z, alpha);
    law_root_is_close(alpha);
    lemma_real_order(scale, z);
    lemma_speck();
    assert(within(sc, 2real)) by {
        if sc > 2real {
            lemma_grows(2real, sc, sc);
            lemma_spread(sc, 2real, 0real);
        }
    }
    lemma_factors_are_finite(inn, inn);
    lemma_neg_terms(p1, p2);
    lemma_within_product(sc, 2real, rx, b);
    lemma_within_product(sc, 2real, m, 2real * b);
    lemma_product_within(scale, x, 2real * b);
    lemma_product_within(scale, mean, 4real * b);
    lemma_difference_within(p1, p2, 7real * b);
    lemma_spread(sc, rx, m);
    let ideal = sc * (rx - m);
    assert(within(ri - ideal, portion(15real * b)));
    lemma_within_product(sc, 2real, rx - m, 3real * b);
    assert(within(ri, 8real * b));
    lemma_within_gap(ri, ri, ideal, ideal, portion(15real * b), 8real * b, 6real * b, portion(15real * b));
    assert(portion(15real * b) * (8real * b) + (6real * b) * portion(15real * b) == portion(210real * unit)) by {
        lemma_portion(b, 15real * b);
        lemma_regroup(b, 15real, b);
        let t = portion(15real * b);
        lemma_regroup(t, 8real, b);
        lemma_regroup(6real, b, t);
        lemma_spread(t, b, 0real);
        lemma_spread(b, t, 0real);
        assert(b * t == portion(15real * unit));
    }
    lemma_within_product(ri, 8real * b, ri, 8real * b);
    assert((8real * b) * (8real * b) == 64real * unit) by {
        lemma_regroup(8real * b, 8real, b);
        lemma_regroup(8real, b, b);
        lemma_spread(8real * b, b, 0real);
    }
    lemma_product_within(inn, inn, 64real * unit);
    let (g, h) = (rx - m, rx - e);
    lemma_within_gap(g, g, h, h, d, 3real * b, 2real * b, d);
    lemma_within_product(g, 3real * b, g, 3real * b);
    assert(d * (3real * b) + (2real * b) * d == 5real * (b * d)) by {
        lemma_regroup(d, 3real, b);
        lemma_regroup(2real, b, d);
        lemma_spread(d, b, 0real);
    }
    assert((3real * b) * (3real * b) == 9real * unit) by {
        lemma_regroup(3real * b, 3real, b);
        lemma_regroup(3real, b, b);
        lemma_spread(3real * b, b, 0real);
    }
    assert(ideal * ideal == (sc * sc) * (g * g)) by {
        lemma_regroup(sc * g, sc, g);
        lemma_regroup(sc, sc, g);
        lemma_regroup(sc * sc, g, g);
        lemma_spread(sc * g, sc, 0real);
    }
    lemma_spread(g * g, sc * sc, a);
    lemma_within_product(sc * sc - a, portion(4real), g * g, 9real * unit);
    lemma_portion(9real * unit, 4real);
    lemma_spread(9real * unit, portion(4real), 0real);
    lemma_spread(a, g * g, h * h);
    lemma_within_product(a, 1real, g * g - h * h, 5real * (b * d));
    lemma_spread(a, g * g, 0real);
}

proof fn lemma_neg_terms(a: Double, b: Double)
    requires
        a.minus(b).finite(),
    ensures
        a.finite(),
        b.finite(),
{
    crate::accuracy::law_difference_is_close(a, b);
}

proof fn lemma_variance_step(
    alpha: Double,
    var: Double,
    q: Double,
    exact: real,
    fresh: real,
    unit: real,
    far: real,
    n: real,
)
    requires
        !invalid_alpha(alpha),
        one().minus(alpha).finite(),
        unit > 0real,
        speck() <= portion(unit),
        0real <= exact <= unit,
        within(real_of(var) - exact, portion(far)),
        0real <= far <= 1000000000000000real * unit,
        within(real_of(q), 65real * unit),
        within(real_of(q) - fresh, portion(320real * unit + n)),
        one().minus(alpha).times(var).plus(one().minus(alpha).times(q)).finite(),
    ensures
        within(
            real_of(one().minus(alpha).times(var).plus(one().minus(alpha).times(q))) - (1real - real_of(alpha)) * (exact
                + fresh),
            portion(far + 700real * unit + n),
        ),
{
    let decay = one().minus(alpha);
    let (dv, dq) = (decay.times(var), decay.times(q));
    let a = real_of(alpha);
    let r = 1real - a;
    let (d, v, w) = (real_of(decay), real_of(var), real_of(q));
    lemma_alpha(alpha);
    lemma_simple_values();
    lemma_speck();
    lemma_terms_are_finite(dv, dq);
    lemma_difference_within(one(), alpha, 1real);
    assert(within(v, 2real * unit));
    lemma_within_gap(d, v, r, v, portion(1real), 2real * unit, 1real, 0real);
    lemma_portion(2real * unit, 1real);
    lemma_spread(2real * unit, portion(1real), 0real);
    lemma_within_gap(d, w, r, w, portion(1real), 65real * unit, 1real, 0real);
    lemma_portion(65real * unit, 1real);
    lemma_spread(65real * unit, portion(1real), 0real);
    lemma_within_product(d, 2real, v, 2real * unit);
    lemma_within_product(d, 2real, w, 65real * unit);
    lemma_product_within(decay, var, 4real * unit);
    lemma_product_within(decay, q, 130real * unit);
    lemma_sum_within(dv, dq, 140real * unit);
    lemma_spread(r, v, exact);
    lemma_spread(r, w, fresh);
    lemma_spread(r, exact, fresh);
    lemma_within_product(r, 1real, v - exact, portion(far));
    lemma_within_product(r, 1real, w - fresh, portion(320real * unit + n));
    lemma_spread(portion(far), 1real, 0real);
    lemma_spread(portion(320real * unit + n), 1real, 0real);
}

/// An exponentially weighted variance is close to the weighted variance of the values.
pub open spec fn near_weighted_variance(z: Seq<Double>, a: real, var: Double, b: real) -> bool {
    let n = z.len() as real;
    &&& var.finite()
    &&& within(real_of(var) - weighted_variance(values_of(z), a, z.len()), portion(900real * (n * (n * (b * b)))))
}

proof fn lemma_same_variance(z: Seq<Double>, x: Double, a: real)
    requires
        z.len() > 0,
    ensures
        weighted_variance(values_of(z), a, z.len()) == weighted_variance(values_of(z.push(x)), a, z.len()),
        weighted_mean(values_of(z), a, z.len()) == weighted_mean(values_of(z.push(x)), a, z.len()),
{
    let (us, vs) = (values_of(z.push(x)), values_of(z));
    let k = z.len();
    assert forall|i: int| 0 <= i < k implies #[trigger] vs[i] == us[i] by {
        assert(z.push(x)[i] == z[i]);
    }
    lemma_same_weighted(vs, us, a, (k - 1) as nat, k);
    let m = weighted_mean(us, a, k);
    assert forall|i: int| 0 <= i < k implies #[trigger] deviations(vs, m)[i] == deviations(us, m)[i] by {
        assert(vs[i] == us[i]);
    }
    lemma_same_weighted(deviations(vs, m), deviations(us, m), a, (k - 1) as nat, k);
}

proof fn lemma_no_decay(alpha: Double)
    requires
        !invalid_alpha(alpha),
        one().minus(alpha).same(zero()),
    ensures
        real_of(alpha) == 1real,
{
    let z = zero();
    let decay = one().minus(alpha);
    assert(z.code() == 0);
    lemma_zero_magnitude(z);
    lemma_alpha(alpha);
    lemma_simple_values();
    law_order_is_numeric(decay, z);
    lemma_real_order(decay, z);
    lemma_difference_within(one(), alpha, 1real);
    crate::errors::lemma_neg_value(alpha);
    crate::errors::lemma_plus_error(one(), alpha.neg());
    lemma_real_order(one(), alpha);
}

proof fn lemma_variance_stays_near(z: Seq<Double>, x: Double, s: OnlineEwVar, b: real)
    requires
        !invalid_alpha(s.alpha),
        0 < z.len() < 0x10_0000,
        s.n_seen == z.len(),
        near_weighted_mean(z, real_of(s.alpha), s.mean, b),
        near_weighted_variance(z, real_of(s.alpha), s.var, b),
        moderate(z.push(x), b),
        is_scale(b),
        s.observed(x, zero()) is Ok,
    ensures
        near_weighted_mean(z.push(x), real_of(s.alpha), s.observed(x, zero())->Ok_0.mean, b),
        near_weighted_variance(z.push(x), real_of(s.alpha), s.observed(x, zero())->Ok_0.var, b),
{
    let next = s.observed(x, zero())->Ok_0;
    let a = real_of(s.alpha);
    let k = z.len();
    let n = k as real;
    let unit = b * b;
    let us = values_of(z.push(x));
    let decay = one().minus(s.alpha);
    lemma_alpha(s.alpha);
    lemma_speck();
    lemma_product_sign(b, b);
    lemma_powers_of_count(k, unit);
    assert(z.push(x)[k as int] == x);
    assert(us[k as int] == real_of(x));
    assert forall|i: int| 0 <= i < k + 1 implies within(#[trigger] us[i], b) by {
        assert(z.push(x)[i].finite());
    }
    lemma_same_variance(z, x, a);
    law_weighted_variance_steps(us, a, k + 1, b);
    law_weighted_variance_steps(us, a, k, b);
    law_weighted_mean_steps(us, a, k + 1);
    let e = weighted_mean(us, a, k);
    let v = weighted_variance(us, a, k);
    if decay.same(zero()) {
        lemma_no_decay(s.alpha);
        lemma_spread(e, 0real, 0real);
        lemma_spread(real_of(x), 1real, 0real);
        lemma_simple_values();
        let gap = real_of(x) - e;
        lemma_spread(v + a * (gap * gap), 0real, 0real);
        lemma_grows(0real, (k + 1) as real, b);
        lemma_spread(b, 0real, 0real);
        assert(x.finite());
        let none = zero();
        assert(none.code() == 0);
    } else {
        let scale = s.alpha.sqrt();
        let inn = scale.times(x).minus(scale.times(s.mean));
        let q = inn.times(inn);
        let gap = real_of(x) - e;
        lemma_mean_stays_near(z, x, s.alpha, s.mean, b);
        lemma_terms_are_finite(decay.times(s.var), decay.times(q));
        lemma_factors_are_finite(decay, q);
        lemma_innovation(s.alpha, x, s.mean, e, b, portion(20real * (n * b)));
        assert(5real * (b * portion(20real * (n * b))) == portion(100real * (n * unit))) by {
            lemma_portion(b, 20real * (n * b));
            lemma_regroup(b, 20real, n * b);
            lemma_regroup(b, n, b);
        }
        lemma_variance_step(
            s.alpha,
            s.var,
            q,
            v,
            a * (gap * gap),
            unit,
            900real * (n * (n * unit)),
            100real * (n * unit),
        );
    }
}

proof fn lemma_weighted_variance_state(alpha: Double, values: Seq<(Double, Double)>, b: real)
    requires
        !invalid_alpha(alpha),
        0 < values.len() <= 0x10_0000,
        observe_all(OnlineEwVar::empty(alpha), values) is Ok,
        moderate(observations(values), b),
        is_scale(b),
    ensures
        ({
            let s = observe_all(OnlineEwVar::empty(alpha), values)->Ok_0;
            &&& s.n_seen == values.len()
            &&& s.alpha == alpha
            &&& near_weighted_mean(observations(values), real_of(alpha), s.mean, b)
            &&& near_weighted_variance(observations(values), real_of(alpha), s.var, b)
        }),
    decreases values.len(),
{
    let earlier = values.drop_last();
    let z = observations(values);
    let was = observations(earlier);
    let x = values.last().0;
    assert(z =~= was.push(x));
    assert(z[was.len() as int] == x);
    lemma_alpha(alpha);
    if values.len() == 1 {
        assert(earlier =~= Seq::empty());
        assert(observe_all(OnlineEwVar::empty(alpha), earlier) == Ok::<OnlineEwVar, crate::quality::IssueCode>(
            OnlineEwVar::empty(alpha),
        ));
        assert(z =~= seq![x]);
        lemma_first_is_near(x, real_of(alpha), b);
        let us = values_of(z);
        assert(within(us[0], b));
        law_weighted_variance_steps(us, real_of(alpha), 1, b);
        lemma_simple_values();
        lemma_product_sign(b, b);
        lemma_powers_of_count(1, b * b);
        let none = zero();
        assert(none.code() == 0);
    } else {
        assert(moderate(was, b)) by {
            assert forall|i: int| 0 <= i < was.len() implies (#[trigger] was[i]).finite() && within(real_of(was[i]), b) by {
                assert(z[i] == was[i]);
            }
        }
        lemma_weighted_variance_state(alpha, earlier, b);
        let s = observe_all(OnlineEwVar::empty(alpha), earlier)->Ok_0;
        assert(s.observed(x, values.last().1) == s.observed(x, zero()));
        lemma_variance_stays_near(was, x, s, b);
    }
}

/// The exponentially weighted variance is the weighted variance of all accepted
/// observations, up to `900 n^2` parts in `2^52` of the square of their size: the weighted
/// sum of the squares of their deviations from the weighted mean.
pub proof fn law_weighted_variance_is_the_variance(
    alpha: Double,
    batches: Seq<(Matrix, Option<Seq<Double>>)>,
    b: real,
)
    requires
        !invalid_alpha(alpha),
        2 <= stream(OnlineEwVar::empty(alpha), batches).len() <= 0x10_0000,
        moderate(observations(stream(OnlineEwVar::empty(alpha), batches)), b),
        is_scale(b),
    ensures
        ({
            let s = history(OnlineEwVar::empty(alpha), batches);
            let z = observations(stream(OnlineEwVar::empty(alpha), batches));
            let n = z.len() as real;
            let values = values_of(z);
            &&& s.level().finite()
            &&& within(real_of(s.mean) - weighted_mean(values, real_of(alpha), z.len()), portion(20real * (n * b)))
            &&& within(
                real_of(s.level()) - weighted_variance(values, real_of(alpha), z.len()),
                portion(900real * (n * (n * (b * b)))),
            )
        }),
{
    let values = stream(OnlineEwVar::empty(alpha), batches);
    law_history_is_a_stream(OnlineEwVar::empty(alpha), batches);
    lemma_weighted_variance_state(alpha, values, b);
}

} // verus!
