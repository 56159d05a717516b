//! What the scores of the streaming moments are: arithmetic means, sample variances and
//! sample covariances of all accepted observations, up to rounding.

use crate::accuracy::{
    law_quotient_is_close, law_root_is_close, lemma_abs_product, lemma_portion, lemma_speck, lemma_sum_within,
    lemma_within_product, portion, speck, within,
};
use crate::data::Matrix;
use crate::double::{law_order_is_numeric, lemma_zero_magnitude, zero, Double};
use crate::online::accumulator::{history, law_history_is_a_stream, lemma_seen, observe_all, stream, Accumulator};
use crate::online::autocorrelation::{law_score_after_any_batches, observations, OnlineAutoCorr};
use crate::online::common::{autocorrelation_from_moments, sample_variance};
use crate::online::least_squares::{
    abs_real, lemma_product_sign, lemma_real_order, lemma_regroup, lemma_simple_values, lemma_spread, real_of,
};
use crate::online::mean_accuracy::{
    bounded, law_running_mean_is_close, mean_of, means_are_finite, total_of,
};
use crate::online::moment_accuracy::{
    co_moment, is_scale, lemma_compensated_step, lemma_pair_keeps_near, lemma_powers_of_count, lemma_score_is_close,
    near_co_moment,
};
use crate::online::moments::{OnlineCovariance, OnlineMean, OnlineSum, OnlineVar};
use crate::online::spread::{lemma_mean_of_prefix, running_mean};
use crate::online::variance_threshold::{variance_value, ColumnMoments};
use vstd::prelude::*;

verus! {

/// The second members of some pairs.
pub open spec fn partners(values: Seq<(Double, Double)>) -> Seq<Double> {
    Seq::new(values.len(), |i: int| values[i].1)
}

/// Finite numbers of at most `b`.
pub open spec fn moderate(values: Seq<Double>, b: real) -> bool {
    forall|i: int| 0 <= i < values.len() ==> (#[trigger] values[i]).finite() && within(real_of(values[i]), b)
}

proof fn lemma_moderate_prefix(values: Seq<Double>, v: Double, b: real)
    requires
        moderate(values.push(v), b),
    ensures
        moderate(values, b),
        v.finite(),
        bounded(values.push(v), values.len() + 1, b),
        bounded(values, values.len(), b),
{
    let more = values.push(v);
    assert(more[values.len() as int] == v);
    assert forall|i: int| 0 <= i < values.len() implies (#[trigger] values[i]).finite() && within(real_of(values[i]), b) by {
        assert(more[i] == values[i]);
    }
}

proof fn lemma_means_push(values: Seq<Double>, v: Double)
    requires
        means_are_finite(values, values.len()),
        running_mean(values.push(v), values.len() + 1).finite(),
    ensures
        means_are_finite(values.push(v), values.len() + 1),
        values.len() > 0 ==> running_mean(values.push(v), values.len()) == running_mean(values, values.len()),
{
    let more = values.push(v);
    assert forall|j: nat| 1 <= j <= values.len() + 1 implies (#[trigger] running_mean(more, j)).finite() by {
        if j <= values.len() {
            assert(values.take(j as int) =~= more.take(j as int));
            lemma_mean_of_prefix(values, more, j);
            assert(running_mean(values, j).finite());
        }
    }
    if values.len() > 0 {
        assert(values.take(values.len() as int) =~= more.take(values.len() as int));
        lemma_mean_of_prefix(values, more, values.len());
    }
}

proof fn lemma_observations_push(values: Seq<(Double, Double)>)
    requires
        values.len() > 0,
    ensures
        observations(values) == observations(values.drop_last()).push(values.last().0),
        partners(values) == partners(values.drop_last()).push(values.last().1),
        observations(values.drop_last()).len() == values.len() - 1,
        partners(values.drop_last()).len() == values.len() - 1,
{
    assert(observations(values) =~= observations(values.drop_last()).push(values.last().0));
    assert(partners(values) =~= partners(values.drop_last()).push(values.last().1));
}

proof fn lemma_nothing_near(b: real)
    requires
        is_scale(b),
    ensures
        near_co_moment(Seq::empty(), Seq::empty(), zero(), zero(), b),
{
    let z = zero();
    let unit = b * b;
    assert(z.code() == 0);
    crate::double::lemma_plus_zero(z, z);
    lemma_simple_values();
    lemma_product_sign(b, b);
    lemma_spread(unit, 0real, 0real);
    lemma_spread(0real * unit, 0real, 0real);
}

proof fn lemma_mean_state(values: Seq<(Double, Double)>)
    requires
        values.len() <= 0x100_0000_0000,
        observe_all(OnlineMean::empty(), values) is Ok,
    ensures
        ({
            let s = observe_all(OnlineMean::empty(), values)->Ok_0;
            let z = observations(values);
            &&& s.n == z.len()
            &&& means_are_finite(z, z.len())
            &&& z.len() > 0 ==> s.mean == running_mean(z, z.len())
        }),
    decreases values.len(),
{
    if values.len() > 0 {
        let earlier = values.drop_last();
        lemma_mean_state(earlier);
        lemma_observations_push(values);
        let was = observations(earlier);
        let v = values.last().0;
        let s = observe_all(OnlineMean::empty(), earlier)->Ok_0;
        let more = was.push(v);
        if was.len() > 0 {
            assert(was.take(was.len() as int) =~= more.take(was.len() as int));
            lemma_mean_of_prefix(was, more, was.len());
            assert(more[was.len() as int] == v);
        } else {
            assert(more[0] == v);
        }
        lemma_means_push(was, v);
    }
}

/// The mean is the arithmetic mean of all accepted observations, up to `40 n` parts in
/// `2^52` of their size, whatever batches brought them.
pub proof fn law_mean_is_the_mean(batches: Seq<(Matrix, Option<Seq<Double>>)>, b: real)
    requires
        0 < stream(OnlineMean::empty(), batches).len() <= 0x100_0000_0000,
        moderate(observations(stream(OnlineMean::empty(), batches)), b),
        speck() <= portion(b),
    ensures
        ({
            let s = history(OnlineMean::empty(), batches);
            let z = observations(stream(OnlineMean::empty(), batches));
            &&& s.level().finite()
            &&& within(real_of(s.level()) - mean_of(z, z.len()), portion((z.len() as real) * (40real * b)))
        }),
{
    let values = stream(OnlineMean::empty(), batches);
    let z = observations(values);
    law_history_is_a_stream(OnlineMean::empty(), batches);
    lemma_mean_state(values);
    assert(running_mean(z, z.len()).finite());
    law_running_mean_is_close(z, z.len(), b);
}

proof fn lemma_covariance_state(values: Seq<(Double, Double)>, b: real)
    requires
        values.len() <= 0x10_0000,
        observe_all(OnlineCovariance::empty(), values) is Ok,
        moderate(observations(values), b),
        moderate(partners(values), b),
        is_scale(b),
    ensures
        ({
            let s = observe_all(OnlineCovariance::empty(), values)->Ok_0;
            let (x, y) = (observations(values), partners(values));
            &&& s.n == x.len()
            &&& means_are_finite(x, x.len())
            &&& means_are_finite(y, y.len())
            &&& x.len() > 0 ==> s.mean_x == running_mean(x, x.len()) && s.mean_y == running_mean(y, y.len())
            &&& near_co_moment(x, y, s.cross, s.cross_compensation, b)
        }),
    decreases values.len(),
{
    if values.len() == 0 {
        assert(observations(values) =~= Seq::empty());
        assert(partners(values) =~= Seq::empty());
        lemma_nothing_near(b);
    } else {
        let earlier = values.drop_last();
        lemma_observations_push(values);
        let (x, y) = (observations(earlier), partners(earlier));
        let (u, v) = values.last();
        lemma_moderate_prefix(x, u, b);
        lemma_moderate_prefix(y, v, b);
        lemma_covariance_state(earlier, b);
        let s = observe_all(OnlineCovariance::empty(), earlier)->Ok_0;
        let (us, vs) = (x.push(u), y.push(v));
        assert(us[x.len() as int] == u && vs[y.len() as int] == v);
        if x.len() > 0 {
            assert(x.take(x.len() as int) =~= us.take(x.len() as int));
            assert(y.take(y.len() as int) =~= vs.take(y.len() as int));
            lemma_mean_of_prefix(x, us, x.len());
            lemma_mean_of_prefix(y, vs, y.len());
        }
        lemma_means_push(x, u);
        lemma_means_push(y, v);
        lemma_pair_keeps_near(x, y, s.cross, s.cross_compensation, u, v, b);
    }
}

/// The covariance is the sample covariance of all accepted pairs: times one less than
/// their number it is the sum of the products of their deviations from the two means, up
/// to `600 n^2` parts in `2^52` of the square of their size.
pub proof fn law_covariance_is_the_covariance(batches: Seq<(Matrix, Option<Seq<Double>>)>, b: real)
    requires
        2 <= stream(OnlineCovariance::empty(), batches).len() <= 0x10_0000,
        moderate(observations(stream(OnlineCovariance::empty(), batches)), b),
        moderate(partners(stream(OnlineCovariance::empty(), batches)), b),
        is_scale(b),
    ensures
        ({
            let s = history(OnlineCovariance::empty(), batches);
            let pairs = stream(OnlineCovariance::empty(), batches);
            let n = pairs.len() as real;
            &&& s.level().finite()
            &&& within(
                real_of(s.level()) * (n - 1real) - co_moment(observations(pairs), partners(pairs), pairs.len()),
                portion(600real * (n * (n * (b * b)))),
            )
        }),
{
    let pairs = stream(OnlineCovariance::empty(), batches);
    law_history_is_a_stream(OnlineCovariance::empty(), batches);
    lemma_covariance_state(pairs, b);
    let s = history(OnlineCovariance::empty(), batches);
    lemma_score_is_close(observations(pairs), partners(pairs), s.cross, s.cross_compensation, b);
}

proof fn lemma_variance_state(values: Seq<(Double, Double)>, b: real)
    requires
        values.len() <= 0x10_0000,
        observe_all(OnlineVar::empty(), values) is Ok,
        moderate(observations(values), b),
        is_scale(b),
    ensures
        ({
            let s = observe_all(OnlineVar::empty(), values)->Ok_0;
            let x = observations(values);
            &&& s.n == x.len()
            &&& means_are_finite(x, x.len())
            &&& x.len() > 0 ==> s.mean == running_mean(x, x.len())
            &&& near_co_moment(x, x, s.m2, s.m2_compensation, b)
        }),
    decreases values.len(),
{
    if values.len() == 0 {
        assert(observations(values) =~= Seq::empty());
        lemma_nothing_near(b);
    } else {
        let earlier = values.drop_last();
        lemma_observations_push(values);
        let x = observations(earlier);
        let u = values.last().0;
        lemma_moderate_prefix(x, u, b);
        lemma_variance_state(earlier, b);
        let s = observe_all(OnlineVar::empty(), earlier)->Ok_0;
        let us = x.push(u);
        assert(us[x.len() as int] == u);
        if x.len() > 0 {
            assert(x.take(x.len() as int) =~= us.take(x.len() as int));
            lemma_mean_of_prefix(x, us, x.len());
        }
        lemma_means_push(x, u);
        lemma_pair_keeps_near(x, x, s.m2, s.m2_compensation, u, u, b);
    }
}

/// The variance is the sample variance of all accepted observations: times one less than
/// their number it is the sum of the squares of their deviations from the mean, up to
/// `600 n^2` parts in `2^52` of the square of their size.
pub proof fn law_variance_is_the_variance(batches: Seq<(Matrix, Option<Seq<Double>>)>, b: real)
    requires
        2 <= stream(OnlineVar::empty(), batches).len() <= 0x10_0000,
        moderate(observations(stream(OnlineVar::empty(), batches)), b),
        is_scale(b),
    ensures
        ({
            let s = history(OnlineVar::empty(), batches);
            let z = observations(stream(OnlineVar::empty(), batches));
            let n = z.len() as real;
            &&& s.level().finite()
            &&& within(
                real_of(s.level()) * (n - 1real) - co_moment(z, z, z.len()),
                portion(600real * (n * (n * (b * b)))),
            )
        }),
{
    let values = stream(OnlineVar::empty(), batches);
    law_history_is_a_stream(OnlineVar::empty(), batches);
    lemma_variance_state(values, b);
    let s = history(OnlineVar::empty(), batches);
    let z = observations(values);
    lemma_score_is_close(z, z, s.m2, s.m2_compensation, b);
}

proof fn lemma_prefix_mean(x: Seq<Double>, u: Double)
    ensures
        x.len() > 0 ==> running_mean(x.push(u), x.len()) == running_mean(x, x.len()),
        x.push(u)[x.len() as int] == u,
{
    let us = x.push(u);
    if x.len() > 0 {
        assert(x.take(x.len() as int) =~= us.take(x.len() as int));
        lemma_mean_of_prefix(x, us, x.len());
    }
}

/// The earlier and the later members of the pairs of neighbours.
pub open spec fn earlier_of(z: Seq<Double>) -> Seq<Double> {
    z.drop_last()
}

/// The later members of the pairs of neighbours.
pub open spec fn later_of(z: Seq<Double>) -> Seq<Double> {
    z.skip(1)
}

/// The moments of a lag-one correlation are close to those of the pairs of neighbours.
pub open spec fn near_neighbours(s: OnlineAutoCorr, z: Seq<Double>, b: real) -> bool {
    let (lag, cur) = (earlier_of(z), later_of(z));
    &&& near_co_moment(lag, cur, s.cross, s.cross_compensation, b)
    &&& near_co_moment(lag, lag, s.lagged_m2, s.lagged_m2_compensation, b)
    &&& near_co_moment(cur, cur, s.current_m2, s.current_m2_compensation, b)
}

proof fn lemma_neighbour_state(values: Seq<(Double, Double)>, b: real)
    requires
        0 < values.len() <= 0x10_0000,
        observe_all(OnlineAutoCorr::empty(), values) is Ok,
        moderate(observations(values), b),
        is_scale(b),
    ensures
        ({
            let s = observe_all(OnlineAutoCorr::empty(), values)->Ok_0;
            let z = observations(values);
            let (lag, cur) = (earlier_of(z), later_of(z));
            &&& s.n == z.len()
            &&& s.last == Some(z.last())
            &&& means_are_finite(lag, lag.len())
            &&& means_are_finite(cur, cur.len())
            &&& lag.len() > 0 ==> s.mean_lagged == running_mean(lag, lag.len()) && s.mean_current == running_mean(
                cur,
                cur.len(),
            )
            &&& near_neighbours(s, z, b)
        }),
    decreases values.len(),
{
    let earlier = values.drop_last();
    let z = observations(values);
    let v = values.last().0;
    lemma_observations_push(values);
    lemma_seen(OnlineAutoCorr::empty(), values);
    lemma_seen(OnlineAutoCorr::empty(), earlier);
    if values.len() == 1 {
        assert(earlier =~= Seq::empty());
        assert(observe_all(OnlineAutoCorr::empty(), earlier) == Ok::<OnlineAutoCorr, crate::quality::IssueCode>(
            OnlineAutoCorr::empty(),
        ));
        assert(earlier_of(z) =~= Seq::empty());
        assert(later_of(z) =~= Seq::empty());
        lemma_nothing_near(b);
    } else {
        let was = observations(earlier);
        let u = was.last();
        lemma_moderate_prefix(was, v, b);
        lemma_neighbour_state(earlier, b);
        let s = observe_all(OnlineAutoCorr::empty(), earlier)->Ok_0;
        let (lag, cur) = (earlier_of(was), later_of(was));
        assert(earlier_of(z) =~= lag.push(u));
        assert(later_of(z) =~= cur.push(v));
        assert(moderate(lag.push(u), b)) by {
            assert forall|i: int| 0 <= i < lag.push(u).len() implies (#[trigger] lag.push(u)[i]).finite() && within(
                real_of(lag.push(u)[i]),
                b,
            ) by {
                assert(lag.push(u)[i] == z[i]);
            }
        }
        assert(moderate(cur.push(v), b)) by {
            assert forall|i: int| 0 <= i < cur.push(v).len() implies (#[trigger] cur.push(v)[i]).finite() && within(
                real_of(cur.push(v)[i]),
                b,
            ) by {
                assert(cur.push(v)[i] == z[i + 1]);
            }
        }
        lemma_moderate_prefix(lag, u, b);
        lemma_moderate_prefix(cur, v, b);
        lemma_prefix_mean(lag, u);
        lemma_prefix_mean(cur, v);
        lemma_means_push(lag, u);
        lemma_means_push(cur, v);
        lemma_pair_keeps_near(lag, cur, s.cross, s.cross_compensation, u, v, b);
        lemma_pair_keeps_near(lag, lag, s.lagged_m2, s.lagged_m2_compensation, u, u, b);
        lemma_pair_keeps_near(cur, cur, s.current_m2, s.current_m2_compensation, v, v, b);
    }
}

/// A correlation times the roots of both second moments is the co-moment, up to three
/// parts in `2^52` and a few of the smallest units; and it has the sign of the co-moment.
pub proof fn law_correlation_is_a_ratio(cross: Double, left: Double, right: Double)
    requires
        cross.finite(),
        left.finite(),
        right.finite(),
        left.value() > 0,
        right.value() > 0,
        autocorrelation_from_moments(cross, left, right).finite(),
    ensures
        ({
            let score = autocorrelation_from_moments(cross, left, right);
            let (l, r) = (real_of(left.sqrt()), real_of(right.sqrt()));
            &&& within(
                real_of(score) * (l * r) - real_of(cross),
                portion(3real * abs_real(real_of(cross))) + speck() * (l * r + 2real * l + 2real * r),
            )
            &&& score.negative() == cross.negative()
            &&& within(l * l - real_of(left), portion(4real * real_of(left)))
            &&& within(r * r - real_of(right), portion(4real * real_of(right)))
            &&& l > 0real
            &&& r > 0real
        }),
{
    let z = zero();
    assert(z.code() == 0);
    lemma_zero_magnitude(z);
    lemma_simple_values();
    law_order_is_numeric(left, z);
    law_order_is_numeric(right, z);
    law_root_is_close(left);
    law_root_is_close(right);
    lemma_real_order(left.sqrt(), z);
    lemma_real_order(right.sqrt(), z);
    let (ls, rs) = (left.sqrt(), right.sqrt());
    let (l, r) = (real_of(ls), real_of(rs));
    if ls.le(rs) {
        lemma_double_quotient(cross, ls, rs);
    } else {
        lemma_double_quotient(cross, rs, ls);
        lemma_spread(l, r, 0real);
    }
}

proof fn lemma_quotient_parts(a: Double, b: Double)
    requires
        a.over(b).finite(),
        b.finite(),
        b.value() > 0,
    ensures
        a.finite(),
        a.over(b).negative() == a.negative(),
{
    reveal(Double::spec_over);
    lemma_zero_magnitude(b);
}

proof fn lemma_double_quotient(c: Double, first: Double, second: Double)
    requires
        c.finite(),
        first.finite(),
        second.finite(),
        first.value() > 0,
        second.value() > 0,
        real_of(first) > 0real,
        real_of(second) > 0real,
        c.over(first).over(second).finite(),
    ensures
        within(
            real_of(c.over(first).over(second)) * (real_of(first) * real_of(second)) - real_of(c),
            portion(3real * abs_real(real_of(c))) + speck() * (real_of(first) * real_of(second) + 2real * real_of(first)
                + 2real * real_of(second)),
        ),
        c.over(first).over(second).negative() == c.negative(),
{
    let q = c.over(first);
    let t = q.over(second);
    let (rc, p, r, rq, rt) = (real_of(c), real_of(first), real_of(second), real_of(q), real_of(t));
    lemma_quotient_parts(q, second);
    lemma_quotient_parts(c, first);
    law_quotient_is_close(c, first);
    law_quotient_is_close(q, second);
    lemma_speck();
    let miss = rt * r - rq;
    lemma_within_product(miss, portion(abs_real(rq)) + speck() * r, p, p);
    lemma_spread(p, rt * r, rq);
    lemma_regroup(p, rt, r);
    lemma_regroup(rt, p, r);
    lemma_spread(p, r, 0real);
    lemma_spread(p, portion(abs_real(rq)), speck() * r);
    lemma_portion(p, abs_real(rq));
    lemma_abs_product(rq, p);
    lemma_regroup(p, speck(), r);
    lemma_spread(speck(), p * r, 2real * p + 2real * r);
    lemma_spread(speck(), 2real * p, 2real * r);
    lemma_regroup(speck(), 2real, p);
    lemma_regroup(speck(), 2real, r);
    lemma_product_sign(speck(), p);
    lemma_product_sign(speck(), r);
    lemma_spread(p, abs_real(rq), 0real);
    assert(p * miss == rt * (p * r) - rq * p);
    assert(abs_real(rq * p) == p * abs_real(rq));
    assert(within(rq * p - rc, portion(abs_real(rc)) + speck() * p));
    assert(p * abs_real(rq) <= 2real * abs_real(rc) + speck() * p);
    assert((portion(abs_real(rq)) + speck() * r) * p == portion(p * abs_real(rq)) + speck() * (p * r));
    lemma_within_product(p, p, miss, portion(abs_real(rq)) + speck() * r);
}

/// The lag-one correlation is that of the pairs of neighbours. Times the roots of two
/// second moments it is a co-moment, up to rounding; and these three are, up to rounding,
/// the sums of squares of the observations without the last and of those without the
/// first, and the co-moment of the two. It is negative exactly where the co-moment is.
pub proof fn law_score_is_the_correlation(batches: Seq<(Matrix, Option<Seq<Double>>)>, b: real) -> (r: (
    Double,
    Double,
    Double,
))
    requires
        3 <= stream(OnlineAutoCorr::empty(), batches).len() <= 0x10_0000,
        moderate(observations(stream(OnlineAutoCorr::empty(), batches)), b),
        is_scale(b),
        !history(OnlineAutoCorr::empty(), batches).level().is_nan(),
    ensures
        ({
            let score = history(OnlineAutoCorr::empty(), batches).level();
            let z = observations(stream(OnlineAutoCorr::empty(), batches));
            let (lag, cur) = (earlier_of(z), later_of(z));
            let n = lag.len() as real;
            let off = portion(600real * (n * (n * (b * b))));
            let (cross, left, right) = r;
            let (u, v) = (real_of(left.sqrt()), real_of(right.sqrt()));
            &&& score.finite()
            &&& within(real_of(cross) - co_moment(lag, cur, lag.len()), off)
            &&& within(real_of(left) - co_moment(lag, lag, lag.len()), off)
            &&& within(real_of(right) - co_moment(cur, cur, cur.len()), off)
            &&& within(
                real_of(score) * (u * v) - real_of(cross),
                portion(3real * abs_real(real_of(cross))) + speck() * (u * v + 2real * u + 2real * v),
            )
            &&& within(u * u - real_of(left), portion(4real * real_of(left)))
            &&& within(v * v - real_of(right), portion(4real * real_of(right)))
            &&& score.negative() == cross.negative()
            &&& co_moment(lag, cur, lag.len()) < -off ==> score.negative()
            &&& co_moment(lag, cur, lag.len()) > off ==> !score.negative()
        }),
{
    let values = stream(OnlineAutoCorr::empty(), batches);
    let s = history(OnlineAutoCorr::empty(), batches);
    let z = observations(values);
    let (lag, cur) = (earlier_of(z), later_of(z));
    law_history_is_a_stream(OnlineAutoCorr::empty(), batches);
    law_score_after_any_batches(batches);
    lemma_neighbour_state(values, b);
    let cross = s.cross.plus(s.cross_compensation);
    let left = s.lagged_m2.plus(s.lagged_m2_compensation);
    let right = s.current_m2.plus(s.current_m2_compensation);
    lemma_total_is_close(lag, cur, s.cross, s.cross_compensation, b);
    lemma_total_is_close(lag, lag, s.lagged_m2, s.lagged_m2_compensation, b);
    lemma_total_is_close(cur, cur, s.current_m2, s.current_m2_compensation, b);
    let none = zero();
    assert(none.code() == 0);
    lemma_zero_magnitude(none);
    lemma_zero_magnitude(cross);
    law_order_is_numeric(left, none);
    law_order_is_numeric(right, none);
    law_correlation_is_a_ratio(cross, left, right);
    lemma_simple_values();
    lemma_real_order(cross, none);
    lemma_real_order(none, cross);
    (cross, left, right)
}

proof fn lemma_total_is_close(xs: Seq<Double>, ys: Seq<Double>, sum: Double, compensation: Double, b: real)
    requires
        is_scale(b),
        0 < xs.len() == ys.len() <= 0x10_0000,
        near_co_moment(xs, ys, sum, compensation, b),
    ensures
        sum.plus(compensation).finite(),
        within(
            real_of(sum.plus(compensation)) - co_moment(xs, ys, xs.len()),
            portion(600real * ((xs.len() as real) * ((xs.len() as real) * (b * b)))),
        ),
{
    lemma_product_sign(b, b);
    lemma_powers_of_count(xs.len(), b * b);
    lemma_sum_within(sum, compensation, 21real * ((xs.len() as real) * (b * b)));
}

proof fn lemma_sum_state(values: Seq<(Double, Double)>, b: real)
    requires
        values.len() <= 0x10_0000,
        observe_all(OnlineSum::empty(), values) is Ok,
        moderate(observations(values), b),
        b >= 0real,
    ensures
        ({
            let s = observe_all(OnlineSum::empty(), values)->Ok_0;
            let z = observations(values);
            let n = z.len() as real;
            &&& s.n == z.len()
            &&& s.sum.plus(s.compensation).finite()
            &&& within(real_of(s.sum), 2real * (n * b))
            &&& within(real_of(s.compensation), portion(20real * (n * (n * b))))
            &&& within(real_of(s.sum) + real_of(s.compensation) - total_of(z, z.len()), portion(20real * (n * (n * b))))
        }),
    decreases values.len(),
{
    if values.len() == 0 {
        let z = zero();
        assert(z.code() == 0);
        crate::double::lemma_plus_zero(z, z);
        lemma_simple_values();
        lemma_spread(b, 0real, 0real);
        lemma_spread(0real * b, 0real, 0real);
    } else {
        let earlier = values.drop_last();
        lemma_observations_push(values);
        let x = observations(earlier);
        let u = values.last().0;
        lemma_moderate_prefix(x, u, b);
        lemma_sum_state(earlier, b);
        let s = observe_all(OnlineSum::empty(), earlier)->Ok_0;
        let n = x.len() as real;
        let us = x.push(u);
        assert(us[x.len() as int] == u);
        assert(within(real_of(u), b));
        lemma_powers_of_count(x.len(), b);
        crate::online::moment_accuracy::lemma_same_total(x, us, x.len());
        lemma_compensated_step(s.sum, s.compensation, u, 2real * (n * b) + b, portion(20real * (n * (n * b))));
    }
}

/// The sum is the sum of all accepted observations, up to `30 n^2` parts in `2^52` of
/// their size.
pub proof fn law_sum_is_the_sum(batches: Seq<(Matrix, Option<Seq<Double>>)>, b: real)
    requires
        stream(OnlineSum::empty(), batches).len() <= 0x10_0000,
        moderate(observations(stream(OnlineSum::empty(), batches)), b),
        b >= 0real,
    ensures
        ({
            let s = history(OnlineSum::empty(), batches);
            let z = observations(stream(OnlineSum::empty(), batches));
            let n = z.len() as real;
            &&& s.level().finite()
            &&& within(real_of(s.level()) - total_of(z, z.len()), portion(30real * (n * (n * b))))
        }),
{
    let values = stream(OnlineSum::empty(), batches);
    let s = history(OnlineSum::empty(), batches);
    let z = observations(values);
    law_history_is_a_stream(OnlineSum::empty(), batches);
    lemma_sum_state(values, b);
    let t = observe_all(OnlineSum::empty(), values)->Ok_0;
    assert(s.sum == t.sum && s.compensation == t.compensation);
    lemma_sum_total(s.sum, s.compensation, total_of(z, z.len()), z.len(), b);
}

proof fn lemma_sum_total(sum: Double, compensation: Double, total: real, k: nat, b: real)
    requires
        k <= 0x10_0000,
        b >= 0real,
        sum.plus(compensation).finite(),
        within(real_of(sum), 2real * ((k as real) * b)),
        within(real_of(compensation), portion(20real * ((k as real) * ((k as real) * b)))),
        within(real_of(sum) + real_of(compensation) - total, portion(20real * ((k as real) * ((k as real) * b)))),
    ensures
        within(real_of(sum.plus(compensation)) - total, portion(30real * ((k as real) * ((k as real) * b)))),
{
    let n = k as real;
    lemma_powers_of_count(k, b);
    if k == 0 {
        lemma_spread(b, 0real, 0real);
        lemma_spread(0real * b, 0real, 0real);
    }
    lemma_sum_within(sum, compensation, 3real * (n * b));
}

proof fn lemma_column_state(values: Seq<Double>, b: real)
    requires
        values.len() <= 0x10_0000,
        ColumnMoments::fresh().over(values) is Ok,
        moderate(values, b),
        is_scale(b),
    ensures
        ({
            let s = ColumnMoments::fresh().over(values)->Ok_0;
            &&& s.n == values.len()
            &&& means_are_finite(values, values.len())
            &&& values.len() > 0 ==> s.mean == running_mean(values, values.len())
            &&& near_co_moment(values, values, s.m2, s.m2_compensation, b)
        }),
    decreases values.len(),
{
    if values.len() == 0 {
        assert(values =~= Seq::empty());
        lemma_nothing_near(b);
    } else {
        let x = values.drop_last();
        let u = values.last();
        assert(values =~= x.push(u));
        lemma_moderate_prefix(x, u, b);
        lemma_column_state(x, b);
        let s = ColumnMoments::fresh().over(x)->Ok_0;
        lemma_prefix_mean(x, u);
        lemma_means_push(x, u);
        lemma_pair_keeps_near(x, x, s.m2, s.m2_compensation, u, u, b);
    }
}

/// The variance that decides whether a column is kept is the sample variance of its whole
/// accepted history, up to `600 n^2` parts in `2^52` of the square of its size.
pub proof fn law_column_variance_is_the_variance(values: Seq<Double>, b: real)
    requires
        2 <= values.len() <= 0x10_0000,
        ColumnMoments::fresh().over(values) is Ok,
        moderate(values, b),
        is_scale(b),
        ({
            let m = ColumnMoments::fresh().over(values)->Ok_0;
            sample_variance(m.n, m.m2, m.m2_compensation) is Ok
        }),
    ensures
        ({
            let m = ColumnMoments::fresh().over(values)->Ok_0;
            let n = values.len() as real;
            let variance = variance_value(m.n, m.m2, m.m2_compensation);
            &&& variance.finite()
            &&& within(
                real_of(variance) * (n - 1real) - co_moment(values, values, values.len()),
                portion(600real * (n * (n * (b * b)))),
            )
        }),
{
    let m = ColumnMoments::fresh().over(values)->Ok_0;
    lemma_column_state(values, b);
    lemma_score_is_close(values, values, m.m2, m.m2_compensation, b);
}

} // verus!
