//! What recursive least squares solves: the weighted least-squares problem of all rows
//! taken in, a row counting `lambda` times as much as the next.

use crate::accuracy::{law_difference_is_close, law_quotient_is_close, portion, speck, within};
use crate::constants::{ten_to_minus_12, ten_to_minus_15, ten_to_minus_18};
use crate::data::{dot_of, zero_seq, Batch};
use crate::double::{law_order_is_numeric, lemma_minus_equal, lemma_one, lemma_zero_magnitude, one, zero, Double};
use crate::errors::{close_dot, exact_dot, law_dot_is_close};
use crate::online::least_squares::{
    abs_real, coefficient_is_exact, dot_is_exact, entry_is_exact, gram, image, inner, law_gram_is_positive,
    law_normal_equations_minimise, lemma_coefficients_step, lemma_exact_dot, lemma_history_prefix,
    lemma_inverse_step, lemma_over, lemma_real_order, lemma_ridge, lemma_simple_values, lemma_spread, lemma_start_inverts,
    lemma_zero_inner, loss, moment, real_of, reals, subtracts, sums, Exact,
};
use crate::online::linear_regression::{design_of, dimension, lemma_dot_of_design, product, scaled_identity};
use crate::online::mean_accuracy::lemma_whole_value;
use crate::streaming::rls::{RlsState, RlsTrail};
use vstd::arithmetic::power2::*;
use vstd::prelude::*;

verus! {

/// The values of coefficients and of an inverse Gram matrix.
pub open spec fn values_of(theta: Seq<Double>, p: Seq<Seq<Double>>) -> Exact {
    Exact { theta: reals(theta), p: Seq::new(p.len(), |i: int| reals(p[i])), size: 0real }
}

/// The matrix is the inverse of the weighted Gram matrix of the rows `z`, and the
/// coefficients meet the normal equations of `z` and the targets `y`.
pub open spec fn solves(
    theta: Seq<Double>,
    p: Seq<Seq<Double>>,
    z: Seq<Seq<real>>,
    y: Seq<real>,
    lambda: real,
    ridge: real,
) -> bool {
    let n = theta.len();
    &&& p.len() == n
    &&& forall|i: int| 0 <= i < n ==> (#[trigger] p[i]).len() == n
    &&& z.len() == y.len()
    &&& values_of(theta, p).inverts(z, lambda, ridge, z.len(), n)
    &&& values_of(theta, p).balances(z, y, lambda, ridge, z.len(), n)
}

/// A row no operation on which is rounded.
pub open spec fn shown_exactly(t: RlsTrail, z: Seq<Double>, y: Double, lambda: Double) -> bool {
    let n = z.len();
    let pz = product(t.gram, z);
    let denominator = lambda.plus(dot_of(z, pz, n));
    let fitted = dot_of(z, t.theta, n);
    &&& forall|r: int| 0 <= r < n ==> dot_is_exact(#[trigger] t.gram[r], z, n)
    &&& dot_is_exact(z, pz, n)
    &&& sums(lambda, dot_of(z, pz, n))
    &&& denominator.is_finite()
    &&& dot_is_exact(z, t.theta, n)
    &&& subtracts(y, fitted)
    &&& forall|i: int| 0 <= i < n ==> coefficient_is_exact(#[trigger] t.theta[i], pz[i], denominator, y.minus(fitted))
    &&& forall|r: int, c: int|
        0 <= r < n && 0 <= c < n ==> #[trigger] entry_is_exact(t.gram, pz, denominator, lambda, r, c)
}

proof fn lemma_weight_is_positive(lambda: Double)
    requires
        lambda.is_finite(),
        ten_to_minus_12().le(lambda),
    ensures
        real_of(lambda) > 0real,
        lambda.value() > 0,
{
    let low = ten_to_minus_12();
    let nothing = zero();
    assert(low.code() == low.bits);
    assert(nothing.code() == 0);
    law_order_is_numeric(low, lambda);
    lemma_zero_magnitude(low);
    lemma_zero_magnitude(nothing);
    lemma_simple_values();
    lemma_real_order(lambda, nothing);
}

proof fn lemma_above_floor(lambda: Double, d: Double)
    requires
        lambda.is_finite(),
        ten_to_minus_12().le(lambda),
        d.is_finite(),
        real_of(d) >= real_of(lambda),
    ensures
        !d.abs().lt(ten_to_minus_18()),
{
    let low = ten_to_minus_12();
    let floor = ten_to_minus_18();
    assert(low.code() == low.bits && floor.code() == floor.bits);
    lemma_weight_is_positive(lambda);
    lemma_real_order(lambda, d);
    assert(d.abs() == d);
    law_order_is_numeric(low, lambda);
    law_order_is_numeric(floor, low);
    law_order_is_numeric(d, floor);
}

proof fn lemma_denominator_counts(
    t: RlsTrail,
    z: Seq<Double>,
    y: Double,
    lambda: Double,
    hist: Seq<Seq<real>>,
    targets: Seq<real>,
    ridge: real,
)
    requires
        t.theta.len() == z.len(),
        solves(t.theta, t.gram, hist, targets, real_of(lambda), ridge),
        shown_exactly(t, z, y, lambda),
        lambda.is_finite(),
        ten_to_minus_12().le(lambda),
        ridge > 0real,
    ensures
        real_of(lambda) > 0real,
        real_of(t.denominator(z, lambda)) == values_of(t.theta, t.gram).denominator(reals(z), real_of(lambda)),
        image(values_of(t.theta, t.gram).p, reals(z)) == reals(product(t.gram, z)),
        !(!t.denominator(z, lambda).is_finite() || t.denominator(z, lambda).abs().lt(ten_to_minus_18())),
{
    let n = z.len();
    let e = values_of(t.theta, t.gram);
    let rz = reals(z);
    let pz = product(t.gram, z);
    let d = t.denominator(z, lambda);
    assert forall|r: int| 0 <= r < n implies #[trigger] image(e.p, rz)[r] == real_of(pz[r]) by {
        assert(t.gram[r].len() == n);
        lemma_exact_dot(t.gram[r], z, n);
    }
    assert(image(e.p, rz) =~= reals(pz));
    lemma_exact_dot(z, pz, n);
    let weight = real_of(lambda);
    lemma_weight_is_positive(lambda);
    assert(gram(hist, weight, ridge, hist.len(), image(e.p, rz), image(e.p, rz), n) == inner(rz, image(e.p, rz), n));
    law_gram_is_positive(hist, weight, ridge, hist.len(), image(e.p, rz), n);
    assert(real_of(d) >= weight);
    lemma_above_floor(lambda, d);
}

/// One row. Where no operation is rounded, a state that solves the least-squares problem
/// of the rows so far solves that of the rows with this one.
pub proof fn law_row_keeps_the_solution(
    t: RlsTrail,
    z: Seq<Double>,
    y: Double,
    lambda: Double,
    hist: Seq<Seq<real>>,
    targets: Seq<real>,
    ridge: real,
)
    requires
        t.theta.len() == z.len(),
        solves(t.theta, t.gram, hist, targets, real_of(lambda), ridge),
        shown_exactly(t, z, y, lambda),
        lambda.is_finite(),
        ten_to_minus_12().le(lambda),
        ridge > 0real,
    ensures
        t.shown(z, y, lambda).theta.len() == z.len(),
        solves(
            t.shown(z, y, lambda).theta,
            t.shown(z, y, lambda).gram,
            hist.push(reals(z)),
            targets.push(real_of(y)),
            real_of(lambda),
            ridge,
        ),
        t.shown(z, y, lambda).faults == t.faults,
{
    let n = z.len();
    let e = values_of(t.theta, t.gram);
    let rz = reals(z);
    let weight = real_of(lambda);
    let pz = product(t.gram, z);
    let d = t.denominator(z, lambda);
    let k = hist.len() + 1;
    lemma_denominator_counts(t, z, y, lambda, hist, targets, ridge);
    lemma_exact_dot(z, t.theta, n);
    let next = t.shown(z, y, lambda);
    let have = values_of(next.theta, next.gram);
    let want = e.observed(rz, real_of(y), weight);
    assert forall|i: int| 0 <= i < n implies #[trigger] have.theta[i] == want.theta[i] by {
        assert(coefficient_is_exact(t.theta[i], pz[i], d, y.minus(dot_of(z, t.theta, n))));
    }
    assert(have.theta =~= want.theta);
    assert forall|r: int| 0 <= r < n implies #[trigger] have.p[r] == want.p[r] by {
        assert forall|c: int| 0 <= c < n implies #[trigger] have.p[r][c] == want.p[r][c] by {
            assert(entry_is_exact(t.gram, pz, d, lambda, r, c));
            assert(t.gram[r].len() == n);
        }
        assert(have.p[r] =~= want.p[r]);
    }
    assert(have.p =~= want.p);
    let more = hist.push(rz);
    let all = targets.push(real_of(y));
    assert forall|w: Seq<real>, v: Seq<real>| w.len() == n && v.len() == n implies #[trigger] gram(
        more,
        weight,
        ridge,
        hist.len(),
        image(e.p, w),
        v,
        n,
    ) == inner(w, v, n) by {
        lemma_history_prefix(hist, targets, rz, real_of(y), weight, ridge, hist.len(), image(e.p, w), v, n);
        assert(gram(hist, weight, ridge, hist.len(), image(e.p, w), v, n) == inner(w, v, n));
    }
    assert forall|v: Seq<real>| v.len() == n implies #[trigger] gram(more, weight, ridge, hist.len(), e.theta, v, n)
        == moment(more, all, weight, hist.len(), v, n) by {
        lemma_history_prefix(hist, targets, rz, real_of(y), weight, ridge, hist.len(), e.theta, v, n);
        assert(gram(hist, weight, ridge, hist.len(), e.theta, v, n) == moment(hist, targets, weight, hist.len(), v, n));
    }
    assert(more[k - 1] == rz && all[k - 1] == real_of(y));
    lemma_inverse_step(e, more, real_of(y), weight, ridge, k, n);
    lemma_coefficients_step(e, more, all, weight, ridge, k, n);
    let w2 = e.observed(more[k - 1], all[k - 1], weight);
    assert(w2 == want);
    assert forall|w: Seq<real>, v: Seq<real>| w.len() == n && v.len() == n implies #[trigger] gram(
        more,
        weight,
        ridge,
        k,
        image(have.p, w),
        v,
        n,
    ) == inner(w, v, n) by {
        assert(gram(more, weight, ridge, k, image(w2.p, w), v, n) == inner(w, v, n));
    }
}

/// A batch whose first `k` rows are shown without rounding.
pub open spec fn batch_is_exact(start: RlsTrail, x: Batch, y: Seq<Double>, fit_intercept: bool, lambda: Double, k: nat) -> bool
    decreases k,
{
    k == 0 || {
        &&& batch_is_exact(start, x, y, fit_intercept, lambda, (k - 1) as nat)
        &&& shown_exactly(
            start.after(x, y, fit_intercept, lambda, (k - 1) as nat),
            design_of(x.rows[k - 1], fit_intercept),
            y[k - 1],
            lambda,
        )
    }
}

/// The values of the first `k` design rows of a batch, behind those that came before.
pub open spec fn rows_so_far(hist: Seq<Seq<real>>, x: Batch, fit_intercept: bool, k: nat) -> Seq<Seq<real>> {
    hist + Seq::new(k, |i: int| reals(design_of(x.rows[i], fit_intercept)))
}

/// The values of the first `k` targets, behind those that came before.
pub open spec fn targets_so_far(hist: Seq<real>, y: Seq<Double>, k: nat) -> Seq<real> {
    hist + Seq::new(k, |i: int| real_of(y[i]))
}

/// The first `k` rows of a batch.
pub proof fn law_rows_keep_the_solution(
    start: RlsTrail,
    x: Batch,
    y: Seq<Double>,
    fit_intercept: bool,
    lambda: Double,
    k: nat,
    hist: Seq<Seq<real>>,
    targets: Seq<real>,
    ridge: real,
)
    requires
        x.wf(),
        k <= x.height() <= y.len(),
        start.theta.len() == dimension(x.width as nat, fit_intercept),
        solves(start.theta, start.gram, hist, targets, real_of(lambda), ridge),
        batch_is_exact(start, x, y, fit_intercept, lambda, k),
        lambda.is_finite(),
        ten_to_minus_12().le(lambda),
        ridge > 0real,
    ensures
        ({
            let end = start.after(x, y, fit_intercept, lambda, k);
            &&& end.theta.len() == start.theta.len()
            &&& end.faults == start.faults
            &&& solves(
                end.theta,
                end.gram,
                rows_so_far(hist, x, fit_intercept, k),
                targets_so_far(targets, y, k),
                real_of(lambda),
                ridge,
            )
        }),
    decreases k,
{
    if k == 0 {
        assert(rows_so_far(hist, x, fit_intercept, 0) =~= hist);
        assert(targets_so_far(targets, y, 0) =~= targets);
    } else {
        let j = (k - 1) as nat;
        law_rows_keep_the_solution(start, x, y, fit_intercept, lambda, j, hist, targets, ridge);
        let z = design_of(x.rows[k - 1], fit_intercept);
        assert(x.rows[k - 1].len() == x.width);
        law_row_keeps_the_solution(
            start.after(x, y, fit_intercept, lambda, j),
            z,
            y[k - 1],
            lambda,
            rows_so_far(hist, x, fit_intercept, j),
            targets_so_far(targets, y, j),
            ridge,
        );
        assert(rows_so_far(hist, x, fit_intercept, k) =~= rows_so_far(hist, x, fit_intercept, j).push(reals(z)));
        assert(targets_so_far(targets, y, k) =~= targets_so_far(targets, y, j).push(real_of(y[k - 1])));
    }
}

/// A model that solves the weighted least-squares problem of the rows `hist` and the
/// targets `targets`, with `1 / p0` as the ridge. A new model solves that of no rows.
pub open spec fn is_solution(s: RlsState, width: usize, hist: Seq<Seq<real>>, targets: Seq<real>) -> bool {
    if s.initialized {
        &&& s.gram is Some
        &&& s.theta.len() == s.dim(width)
        &&& solves(s.theta, s.gram->0, hist, targets, real_of(s.forgetting_factor), 1real / real_of(s.p0))
    } else {
        hist.len() == 0 && targets.len() == 0
    }
}

proof fn lemma_weight_in_range(s: RlsState)
    requires
        ten_to_minus_12().le(s.forgetting_factor),
        s.forgetting_factor.le(one()),
    ensures
        s.forgetting_factor.is_finite(),
        s.lambda() == s.forgetting_factor,
        real_of(s.forgetting_factor) > 0real,
{
    let unit = one();
    assert(unit.code() == 0x3ff0_0000_0000_0000);
    let low = ten_to_minus_12();
    assert(low.code() == low.bits);
    lemma_weight_is_positive(s.forgetting_factor);
}

proof fn lemma_new_model(n: nat, p0: Double, lambda: real)
    requires
        real_of(p0) > 0real,
    ensures
        solves(zero_seq(n), scaled_identity(n, p0), Seq::empty(), Seq::empty(), lambda, 1real / real_of(p0)),
{
    let e = values_of(zero_seq(n), scaled_identity(n, p0));
    let want = Exact::start(n, real_of(p0));
    let ridge = 1real / real_of(p0);
    let none: Seq<Seq<real>> = Seq::empty();
    lemma_simple_values();
    lemma_over(1real, real_of(p0));
    lemma_spread(ridge, real_of(p0), 0real);
    assert(e.theta =~= want.theta);
    assert forall|i: int| 0 <= i < n implies #[trigger] e.p[i] == want.p[i] by {
        assert(e.p[i] =~= want.p[i]);
    }
    assert(e.p =~= want.p);
    lemma_start_inverts(none, lambda, real_of(p0), ridge, n);
    assert forall|w: Seq<real>, v: Seq<real>| w.len() == n && v.len() == n implies #[trigger] gram(
        none,
        lambda,
        ridge,
        0,
        image(e.p, w),
        v,
        n,
    ) == inner(w, v, n) by {
        assert(gram(none, lambda, ridge, 0, image(want.p, w), v, n) == inner(w, v, n));
    }
    assert forall|v: Seq<real>| v.len() == n implies #[trigger] gram(none, lambda, ridge, 0, e.theta, v, n) == moment(
        none,
        Seq::empty(),
        lambda,
        0,
        v,
        n,
    ) by {
        lemma_zero_inner(e.theta, v, n);
        lemma_spread(ridge, 0real, 0real);
    }
}

/// Recursive least squares is weighted least squares. After any batches that are shown
/// without rounding, the matrix is the inverse of the weighted Gram matrix of all rows
/// taken in, a row counting `lambda` times as much as the next, with `1 / p0` times the
/// identity ahead of them; and the coefficients cost less than any others.
pub proof fn law_batch_keeps_the_solution(
    s: RlsState,
    x: Batch,
    y: Seq<Double>,
    hist: Seq<Seq<real>>,
    targets: Seq<real>,
    u: Seq<real>,
)
    requires
        x.wf(),
        0 < x.height() <= y.len(),
        x.width > 0,
        is_solution(s, x.width, hist, targets),
        real_of(s.p0) > 0real,
        ten_to_minus_12().le(s.forgetting_factor),
        s.forgetting_factor.le(one()),
        batch_is_exact(s.trail(x.width), x, y, s.fit_intercept, s.forgetting_factor, x.height()),
        u.len() == s.dim(x.width),
    ensures
        ({
            let end = s.taught(x, y);
            let all = rows_so_far(hist, x, s.fit_intercept, x.height());
            let goals = targets_so_far(targets, y, x.height());
            let weight = real_of(s.forgetting_factor);
            let ridge = 1real / real_of(s.p0);
            let n = s.dim(x.width);
            &&& end.initialized
            &&& is_solution(end, x.width, all, goals)
            &&& u != reals(end.theta) ==> loss(all, goals, weight, ridge, all.len(), reals(end.theta), n) < loss(
                all,
                goals,
                weight,
                ridge,
                all.len(),
                u,
                n,
            )
        }),
{
    let lambda = s.forgetting_factor;
    let ridge = 1real / real_of(s.p0);
    let n = s.dim(x.width);
    lemma_weight_in_range(s);
    lemma_over(1real, real_of(s.p0));
    lemma_spread(ridge, real_of(s.p0), 0real);
    lemma_ridge(ridge, real_of(s.p0));
    if !s.initialized {
        lemma_new_model(n, s.p0, real_of(lambda));
        assert(hist =~= Seq::empty());
        assert(targets =~= Seq::empty());
    }
    let start = s.trail(x.width);
    law_rows_keep_the_solution(start, x, y, s.fit_intercept, lambda, x.height(), hist, targets, ridge);
    let end = s.taught(x, y);
    let all = rows_so_far(hist, x, s.fit_intercept, x.height());
    let goals = targets_so_far(targets, y, x.height());
    assert(s.end(x, y) == start.after(x, y, s.fit_intercept, lambda, x.height()));
    lemma_solution_is_best(end.theta, end.gram->0, all, goals, real_of(lambda), ridge, u);
}

proof fn lemma_solution_is_best(
    theta: Seq<Double>,
    p: Seq<Seq<Double>>,
    all: Seq<Seq<real>>,
    goals: Seq<real>,
    lambda: real,
    ridge: real,
    u: Seq<real>,
)
    requires
        lambda > 0real,
        ridge > 0real,
        solves(theta, p, all, goals, lambda, ridge),
        u.len() == theta.len(),
    ensures
        u != reals(theta) ==> loss(all, goals, lambda, ridge, all.len(), reals(theta), theta.len()) < loss(
            all,
            goals,
            lambda,
            ridge,
            all.len(),
            u,
            theta.len(),
        ),
{
    law_normal_equations_minimise(
        values_of(theta, p),
        all,
        goals,
        lambda,
        ridge,
        all.len(),
        u,
        theta.len(),
    );
}

/// A finite prediction is the inner product of the design row and the coefficients, up to
/// rounding.
pub proof fn law_fitted_values_are_close(s: RlsState, x: Batch, i: int)
    requires
        s.initialized,
        0 <= i < x.height(),
        s.theta.len() <= 0x100_0000_0000,
        s.foreseen(x)[i].is_finite(),
    ensures
        s.foreseen(x).len() == x.height(),
        close_dot(design_of(x.rows[i], s.fit_intercept), s.theta, s.theta.len(), s.foreseen(x)[i]),
{
    law_dot_is_close(design_of(x.rows[i], s.fit_intercept), s.theta, s.theta.len());
}

/// A prediction is the intercept plus the slopes times the columns, up to rounding: one
/// slope for each column, in their order.
pub proof fn law_fitted_values_use_slopes(s: RlsState, x: Batch, i: int)
    requires
        x.wf(),
        s.initialized,
        s.fits(x.width),
        0 <= i < x.height(),
        s.theta.len() <= 0x100_0000_0000,
        s.foreseen(x)[i].is_finite(),
    ensures
        s.slopes().len() == x.width,
        exact_dot(design_of(x.rows[i], s.fit_intercept), s.theta, s.theta.len()) == pow2(1074) * s.offset().value()
            + exact_dot(x.rows[i], s.slopes(), x.width as nat),
        close_dot(design_of(x.rows[i], s.fit_intercept), s.theta, s.theta.len(), s.foreseen(x)[i]),
{
    assert(x.rows[i].len() == x.width);
    law_fitted_values_are_close(s, x, i);
    if s.fit_intercept {
        lemma_dot_of_design(x.rows[i], s.theta, x.width as nat);
    } else {
        lemma_zero_magnitude(zero());
        assert(zero().code() == 0);
        assert(pow2(1074) * 0 == 0) by (nonlinear_arith);
    }
}

/// The effective sample size of `n` rows is `n` where nothing is forgotten. Otherwise,
/// times one less the forgetting factor, it is one less the power that is handed in, up
/// to rounding.
pub proof fn law_effective_size_is_the_sum_of_weights(s: RlsState, power: Double)
    requires
        s.n_seen <= 0x20_0000_0000_0000,
        s.forgetting_factor.finite(),
        power.finite(),
        one().minus(power).finite(),
        one().minus(s.forgetting_factor).finite(),
        s.effective(power).finite(),
    ensures
        s.forgetting_factor == one() ==> real_of(s.effective(power)) == s.n_seen as real,
        !one().minus(s.forgetting_factor).abs().lt(ten_to_minus_15()) ==> ({
            let (f, p) = (real_of(s.forgetting_factor), real_of(power));
            let gap = real_of(one().minus(s.forgetting_factor));
            let top = real_of(one().minus(power));
            &&& within(gap - (1real - f), portion(abs_real(1real - f)))
            &&& within(top - (1real - p), portion(abs_real(1real - p)))
            &&& within(real_of(s.effective(power)) * gap - top, portion(abs_real(top)) + speck() * abs_real(gap))
        }),
{
    let d = one().minus(s.forgetting_factor);
    let tiny = ten_to_minus_15();
    let z = zero();
    assert(tiny.code() == tiny.bits && z.code() == 0);
    lemma_zero_magnitude(z);
    lemma_simple_values();
    law_difference_is_close(one(), s.forgetting_factor);
    law_difference_is_close(one(), power);
    if s.forgetting_factor == one() {
        lemma_one();
        lemma_minus_equal(one(), one());
        assert(d == z);
        lemma_whole_value(s.n_seen as u64);
    }
    if !d.abs().lt(tiny) {
        assert(d.value() != 0) by {
            lemma_zero_magnitude(d);
            if d.code() == 0 {
                assert(d.abs().code() == 0);
            }
        }
        law_quotient_is_close(one().minus(power), d);
    }
}

} // verus!
