//! How close compensated sums of products of deviations are to exact co-moments.

use crate::accuracy::{
    law_quotient_is_close, lemma_difference_within, lemma_portion, lemma_product_within, lemma_speck, lemma_sum_within,
    lemma_within_gap, lemma_within_product, portion, speck, within,
};
use crate::double::{law_order_is_numeric, lemma_over_whole, lemma_round_is_finite, lemma_zero_magnitude, zero, Double};
use crate::errors::lemma_neg_value;
use crate::exact::abs_int;
use crate::online::common::{compensated_add, difference_product};
use crate::online::least_squares::{
    abs_real, lemma_casts, lemma_product_sign, lemma_real_order, lemma_regroup, lemma_scaled_abs, lemma_simple_values,
    lemma_spread, lemma_units, real_of,
};
use crate::online::mean_accuracy::{
    bounded, law_running_mean_is_close, lemma_grows, lemma_mean_of, lemma_whole_value, mean_of, means_are_finite,
    total_of,
};
use crate::online::spread::running_mean;
use crate::scaling::lemma_terms_are_finite;
use vstd::arithmetic::power2::*;
use vstd::prelude::*;

verus! {

/// The sum of the first `k` products of deviations from `a` and from `b`.
pub open spec fn centred_sum(xs: Seq<Double>, ys: Seq<Double>, a: real, b: real, k: nat) -> real
    decreases k,
{
    if k == 0 {
        0real
    } else {
        centred_sum(xs, ys, a, b, (k - 1) as nat) + (real_of(xs[k - 1]) - a) * (real_of(ys[k - 1]) - b)
    }
}

/// The co-moment of the first `k` pairs: the sum of the products of their deviations from
/// the two means.
pub open spec fn co_moment(xs: Seq<Double>, ys: Seq<Double>, k: nat) -> real {
    centred_sum(xs, ys, mean_of(xs, k), mean_of(ys, k), k)
}

spec fn product_sum(xs: Seq<Double>, ys: Seq<Double>, k: nat) -> real
    decreases k,
{
    if k == 0 {
        0real
    } else {
        product_sum(xs, ys, (k - 1) as nat) + real_of(xs[k - 1]) * real_of(ys[k - 1])
    }
}

/// A product of two differences, multiplied out.
pub proof fn lemma_expand(x: real, y: real, a: real, b: real)
    by (nonlinear_arith)
    ensures
        (x - a) * (y - b) == x * y - b * x - a * y + a * b,
{
}

proof fn lemma_centred_sum(xs: Seq<Double>, ys: Seq<Double>, a: real, b: real, k: nat)
    ensures
        centred_sum(xs, ys, a, b, k) == product_sum(xs, ys, k) - b * total_of(xs, k) - a * total_of(ys, k) + (k as real)
            * (a * b),
    decreases k,
{
    if k == 0 {
        lemma_spread(a, 0real, 0real);
        lemma_spread(b, 0real, 0real);
        lemma_spread(a * b, 0real, 0real);
    } else {
        let j = (k - 1) as nat;
        let (x, y) = (real_of(xs[k - 1]), real_of(ys[k - 1]));
        lemma_centred_sum(xs, ys, a, b, j);
        lemma_expand(x, y, a, b);
        lemma_spread(b, total_of(xs, j), x);
        lemma_spread(a, total_of(ys, j), y);
        lemma_spread(a * b, j as real, 1real);
    }
}

proof fn lemma_welford_scalars(n: real, p: real, x: real, y: real, ex: real, ey: real, next: real, sx: real, sy: real)
    requires
        sx == (n - 1real) * ex,
        sy == (n - 1real) * ey,
        n * next == sy + y,
    ensures
        (p + x * y) - next * (sx + x) == (p - ey * sx) + (x - ex) * (y - next),
{
    lemma_expand(x, y, ex, next);
    lemma_spread(next, sx, x);
    lemma_spread(ex, n, 1real);
    lemma_spread(ey, n, 1real);
    lemma_regroup(next, n - 1real, ex);
    lemma_regroup(ey, n - 1real, ex);
    lemma_regroup(ex, n, next);
    lemma_spread(ex, n * next, y);
    lemma_spread(next, n * ex, ex);
    lemma_regroup(next, n, ex);
    lemma_regroup(ex, n - 1real, ey);
    lemma_spread(ex, sy, y);
    lemma_spread(ex, next, ey);
    assert(next * sx == (n - 1real) * (next * ex));
    assert(ey * sx == (n - 1real) * (ey * ex));
    lemma_spread(next * ex, n, 1real);
    assert(ex * (n * next) == n * (ex * next));
    assert(ex * sy == (n - 1real) * (ex * ey));
    lemma_spread(ey, ex, 0real);
    lemma_spread(next, ex, 0real);
}

/// A co-moment follows from that of one pair fewer.
pub proof fn law_co_moment_grows(xs: Seq<Double>, ys: Seq<Double>, k: nat, b: real)
    requires
        k > 0,
        bounded(xs, k, b),
        bounded(ys, k, b),
    ensures
        k == 1 ==> co_moment(xs, ys, k) == 0real,
        k > 1 ==> co_moment(xs, ys, k) == co_moment(xs, ys, (k - 1) as nat) + (real_of(xs[k - 1]) - mean_of(
            xs,
            (k - 1) as nat,
        )) * (real_of(ys[k - 1]) - mean_of(ys, k)),
{
    lemma_mean_of(xs, k, b);
    lemma_mean_of(ys, k, b);
    let (ax, ay) = (mean_of(xs, k), mean_of(ys, k));
    lemma_centred_sum(xs, ys, ax, ay, k);
    lemma_regroup(k as real, ax, ay);
    lemma_spread(ax, total_of(ys, k), 0real);
    lemma_spread(ay, total_of(xs, k), 0real);
    lemma_regroup(ax, k as real, ay);
    assert((k as real) * (ax * ay) == ax * total_of(ys, k));
    if k == 1 {
        assert(centred_sum(xs, ys, ax, ay, 0) == 0real);
        lemma_spread(real_of(ys[0]) - ay, 0real, 0real);
        assert(centred_sum(xs, ys, ax, ay, 1) == 0real + (real_of(xs[0]) - ax) * (real_of(ys[0]) - ay));
    } else {
        let j = (k - 1) as nat;
        lemma_mean_of(xs, j, b);
        lemma_mean_of(ys, j, b);
        let (bx, by) = (mean_of(xs, j), mean_of(ys, j));
        lemma_centred_sum(xs, ys, bx, by, j);
        lemma_regroup(j as real, bx, by);
        lemma_regroup(bx, j as real, by);
        assert((j as real) * (bx * by) == bx * total_of(ys, j));
        lemma_welford_scalars(
            k as real,
            product_sum(xs, ys, j),
            real_of(xs[k - 1]),
            real_of(ys[k - 1]),
            bx,
            by,
            ay,
            total_of(xs, j),
            total_of(ys, j),
        );
    }
}

/// A difference of numbers of moderate size is finite.
pub proof fn lemma_moderate_difference(x: Double, m: Double, b: real)
    requires
        x.finite(),
        m.finite(),
        within(real_of(x), b),
        within(real_of(m), 2real * b),
        b <= pow2(900) as real,
    ensures
        x.minus(m).finite(),
{
    reveal(Double::spec_plus);
    let g = pow2(1074) as real;
    let top = pow2(900) as real;
    lemma_neg_value(m);
    lemma_units(x);
    lemma_units(m);
    let sum = x.value() + m.neg().value();
    let gap = real_of(x) - real_of(m);
    lemma_spread(g, real_of(x), real_of(m));
    assert(sum as real == g * gap);
    lemma_pow2_adds(1074, 900);
    lemma_casts(pow2(1074) as int, pow2(900) as int);
    lemma_pow2_unfold(1975);
    lemma_pow2_unfold(1976);
    assert(pow2(1974) as real == g * top);
    lemma_grows(gap, 4real * top, g);
    lemma_grows(-gap, 4real * top, g);
    lemma_spread(g, gap, 0real);
    lemma_spread(g, -gap, 0real);
    lemma_scaled_abs(g, gap);
    lemma_spread(g, 4real * top, 0real);
    lemma_regroup(g, 4real, top);
    assert(abs_int(sum) <= pow2(1976));
    lemma_round_is_finite(abs_int(sum), 1, 1976);
}

/// One step of a compensated sum: how far the sum, the compensation and both together are
/// from the exact ones.
pub proof fn lemma_compensated_step(sum: Double, compensation: Double, value: Double, t: real, c: real)
    requires
        compensated_add(sum, compensation, value) is Ok,
        within(real_of(sum) + real_of(value), t),
        within(real_of(sum), t),
        within(real_of(value), t),
        within(real_of(compensation), c),
    ensures
        ({
            let (next, kept) = compensated_add(sum, compensation, value)->Ok_0;
            &&& next.finite()
            &&& kept.finite()
            &&& next.plus(kept).finite()
            &&& within(real_of(next) - (real_of(sum) + real_of(value)), portion(t))
            &&& within(real_of(kept) - real_of(compensation), portion(5real * t + c))
        }),
{
    let next = sum.plus(value);
    let (big, small) = if sum.abs().ge(value.abs()) {
        (sum, value)
    } else {
        (value, sum)
    };
    let d = big.minus(next);
    let correction = d.plus(small);
    let kept = compensation.plus(correction);
    lemma_sum_within(sum, value, t);
    lemma_terms_are_finite(d, small);
    lemma_difference_within(big, next, 2real * t);
    lemma_sum_within(d, small, portion(3real * t));
    lemma_sum_within(compensation, correction, c + portion(4real * t));
}

proof fn lemma_increment_is_close(x: Double, mx: Double, y: Double, my: Double, ex: real, ey: real, b: real, d: real)
    requires
        within(real_of(x), b),
        within(real_of(y), b),
        within(real_of(mx), 2real * b),
        within(real_of(my), 2real * b),
        within(ex, b),
        within(ey, b),
        within(real_of(mx) - ex, d),
        within(real_of(my) - ey, d),
        x.minus(mx).finite(),
        y.minus(my).finite(),
        difference_product(x, mx, y, my) is Ok,
        speck() <= portion(b * b),
        b >= 0real,
    ensures
        ({
            let inc = difference_product(x, mx, y, my)->Ok_0;
            &&& inc.finite()
            &&& within(real_of(inc) - (real_of(x) - ex) * (real_of(y) - ey), portion(35real * (b * b)) + 6real * (b * d))
            &&& within(real_of(inc), 17real * (b * b))
        }),
{
    let (left, right) = (x.minus(mx), y.minus(my));
    let inc = difference_product(x, mx, y, my)->Ok_0;
    let (rl, rr) = (real_of(left), real_of(right));
    lemma_difference_within(x, mx, 3real * b);
    lemma_difference_within(y, my, 3real * b);
    let near = portion(3real * b) + d;
    lemma_within_gap(rl, rr, real_of(x) - ex, real_of(y) - ey, near, 4real * b, 2real * b, near);
    assert(near * (4real * b) + (2real * b) * near == portion(18real * (b * b)) + 6real * (b * d)) by {
        lemma_portion(b, 3real * b);
        lemma_regroup(b, 3real, b);
        lemma_spread(b, portion(3real * b), d);
        lemma_spread(near, 4real * b, 0real);
        lemma_regroup(4real, b, near);
        lemma_regroup(2real, b, near);
        assert(b * near == portion(3real * (b * b)) + b * d);
        lemma_regroup(near, 4real, b);
        lemma_spread(near, b, 0real);
    }
    lemma_within_product(rl, 4real * b, rr, 4real * b);
    assert((4real * b) * (4real * b) == 16real * (b * b)) by {
        lemma_regroup(4real * b, 4real, b);
        lemma_regroup(4real, b, b);
        lemma_regroup(4real, 4real, b * b);
        lemma_spread(4real * b, b, 0real);
    }
    let z = zero();
    assert(z.code() == 0);
    lemma_zero_magnitude(z);
    lemma_simple_values();
    lemma_speck();
    if left.same(zero()) || right.same(zero()) {
        assert(rl * rr == 0real) by {
            law_order_is_numeric(left, z);
            law_order_is_numeric(right, z);
            lemma_real_order(left, z);
            lemma_real_order(right, z);
            lemma_spread(rr, 0real, 0real);
            lemma_spread(rl, 0real, 0real);
        }
        assert(inc == z);
        assert(b * b >= 0real) by {
            crate::online::least_squares::lemma_square(b);
        }
    } else {
        assert(inc == left.times(right));
        lemma_product_within(left, right, 16real * (b * b));
    }
}

/// Numbers of moderate size: at most `b`, which is neither too small for its square to
/// carry all digits nor too large for differences to be finite.
pub open spec fn is_scale(b: real) -> bool {
    &&& b > 0real
    &&& speck() <= portion(b)
    &&& speck() <= portion(b * b)
    &&& b <= pow2(900) as real
}

/// A sum and its compensation are close to the co-moment of all pairs.
pub open spec fn near_co_moment(xs: Seq<Double>, ys: Seq<Double>, sum: Double, compensation: Double, b: real) -> bool {
    let n = xs.len() as real;
    let unit = b * b;
    &&& sum.finite()
    &&& compensation.finite()
    &&& sum.plus(compensation).finite()
    &&& within(real_of(sum), 20real * (n * unit))
    &&& within(real_of(compensation), portion(150real * (n * (n * unit))))
    &&& within(
        real_of(sum) + real_of(compensation) - co_moment(xs, ys, xs.len()),
        portion(500real * (n * (n * unit))),
    )
}

/// Multiples of a number by a count and by its square.
pub proof fn lemma_powers_of_count(k: nat, unit: real)
    requires
        k <= 0x10_0000,
        unit >= 0real,
    ensures
        ({
            let n = k as real;
            let m = (k + 1) as real;
            &&& m * unit == n * unit + unit
            &&& m * (m * unit) == n * (n * unit) + 2real * (n * unit) + unit
            &&& 0real <= n * unit <= 1048576real * unit
            &&& 0real <= n * (n * unit) <= 1048576real * (n * unit)
            &&& k > 0 ==> unit <= n * unit <= n * (n * unit)
        }),
{
    let n = k as real;
    let m = (k + 1) as real;
    lemma_spread(unit, n, 1real);
    lemma_spread(m * unit, n, 1real);
    lemma_spread(n, n * unit, unit);
    lemma_grows(n, 1048576real, unit);
    lemma_grows(0real, n, unit);
    lemma_spread(unit, 0real, 0real);
    lemma_grows(n, 1048576real, n * unit);
    lemma_grows(0real, n, n * unit);
    lemma_spread(n * unit, 0real, 0real);
    if k > 0 {
        lemma_grows(1real, n, unit);
        lemma_spread(unit, 1real, 0real);
        lemma_grows(1real, n, n * unit);
        lemma_spread(n * unit, 1real, 0real);
    }
}

proof fn lemma_sum_budget(
    a: real,
    q: real,
    unit: real,
    s: real,
    c: real,
    v: real,
    moment: real,
    exact: real,
    next: real,
    kept: real,
)
    requires
        unit >= 0real,
        0real <= a <= 1048576real * unit,
        0real <= q <= 1048576real * a,
        within(s, 20real * a),
        within(c, portion(150real * q)),
        within(s + c - moment, portion(500real * q)),
        within(v, 17real * unit),
        within(v - exact, portion(240real * a + 275real * unit)),
        within(next - (s + v), portion(20real * a + 17real * unit)),
        within(kept - c, portion(5real * (20real * a + 17real * unit) + portion(150real * q))),
    ensures
        within(next, 20real * (a + unit)),
        within(kept, portion(150real * (q + 2real * a + unit))),
        within(next + kept - (moment + exact), portion(500real * (q + 2real * a + unit))),
{
}

/// One more pair keeps a sum close to its co-moment.
pub proof fn lemma_pair_keeps_near(
    xs: Seq<Double>,
    ys: Seq<Double>,
    sum: Double,
    compensation: Double,
    x: Double,
    y: Double,
    b: real,
)
    requires
        is_scale(b),
        xs.len() == ys.len() < 0x10_0000,
        bounded(xs.push(x), xs.len() + 1, b),
        bounded(ys.push(y), xs.len() + 1, b),
        means_are_finite(xs.push(x), xs.len() + 1),
        means_are_finite(ys.push(y), xs.len() + 1),
        x.finite(),
        y.finite(),
        near_co_moment(xs, ys, sum, compensation, b),
        xs.len() > 0 ==> difference_product(
            x,
            running_mean(xs.push(x), xs.len()),
            y,
            running_mean(ys.push(y), xs.len() + 1),
        ) is Ok,
        compensated_add(sum, compensation, pair_increment(xs, ys, x, y)) is Ok,
    ensures
        ({
            let (next, kept) = compensated_add(sum, compensation, pair_increment(xs, ys, x, y))->Ok_0;
            near_co_moment(xs.push(x), ys.push(y), next, kept, b)
        }),
{
    let k = xs.len();
    let n = k as real;
    let unit = b * b;
    let (us, vs) = (xs.push(x), ys.push(y));
    let value = pair_increment(xs, ys, x, y);
    let (next, kept) = compensated_add(sum, compensation, value)->Ok_0;
    lemma_product_sign(b, b);
    lemma_powers_of_count(k, unit);
    law_co_moment_grows(us, vs, k + 1, b);
    lemma_simple_values();
    lemma_mean_of(us, k + 1, b);
    lemma_mean_of(vs, k + 1, b);
    let exact: real;
    if k == 0 {
        exact = 0real;
        assert(co_moment(xs, ys, 0) == 0real);
    } else {
        let (mx, my) = (running_mean(us, k), running_mean(vs, k + 1));
        let (ex, ey) = (mean_of(us, k), mean_of(vs, k + 1));
        let far = (k + 1) as real * (40real * b);
        assert(bounded(us, k, b));
        assert(means_are_finite(us, k));
        law_running_mean_is_close(us, k, b);
        law_running_mean_is_close(vs, k + 1, b);
        lemma_spread(40real * b, n, 1real);
        assert(mx.finite() && my.finite());
        lemma_moderate_difference(x, mx, b);
        lemma_moderate_difference(y, my, b);
        assert(us[k as int] == x && vs[k as int] == y);
        lemma_increment_is_close(x, mx, y, my, ex, ey, b, portion(far));
        lemma_portion(b, far);
        lemma_regroup(b, (k + 1) as real, 40real * b);
        lemma_regroup(b, 40real, b);
        lemma_regroup((k + 1) as real, 40real, unit);
        exact = (real_of(x) - ex) * (real_of(y) - ey);
        lemma_same_co_moment(xs, ys, us, vs, k);
    }
    let t = 20real * (n * unit) + 17real * unit;
    lemma_compensated_step(sum, compensation, value, t, portion(150real * (n * (n * unit))));
    lemma_sum_budget(
        n * unit,
        n * (n * unit),
        unit,
        real_of(sum),
        real_of(compensation),
        real_of(value),
        co_moment(xs, ys, k),
        exact,
        real_of(next),
        real_of(kept),
    );
}

/// What a pair adds to a co-moment.
pub open spec fn pair_increment(xs: Seq<Double>, ys: Seq<Double>, x: Double, y: Double) -> Double {
    if xs.len() == 0 {
        zero()
    } else {
        difference_product(
            x,
            running_mean(xs.push(x), xs.len()),
            y,
            running_mean(ys.push(y), xs.len() + 1),
        )->Ok_0
    }
}

/// A sum depends on its terms alone.
pub proof fn lemma_same_total(xs: Seq<Double>, us: Seq<Double>, k: nat)
    requires
        forall|i: int| 0 <= i < k ==> #[trigger] xs[i] == us[i],
    ensures
        total_of(xs, k) == total_of(us, k),
    decreases k,
{
    if k > 0 {
        lemma_same_total(xs, us, (k - 1) as nat);
    }
}

proof fn lemma_same_centred(xs: Seq<Double>, ys: Seq<Double>, us: Seq<Double>, vs: Seq<Double>, a: real, b: real, k: nat)
    requires
        forall|i: int| 0 <= i < k ==> #[trigger] xs[i] == us[i],
        forall|i: int| 0 <= i < k ==> #[trigger] ys[i] == vs[i],
    ensures
        centred_sum(xs, ys, a, b, k) == centred_sum(us, vs, a, b, k),
    decreases k,
{
    if k > 0 {
        lemma_same_centred(xs, ys, us, vs, a, b, (k - 1) as nat);
    }
}

/// A co-moment depends on its pairs alone.
pub proof fn lemma_same_co_moment(xs: Seq<Double>, ys: Seq<Double>, us: Seq<Double>, vs: Seq<Double>, k: nat)
    requires
        forall|i: int| 0 <= i < k ==> #[trigger] xs[i] == us[i],
        forall|i: int| 0 <= i < k ==> #[trigger] ys[i] == vs[i],
    ensures
        co_moment(xs, ys, k) == co_moment(us, vs, k),
{
    lemma_same_total(xs, us, k);
    lemma_same_total(ys, vs, k);
    lemma_same_centred(xs, ys, us, vs, mean_of(us, k), mean_of(vs, k), k);
}

/// A sum of squares over one less than the count, as the scores divide it.
pub proof fn lemma_score_is_close(
    xs: Seq<Double>,
    ys: Seq<Double>,
    sum: Double,
    compensation: Double,
    b: real,
)
    requires
        is_scale(b),
        2 <= xs.len() == ys.len() <= 0x10_0000,
        near_co_moment(xs, ys, sum, compensation, b),
    ensures
        ({
            let n = xs.len() as real;
            let score = sum.plus(compensation).over(Double::from_u64((xs.len() - 1) as u64));
            &&& score.finite()
            &&& within(
                real_of(score) * (n - 1real) - co_moment(xs, ys, xs.len()),
                portion(600real * (n * (n * (b * b)))),
            )
        }),
{
    let k = xs.len();
    let n = k as real;
    let unit = b * b;
    let total = sum.plus(compensation);
    let d = Double::from_u64((k - 1) as u64);
    lemma_product_sign(b, b);
    lemma_powers_of_count(k, unit);
    lemma_sum_within(sum, compensation, 21real * (n * unit));
    lemma_over_whole(total, (k - 1) as u64);
    lemma_whole_value((k - 1) as u64);
    crate::double::lemma_whole_is_exact((k - 1) as u64);
    lemma_pow2_pos(1074);
    assert(d.value() != 0) by (nonlinear_arith)
        requires
            d.value() == (k - 1) * pow2(1074),
            k - 1 > 0,
            pow2(1074) > 0,
    ;
    law_quotient_is_close(total, d);
    lemma_speck();
    let m = n - 1real;
    assert(real_of(d) == m);
    assert(speck() * abs_real(m) <= portion(n * unit)) by {
        lemma_grows(speck(), portion(unit), m);
        lemma_portion(m, unit);
        lemma_spread(m, portion(unit), speck());
        lemma_spread(m, speck(), portion(unit));
        lemma_spread(unit, n, 1real);
    }
}

/// The co-moment of a column with itself is not negative, and that of two columns does not
/// depend on which comes first.
pub proof fn law_co_moment_is_symmetric(xs: Seq<Double>, ys: Seq<Double>, k: nat)
    ensures
        co_moment(xs, xs, k) >= 0real,
        co_moment(xs, ys, k) == co_moment(ys, xs, k),
{
    lemma_centred_is_symmetric(xs, ys, mean_of(xs, k), mean_of(ys, k), k);
    lemma_centred_squares(xs, mean_of(xs, k), k);
}

proof fn lemma_centred_is_symmetric(xs: Seq<Double>, ys: Seq<Double>, a: real, b: real, k: nat)
    ensures
        centred_sum(xs, ys, a, b, k) == centred_sum(ys, xs, b, a, k),
    decreases k,
{
    if k > 0 {
        lemma_centred_is_symmetric(xs, ys, a, b, (k - 1) as nat);
        lemma_spread(real_of(xs[k - 1]) - a, real_of(ys[k - 1]) - b, 0real);
    }
}

proof fn lemma_centred_squares(xs: Seq<Double>, a: real, k: nat)
    ensures
        centred_sum(xs, xs, a, a, k) >= 0real,
    decreases k,
{
    if k > 0 {
        lemma_centred_squares(xs, a, (k - 1) as nat);
        crate::online::least_squares::lemma_square(real_of(xs[k - 1]) - a);
    }
}

proof fn lemma_shifted_total(xs: Seq<Double>, us: Seq<Double>, c: real, k: nat)
    requires
        forall|i: int| 0 <= i < k ==> real_of(#[trigger] us[i]) == real_of(xs[i]) + c,
    ensures
        total_of(us, k) == total_of(xs, k) + (k as real) * c,
    decreases k,
{
    if k == 0 {
        lemma_spread(c, 0real, 0real);
    } else {
        lemma_shifted_total(xs, us, c, (k - 1) as nat);
        assert(real_of(us[k - 1]) == real_of(xs[k - 1]) + c);
        lemma_spread(c, (k - 1) as real, 1real);
    }
}

proof fn lemma_shifted_sum(xs: Seq<Double>, us: Seq<Double>, ys: Seq<Double>, c: real, a: real, b: real, k: nat)
    requires
        forall|i: int| 0 <= i < k ==> real_of(#[trigger] us[i]) == real_of(xs[i]) + c,
    ensures
        centred_sum(us, ys, a + c, b, k) == centred_sum(xs, ys, a, b, k),
    decreases k,
{
    if k > 0 {
        lemma_shifted_sum(xs, us, ys, c, a, b, (k - 1) as nat);
        assert(real_of(us[k - 1]) == real_of(xs[k - 1]) + c);
        assert(real_of(us[k - 1]) - (a + c) == real_of(xs[k - 1]) - a);
    }
}

/// A constant added to a column leaves its co-moments unchanged.
pub proof fn law_co_moment_ignores_shifts(xs: Seq<Double>, us: Seq<Double>, ys: Seq<Double>, c: real, k: nat)
    requires
        k > 0,
        forall|i: int| 0 <= i < k ==> real_of(#[trigger] us[i]) == real_of(xs[i]) + c,
    ensures
        co_moment(us, ys, k) == co_moment(xs, ys, k),
{
    let n = k as real;
    let (a, b) = (mean_of(xs, k), mean_of(us, k));
    lemma_shifted_total(xs, us, c, k);
    crate::online::least_squares::lemma_over(total_of(xs, k), n);
    crate::online::least_squares::lemma_over(total_of(us, k), n);
    lemma_spread(n, a, c);
    crate::online::least_squares::lemma_cancel(n, b, a + c);
    lemma_shifted_sum(xs, us, ys, c, a, mean_of(ys, k), k);
}

} // verus!
