//! Whether observations vary, and what a compensated sum of squares says of it.

use crate::double::{
    law_order_is_numeric, law_times_commutes, lemma_minus_equal, lemma_one, lemma_positive_whole,
    lemma_ratio_is_finite, lemma_share_is_finite, lemma_whole_is_exact, lemma_zero_magnitude, one, zero, Double,
};
use crate::errors::{lemma_minus_error, lemma_neg_value, lemma_plus_error, lemma_rounding_error, lemma_scaled_size};
use crate::exact::abs_int;
use crate::online::common::{compensated_add, covariance_step, difference_product, mean_step};
use crate::online::moments::lemma_mean_of_equal;
use crate::rounding::round_code;
use crate::scaling::{lemma_factors_are_finite, lemma_terms_are_finite};
use vstd::arithmetic::power2::*;
use vstd::prelude::*;

verus! {

/// What a compensated sum of terms that are not negative keeps to after `k` of them: the
/// compensation stays far below the sum.
pub open spec fn balanced(sum: Double, compensation: Double, k: nat) -> bool {
    &&& sum.finite()
    &&& compensation.finite()
    &&& sum.value() >= 0
    &&& abs_int(compensation.value()) * 0x1_0000_0000_0000 <= k * sum.value()
}

proof fn lemma_correction(big: Double, small: Double, next: Double)
    requires
        big.value() >= 0,
        small.value() >= 0,
        big.finite(),
        small.finite(),
        next.finite(),
        abs_int(big.value() + small.value() - next.value()) * 0x20_0000_0000_0000 <= next.value(),
        big.minus(next).plus(small).finite(),
    ensures
        abs_int(big.minus(next).plus(small).value()) * 0x2_0000_0000_0000 <= next.value(),
{
    let d = big.minus(next);
    lemma_terms_are_finite(d, small);
    lemma_minus_error(big, next);
    lemma_plus_error(d, small);
    let (b, s, n, dv, c) = (big.value(), small.value(), next.value(), d.value(), d.plus(small).value());
    assert(abs_int(b - n) <= 2 * n);
    assert(abs_int(dv) <= 4 * n);
    assert(abs_int(dv + s) * 0x20_0000_0000_0000 <= 5 * n);
    assert(abs_int(c) * 0x20_0000_0000_0000 <= 10 * n);
}

proof fn lemma_balanced_step(sum: Double, compensation: Double, value: Double, k: nat)
    requires
        balanced(sum, compensation, k),
        value.finite(),
        value.value() >= 0,
        k < 0x100_0000_0000,
        compensated_add(sum, compensation, value) is Ok,
    ensures
        ({
            let next = compensated_add(sum, compensation, value)->Ok_0;
            &&& balanced(next.0, next.1, k + 1)
            &&& next.0.value() > 0 <==> sum.value() > 0 || value.value() > 0
        }),
{
    let next = sum.plus(value);
    let correction = if sum.abs().ge(value.abs()) {
        sum.minus(next).plus(value)
    } else {
        value.minus(next).plus(sum)
    };
    let kept = compensation.plus(correction);
    lemma_plus_error(sum, value);
    if sum.abs().ge(value.abs()) {
        lemma_correction(sum, value, next);
    } else {
        lemma_correction(value, sum, next);
    }
    lemma_plus_error(compensation, correction);
    let (s, n, c, r, w) = (
        sum.value(),
        next.value(),
        abs_int(compensation.value()) as int,
        abs_int(correction.value()) as int,
        abs_int(kept.value()) as int,
    );
    let off = abs_int(s + value.value() - n) as int;
    assert(s <= n + off);
    assert(k * s <= k * n + k * off) by (nonlinear_arith)
        requires
            s <= n + off,
            k >= 0,
    ;
    assert(k * off * 0x2000 <= n) by (nonlinear_arith)
        requires
            off * 0x20_0000_0000_0000 <= n,
            0 <= k <= 0x100_0000_0000,
            off >= 0,
    ;
    assert(k * n <= 0x100_0000_0000 * n) by (nonlinear_arith)
        requires
            k <= 0x100_0000_0000,
            n >= 0,
    ;
    assert((k + 1) * n == k * n + n) by (nonlinear_arith);
    lemma_compensation_bound(k * n, n, k * off, c, r, w);
}

proof fn lemma_compensation_bound(kn: int, n: int, drift: int, c: int, r: int, w: int)
    requires
        n >= 0,
        kn >= 0,
        drift * 0x2000 <= n,
        kn <= 0x100_0000_0000 * n,
        c >= 0,
        r >= 0,
        w >= 0,
        c * 0x1_0000_0000_0000 <= kn + drift,
        r * 0x2_0000_0000_0000 <= n,
        (w - c - r) * 0x20_0000_0000_0000 <= w,
    ensures
        w * 0x1_0000_0000_0000 <= kn + n,
{
    let total = c + r;
    assert(w <= 2 * total);
    assert((w - total) * 0x10_0000_0000_0000 <= total);
    assert(total * 0x2_0000_0000_0000 <= 2 * kn + 2 * drift + n);
}

/// The running mean after the first `k` observations, at least one.
pub open spec fn running_mean(values: Seq<Double>, k: nat) -> Double
    decreases k,
{
    if k <= 1 {
        values[0]
    } else {
        mean_step(running_mean(values, (k - 1) as nat), values[k - 1], k as u64)
    }
}

/// Observation `k` is neither the running mean that it finds nor the one that it leaves.
pub open spec fn departs(values: Seq<Double>, k: int) -> bool {
    &&& !values[k].same(running_mean(values, k as nat))
    &&& !values[k].same(running_mean(values, (k + 1) as nat))
}

/// Some observation departs from the running mean.
pub open spec fn varies(values: Seq<Double>) -> bool {
    exists|k: int| 1 <= k < values.len() && #[trigger] departs(values, k)
}

/// All observations are the same number.
pub open spec fn is_constant(values: Seq<Double>) -> bool {
    forall|k: int| 0 <= k < values.len() ==> (#[trigger] values[k]).finite() && values[k].same(values[0])
}

proof fn lemma_same_number(a: Double, b: Double)
    requires
        a.finite(),
        b.finite(),
        a.same(b),
    ensures
        a == b || (a.code() == 0 && b.code() == 0),
{
}

proof fn lemma_mean_of_constant(values: Seq<Double>, k: nat)
    requires
        is_constant(values),
        1 <= k <= values.len(),
        k <= u64::MAX,
    ensures
        running_mean(values, k).finite(),
        running_mean(values, k).same(values[0]),
    decreases k,
{
    assert(values[0].finite());
    if k > 1 {
        let v = values[k - 1];
        let mean = running_mean(values, (k - 1) as nat);
        lemma_mean_of_constant(values, (k - 1) as nat);
        lemma_same_number(v, values[0]);
        lemma_same_number(mean, values[0]);
        lemma_mean_of_equal(mean, v, k as u64);
    }
}

/// `v` is well apart from `a`: by at least three of the smallest units, and by at least
/// one part in `2^51` of itself.
pub open spec fn well_apart(a: Double, v: Double) -> bool {
    &&& abs_int(v.value() - a.value()) >= 3
    &&& abs_int(v.value() - a.value()) * 0x8_0000_0000_0000 >= abs_int(v.value())
}

proof fn lemma_share(k: u64)
    requires
        2 <= k <= 0x20_0000_0000_0000,
    ensures
        ({
            let share = one().over(Double::from_u64(k));
            let rest = one().minus(share);
            let g = pow2(1074) as int;
            &&& share.finite() && !share.negative() && 1000 * share.magnitude() <= 501 * g
            &&& rest.finite() && !rest.negative() && 1000 * rest.magnitude() >= 498 * g
        }),
{
    let whole = Double::from_u64(k);
    let share = one().over(whole);
    let rest = one().minus(share);
    let g = pow2(1074);
    let s = share.magnitude();
    lemma_one();
    lemma_whole_is_exact(k);
    lemma_positive_whole(k);
    lemma_share_is_finite(k);
    lemma_ratio_is_finite(1, k);
    lemma2_to64();
    lemma_pow2_adds(64, 1010);
    lemma_pow2_pos(1010);
    assert(g >= 0x1_0000_0000_0000) by (nonlinear_arith)
        requires
            g == pow2(64) * pow2(1010),
            pow2(64) >= 0x1_0000_0000_0000,
            pow2(1010) >= 1,
    ;
    let den = k as nat * g;
    assert(den > 0) by (nonlinear_arith)
        requires
            den == k * g,
            k >= 2,
            g > 0,
    ;
    lemma_zero_magnitude(whole);
    reveal(Double::spec_over);
    assert(share.code() == round_code(g * g, den));
    lemma_rounding_error(g * g, den, share);
    let err = abs_int(g * g - den * s) as int;
    let ks = k as nat * s;
    assert(den * s == g * ks) by (nonlinear_arith)
        requires
            den == k * g,
            ks == k * s,
    ;
    assert(g * g - g * ks == g * (g - ks)) by (nonlinear_arith);
    lemma_scaled_size(g as int, g - ks);
    assert(ks >= 2 * s) by (nonlinear_arith)
        requires
            ks == k * s,
            k >= 2,
            s >= 0,
    ;
    assert(1000 * s <= 501 * g) by {
        if err * 0x20_0000_0000_0000 <= den * s {
            assert(abs_int(g - ks) * 0x20_0000_0000_0000 <= ks) by (nonlinear_arith)
                requires
                    err == g * abs_int(g - ks),
                    err * 0x20_0000_0000_0000 <= g * ks,
                    g > 0,
            ;
        } else {
            assert(2 * abs_int(g - ks) <= k) by (nonlinear_arith)
                requires
                    err == g * abs_int(g - ks),
                    2 * err <= k * g,
                    g > 0,
            ;
            assert(s <= g) by (nonlinear_arith)
                requires
                    2 * (k * s - g) <= k,
                    k >= 2,
                    g >= 1,
                    s >= 0,
            ;
            assert(500 * k <= g);
            assert(2 * ks <= 2 * g + k);
        }
    }
    lemma_minus_error(one(), share);
    lemma_neg_value(share);
    lemma_plus_error(one(), share.neg());
    lemma_zero_magnitude(rest);
}

/// A number times a share of at most about a half is at most two thirds of it, or the
/// smallest unit.
proof fn lemma_part(d: Double, share: Double)
    requires
        share.finite(),
        !share.negative(),
        1000 * share.magnitude() <= 501 * pow2(1074),
        d.times(share).finite(),
    ensures
        d.times(share).negative() == d.negative(),
        d.magnitude() != 1 ==> 3 * d.times(share).magnitude() <= 2 * d.magnitude(),
        d.magnitude() == 1 ==> d.times(share).magnitude() <= 1,
{
    let g = pow2(1074);
    let (m, s) = (d.magnitude(), share.magnitude());
    let r = d.times(share).magnitude();
    lemma_factors_are_finite(d, share);
    reveal(Double::spec_times);
    lemma_pow2_pos(1074);
    let num = m * s;
    lemma_rounding_error(num, g, d.times(share));
    assert(1000 * num <= 501 * (g * m)) by (nonlinear_arith)
        requires
            num == m * s,
            1000 * s <= 501 * g,
            m >= 0,
    ;
    let gr = g * r;
    let gm = g * m;
    assert(g * (3 * r) == 3 * gr && g * (2 * m) == 2 * gm && g * (r - 1) == gr - g) by (nonlinear_arith)
        requires
            gr == g * r,
            gm == g * m,
    ;
    if abs_int(num - gr) * 0x20_0000_0000_0000 <= gr {
        assert(3 * gr <= 2 * gm);
        assert(3 * r <= 2 * m) by (nonlinear_arith)
            requires
                g * (3 * r) <= g * (2 * m),
                g > 0,
        ;
    } else {
        assert(2000 * gr <= 1002 * gm + 1000 * g);
        assert(2000 * r <= 1002 * m + 1000) by (nonlinear_arith)
            requires
                2000 * (g * r) <= 1002 * (g * m) + 1000 * g,
                g > 0,
        ;
    }
}

/// What is left of at least two smallest units, after a share of at most about a half is
/// taken away, is not nothing.
proof fn lemma_rest(rest: Double, m: Double)
    requires
        rest.finite(),
        !rest.negative(),
        1000 * rest.magnitude() >= 498 * pow2(1074),
        rest.times(m).finite(),
        m.magnitude() >= 2,
    ensures
        rest.times(m).negative() == m.negative(),
        rest.times(m).magnitude() > 0,
{
    let g = pow2(1074);
    let num = rest.magnitude() * m.magnitude();
    lemma_factors_are_finite(rest, m);
    reveal(Double::spec_times);
    lemma_pow2_pos(1074);
    lemma_rounding_error(num, g, rest.times(m));
    assert(1000 * num >= 996 * g) by (nonlinear_arith)
        requires
            num == rest.magnitude() * m.magnitude(),
            1000 * rest.magnitude() >= 498 * g,
            m.magnitude() >= 2,
            g > 0,
    ;
    if rest.times(m).magnitude() == 0 {
        assert(g * rest.times(m).magnitude() == 0) by (nonlinear_arith)
            requires
                rest.times(m).magnitude() == 0,
        ;
    }
}

proof fn lemma_mean_misses(m: Double, v: Double, k: u64)
    requires
        m.finite(),
        v.finite(),
        2 <= k <= 0x20_0000_0000_0000,
        well_apart(m, v),
    ensures
        !v.same(mean_step(m, v, k)),
{
    let next = mean_step(m, v, k);
    let share = one().over(Double::from_u64(k));
    if next.finite() {
        law_order_is_numeric(v, next);
        lemma_share(k);
        lemma_zero_magnitude(v);
        lemma_zero_magnitude(m);
        if m.negative() == v.negative() {
            let delta = v.minus(m);
            let step = delta.times(share);
            lemma_terms_are_finite(m, step);
            lemma_factors_are_finite(delta, share);
            lemma_minus_error(v, m);
            lemma_part(delta, share);
            lemma_plus_error(m, step);
        } else {
            let rest = one().minus(share);
            let (a, b) = (rest.times(m), share.times(v));
            lemma_terms_are_finite(a, b);
            law_times_commutes(share, v);
            lemma_part(v, share);
            lemma_plus_error(a, b);
            if m.magnitude() >= 2 {
                lemma_rest(rest, m);
            }
            lemma_factors_are_finite(rest, m);
            assert(a.negative() == m.negative()) by {
                reveal(Double::spec_times);
            }
        }
    } else {
        assert(!v.same(next));
    }
}

/// Observations vary if the first one that is not like those before it is well apart
/// from them.
pub proof fn law_separate_values_vary(values: Seq<Double>, j: int)
    requires
        1 <= j < values.len(),
        j < 0x20_0000_0000_0000,
        is_constant(values.take(j)),
        values[j].finite(),
        well_apart(values[0], values[j]),
    ensures
        varies(values),
{
    let start = values.take(j);
    lemma_mean_of_constant(start, j as nat);
    assert(start.take(j) =~= values.take(j));
    lemma_mean_of_prefix(start, values, j as nat);
    let mean = running_mean(values, j as nat);
    assert(start[0] == values[0] && start[0].finite());
    law_order_is_numeric(mean, values[0]);
    law_order_is_numeric(values[j], mean);
    lemma_mean_misses(mean, values[j], (j + 1) as u64);
    assert(departs(values, j));
}

/// Equal observations do not vary.
pub proof fn law_constant_does_not_vary(values: Seq<Double>)
    requires
        is_constant(values),
        values.len() <= u64::MAX,
    ensures
        !varies(values),
{
    assert forall|k: int| 1 <= k < values.len() implies !#[trigger] departs(values, k) by {
        assert(values[k].same(values[0]));
        lemma_mean_of_constant(values, k as nat);
    }
}

/// A running mean depends on the values that it covers alone.
pub proof fn lemma_mean_of_prefix(a: Seq<Double>, b: Seq<Double>, k: nat)
    requires
        1 <= k <= a.len(),
        k <= b.len(),
        a.take(k as int) == b.take(k as int),
    ensures
        running_mean(a, k) == running_mean(b, k),
    decreases k,
{
    let (c, d) = (a.take(k as int), b.take(k as int));
    assert(c[k - 1] == a[k - 1] && d[k - 1] == b[k - 1]);
    assert(c[0] == a[0] && d[0] == b[0]);
    if k > 1 {
        assert(a.take(k - 1) =~= c.take(k - 1));
        assert(b.take(k - 1) =~= d.take(k - 1));
        lemma_mean_of_prefix(a, b, (k - 1) as nat);
    }
}

proof fn lemma_varies_push(values: Seq<Double>, v: Double)
    requires
        values.len() > 0,
    ensures
        varies(values.push(v)) <==> varies(values) || departs(values.push(v), values.len() as int),
{
    let more = values.push(v);
    assert forall|k: int| 1 <= k < values.len() implies #[trigger] departs(values, k) == departs(more, k) by {
        assert(values.take(k) =~= more.take(k));
        assert(values.take(k + 1) =~= more.take(k + 1));
        lemma_mean_of_prefix(values, more, k as nat);
        lemma_mean_of_prefix(values, more, (k + 1) as nat);
    }
    if varies(values) {
        let k = choose|k: int| 1 <= k < values.len() && #[trigger] departs(values, k);
        assert(departs(more, k));
    }
    if varies(more) {
        let k = choose|k: int| 1 <= k < more.len() && #[trigger] departs(more, k);
        if k < values.len() {
            assert(departs(values, k));
        }
    }
}

proof fn lemma_increment(count: u64, mean: Double, v: Double)
    requires
        count > 0,
        mean.finite(),
        v.finite(),
        covariance_step(count, mean, mean, v, v) is Ok,
    ensures
        ({
            let next = mean_step(mean, v, (count + 1) as u64);
            let increment = covariance_step(count, mean, mean, v, v)->Ok_0.2;
            &&& next.finite()
            &&& increment.finite()
            &&& increment.value() == 0 <==> v.same(mean) || v.same(next)
        }),
{
    let next = mean_step(mean, v, (count + 1) as u64);
    let increment = covariance_step(count, mean, mean, v, v)->Ok_0.2;
    assert(difference_product(v, mean, v, next) == Ok::<Double, crate::quality::IssueCode>(increment));
    lemma_difference_is_zero(v, mean);
    lemma_difference_is_zero(v, next);
    let z = zero();
    assert(z.code() == 0);
    lemma_zero_magnitude(z);
    law_order_is_numeric(increment, z);
}

proof fn lemma_difference_is_zero(a: Double, b: Double)
    requires
        a.finite(),
        b.finite(),
    ensures
        a.minus(b).same(zero()) <==> a.same(b),
{
    let z = zero();
    assert(z.code() == 0);
    lemma_zero_magnitude(z);
    law_order_is_numeric(a, b);
    if a.value() == b.value() {
        lemma_minus_equal(a, b);
    } else if a.minus(b).finite() {
        lemma_minus_error(a, b);
        law_order_is_numeric(a.minus(b), z);
    }
}

/// The running mean and the compensated sum of squared deviations of some observations,
/// which is positive exactly if they vary.
pub open spec fn tracks(values: Seq<Double>, mean: Double, sum: Double, compensation: Double) -> bool {
    &&& balanced(sum, compensation, values.len())
    &&& sum.value() > 0 <==> varies(values)
    &&& values.len() > 0 ==> mean == running_mean(values, values.len()) && mean.finite()
}

/// One more observation is tracked.
pub proof fn lemma_tracks(values: Seq<Double>, mean: Double, sum: Double, compensation: Double, v: Double)
    requires
        tracks(values, mean, sum, compensation),
        v.finite(),
        values.len() < 0x100_0000_0000,
        covariance_step(values.len() as u64, mean, mean, v, v) is Ok,
        !covariance_step(values.len() as u64, mean, mean, v, v)->Ok_0.2.lt(zero()),
        compensated_add(sum, compensation, covariance_step(values.len() as u64, mean, mean, v, v)->Ok_0.2) is Ok,
    ensures
        ({
            let (next, _, increment) = covariance_step(values.len() as u64, mean, mean, v, v)->Ok_0;
            let (more, kept) = compensated_add(sum, compensation, increment)->Ok_0;
            tracks(values.push(v), next, more, kept)
        }),
{
    let n = values.len();
    let (next, _, increment) = covariance_step(n as u64, mean, mean, v, v)->Ok_0;
    let all = values.push(v);
    let z = zero();
    assert(z.code() == 0);
    lemma_zero_magnitude(z);
    if n > 0 {
        lemma_increment(n as u64, mean, v);
        lemma_varies_push(values, v);
        assert(values.take(n as int) =~= all.take(n as int));
        lemma_mean_of_prefix(values, all, n);
        assert(all[n as int] == v);
    } else {
        assert(increment == z);
    }
    law_order_is_numeric(increment, z);
    lemma_balanced_step(sum, compensation, increment, n);
}

/// A tracked total is zero exactly if the observations do not vary.
pub proof fn lemma_tracked_total(values: Seq<Double>, mean: Double, sum: Double, compensation: Double)
    requires
        tracks(values, mean, sum, compensation),
        values.len() <= 0x100_0000_0000,
        sum.plus(compensation).finite(),
    ensures
        sum.plus(compensation).same(zero()) <==> !varies(values),
{
    let z = zero();
    let n = values.len();
    let (s, c) = (sum.value(), abs_int(compensation.value()) as int);
    assert(z.code() == 0);
    lemma_zero_magnitude(z);
    law_order_is_numeric(sum.plus(compensation), z);
    lemma_plus_error(sum, compensation);
    assert(c * 0x100 <= s) by (nonlinear_arith)
        requires
            c * 0x1_0000_0000_0000 <= n * s,
            n <= 0x100_0000_0000,
            s >= 0,
    ;
}

} // verus!
