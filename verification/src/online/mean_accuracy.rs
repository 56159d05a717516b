//! How close running means are to arithmetic means.

use crate::accuracy::{
    law_quotient_is_close, lemma_difference_within, lemma_portion, lemma_product_within, lemma_speck, lemma_sum_within,
    lemma_within_gap, lemma_within_product, portion, speck, within,
};
use crate::double::{
    lemma_one, lemma_share_is_finite, lemma_whole_is_exact, one, Double,
};
use crate::online::common::mean_step;
use crate::online::least_squares::{
    abs_real, lemma_cancel, lemma_casts, lemma_divided, lemma_over, lemma_regroup, lemma_scaled_abs, lemma_shrunk,
    lemma_simple_values, lemma_spread, lemma_units, real_of,
};
use crate::online::spread::running_mean;
use crate::scaling::{lemma_factors_are_finite, lemma_terms_are_finite};
use vstd::arithmetic::power2::*;
use vstd::prelude::*;

verus! {

/// The smallest unit is far below one.
pub proof fn lemma_speck_is_small()
    ensures
        0real < speck() <= portion(1real),
{
    lemma_speck();
    lemma2_to64();
    lemma_pow2_adds(64, 1010);
    lemma_pow2_pos(1010);
    let u = pow2(1074) as int;
    assert(u >= 0x10_0000_0000_0000) by (nonlinear_arith)
        requires
            u == pow2(64) * pow2(1010),
            pow2(64) >= 0x10_0000_0000_0000,
            pow2(1010) >= 1,
    ;
    let g = pow2(1074) as real;
    let s = speck();
    assert(4503599627370496real * s <= g * s) by (nonlinear_arith)
        requires
            4503599627370496real <= g,
            s > 0real,
    ;
}

/// The value of a whole number.
pub proof fn lemma_whole_value(n: u64)
    requires
        n <= 0x20_0000_0000_0000,
    ensures
        Double::from_u64(n).finite(),
        real_of(Double::from_u64(n)) == n as real,
{
    let d = Double::from_u64(n);
    let g = pow2(1074) as real;
    lemma_whole_is_exact(n);
    lemma_units(d);
    lemma_casts(n as int, pow2(1074) as int);
    lemma_spread(g, n as real, 0real);
    lemma_cancel(g, real_of(d), n as real);
}

/// One over a whole number.
pub open spec fn share_of(n: nat) -> real {
    1real / (n as real)
}

/// One over a positive whole number is between zero and one.
pub proof fn lemma_share_of(n: nat)
    requires
        n > 0,
    ensures
        (n as real) * share_of(n) == 1real,
        0real < share_of(n) <= 1real,
{
    let w = share_of(n);
    lemma_over(1real, n as real);
    if w <= 0real {
        lemma_scaled_abs(n as real, -w);
    }
    if w > 1real {
        lemma_scaled_abs(n as real, w - 1real);
        lemma_spread(n as real, w, 1real);
    }
}

/// The rounded share of a whole number is close to the exact one.
pub proof fn lemma_share_is_close(n: u64)
    requires
        0 < n <= 0x20_0000_0000_0000,
    ensures
        one().over(Double::from_u64(n)).finite(),
        one().minus(one().over(Double::from_u64(n))).finite(),
        abs_real(real_of(one().over(Double::from_u64(n))) - share_of(n as nat)) <= portion(2real),
        abs_real(real_of(one().over(Double::from_u64(n)))) <= 2real,
{
    let d = Double::from_u64(n);
    let s = real_of(one().over(d));
    let w = share_of(n as nat);
    let m = n as real;
    lemma_share_is_finite(n);
    lemma_whole_value(n);
    lemma_one();
    lemma_whole_is_exact(n);
    lemma_pow2_pos(1074);
    assert(d.value() != 0) by (nonlinear_arith)
        requires
            d.value() == n * pow2(1074),
            n > 0,
            pow2(1074) > 0,
    ;
    law_quotient_is_close(one(), d);
    lemma_simple_values();
    lemma_share_of(n as nat);
    lemma_speck_is_small();
    lemma_spread(m, s, w);
    assert(m * (s - w) == s * m - 1real);
    lemma_scaled_abs(m, s - w);
    assert(m * abs_real(s - w) == abs_real(s * m - 1real));
    lemma_spread(m, portion(1real), speck());
    assert(portion(1real) <= m * portion(1real)) by {
        lemma_scaled_abs(portion(1real), m - 1real);
        lemma_spread(portion(1real), m, 1real);
    }
    assert(speck() * abs_real(m) == m * speck()) by {
        lemma_spread(m, speck(), 0real);
    }
    lemma_divided(m, abs_real(s - w), portion(1real) + speck());
}

/// A step by a share of the difference is close to the exact one.
pub proof fn lemma_direct_step(m: Double, x: Double, share: Double, w: real, b: real)
    requires
        within(real_of(m), b),
        within(real_of(x), b),
        speck() <= portion(b),
        within(real_of(share) - w, portion(2real)),
        within(real_of(share), 2real),
        within(w, 1real),
        m.plus(x.minus(m).times(share)).finite(),
    ensures
        within(
            real_of(m.plus(x.minus(m).times(share))) - (real_of(m) + (real_of(x) - real_of(m)) * w),
            portion(20real * b),
        ),
{
    let d = x.minus(m);
    let t = d.times(share);
    let (rm, rx, s, rd, rt) = (real_of(m), real_of(x), real_of(share), real_of(d), real_of(t));
    let gap = rx - rm;
    lemma_terms_are_finite(m, t);
    lemma_factors_are_finite(d, share);
    lemma_difference_within(x, m, 2real * b);
    lemma_within_gap(rd, s, gap, w, portion(2real * b), 2real, 2real * b, portion(2real));
    lemma_portion(2real * b, 2real);
    lemma_within_product(rd, 3real * b, s, 2real);
    lemma_product_within(d, share, 6real * b);
    lemma_within_product(gap, 2real * b, w, 1real);
    lemma_sum_within(m, t, 4real * b);
}

proof fn lemma_mixed_step(m: Double, x: Double, share: Double, w: real, b: real)
    requires
        within(real_of(m), b),
        within(real_of(x), b),
        speck() <= portion(b),
        within(real_of(share) - w, portion(2real)),
        within(real_of(share), 2real),
        0real <= w <= 1real,
        one().minus(share).finite(),
        one().minus(share).times(m).plus(share.times(x)).finite(),
    ensures
        within(
            real_of(one().minus(share).times(m).plus(share.times(x))) - ((1real - w) * real_of(m) + w * real_of(x)),
            portion(20real * b),
        ),
{
    let rest = one().minus(share);
    let (p, q) = (rest.times(m), share.times(x));
    let (rm, rx, s, rr, rp, rq) = (real_of(m), real_of(x), real_of(share), real_of(rest), real_of(p), real_of(q));
    lemma_terms_are_finite(p, q);
    lemma_simple_values();
    lemma_difference_within(one(), share, 3real);
    lemma_within_gap(rr, rm, 1real - w, rm, portion(5real), b, 1real, 0real);
    lemma_within_gap(s, rx, w, rx, portion(2real), b, 1real, 0real);
    lemma_portion(b, 5real);
    lemma_portion(b, 2real);
    lemma_spread(b, portion(5real), portion(2real));
    lemma_spread(b, portion(2real), portion(5real));
    lemma_within_product(rr, 2real, rm, b);
    lemma_within_product(s, 2real, rx, b);
    lemma_product_within(rest, m, 2real * b);
    lemma_product_within(share, x, 2real * b);
    lemma_within_product(1real - w, 1real, rm, b);
    lemma_within_product(w, 1real, rx, b);
    lemma_sum_within(p, q, 3real * b);
}

/// One step of a running mean is close to the exact step.
pub proof fn law_mean_step_is_close(m: Double, x: Double, n: u64, b: real)
    requires
        0 < n <= 0x20_0000_0000_0000,
        within(real_of(m), b),
        within(real_of(x), b),
        speck() <= portion(b),
        mean_step(m, x, n).finite(),
    ensures
        within(
            real_of(mean_step(m, x, n)) - (real_of(m) + (real_of(x) - real_of(m)) * share_of(n as nat)),
            portion(20real * b),
        ),
{
    let share = one().over(Double::from_u64(n));
    let w = share_of(n as nat);
    lemma_share_is_close(n);
    lemma_share_of(n as nat);
    if m.is_sign_negative() == x.is_sign_negative() {
        lemma_direct_step(m, x, share, w, b);
    } else {
        lemma_mixed_step(m, x, share, w, b);
        lemma_spread(real_of(m), 1real, w);
        lemma_spread(w, real_of(x), real_of(m));
    }
}

/// The sum of the first `k` values.
pub open spec fn total_of(values: Seq<Double>, k: nat) -> real
    decreases k,
{
    if k == 0 {
        0real
    } else {
        total_of(values, (k - 1) as nat) + real_of(values[k - 1])
    }
}

/// The arithmetic mean of the first `k` values.
pub open spec fn mean_of(values: Seq<Double>, k: nat) -> real {
    total_of(values, k) / (k as real)
}

/// The first `k` values are at most `b` in size.
pub open spec fn bounded(values: Seq<Double>, k: nat, b: real) -> bool {
    forall|i: int| 0 <= i < k ==> within(real_of(#[trigger] values[i]), b)
}

/// The mean of `k` values follows from that of one fewer, and is not larger than they are.
pub proof fn lemma_mean_of(values: Seq<Double>, k: nat, b: real)
    requires
        k > 0,
        bounded(values, k, b),
    ensures
        (k as real) * mean_of(values, k) == total_of(values, k),
        within(mean_of(values, k), b),
        k > 1 ==> mean_of(values, k) == mean_of(values, (k - 1) as nat) + (real_of(values[k - 1]) - mean_of(
            values,
            (k - 1) as nat,
        )) * share_of(k),
        k == 1 ==> mean_of(values, k) == real_of(values[0]),
    decreases k,
{
    let n = k as real;
    let e = mean_of(values, k);
    let x = real_of(values[k - 1]);
    lemma_over(total_of(values, k), n);
    assert(within(x, b));
    if k == 1 {
        assert(total_of(values, 0) == 0real);
        assert(total_of(values, 1) == x);
        assert(n == 1real);
        assert(n * x == x) by {
            lemma_spread(x, 1real, 0real);
        }
        lemma_cancel(n, e, x);
    } else {
        let j = (k - 1) as nat;
        let before = mean_of(values, j);
        let w = share_of(k);
        lemma_mean_of(values, j, b);
        lemma_share_of(k);
        let step = before + (x - before) * w;
        lemma_spread(n, before, (x - before) * w);
        lemma_regroup(n, x - before, w);
        lemma_spread(before, n, 1real);
        assert(n * step == n * before + (x - before));
        assert(n * e == (j as real) * before + x);
        assert(n * before == (j as real) * before + before) by {
            lemma_spread(before, j as real, 1real);
            lemma_spread(before, n, 1real);
        }
        lemma_cancel(n, e, step);
        lemma_shrunk(w, x - before);
        lemma_spread(w, x - before, 0real);
    }
}

/// Every running mean of the first `k` values is finite.
pub open spec fn means_are_finite(values: Seq<Double>, k: nat) -> bool {
    forall|j: nat| 1 <= j <= k ==> (#[trigger] running_mean(values, j)).finite()
}

/// A larger factor makes a larger product.
pub proof fn lemma_grows(a: real, b: real, x: real)
    by (nonlinear_arith)
    requires
        a <= b,
        x >= 0real,
    ensures
        a * x <= b * x,
{
}

/// The running mean of the first `k` values is their arithmetic mean, up to `40 k` parts in
/// `2^52` of their size, as long as there are no more than `2^40`.
pub proof fn law_running_mean_is_close(values: Seq<Double>, k: nat, b: real)
    requires
        0 < k <= 0x100_0000_0000,
        bounded(values, k, b),
        speck() <= portion(b),
        means_are_finite(values, k),
    ensures
        within(real_of(running_mean(values, k)) - mean_of(values, k), portion((k as real) * (40real * b))),
        within(real_of(running_mean(values, k)), 2real * b),
        within(mean_of(values, k), b),
    decreases k,
{
    lemma_speck();
    lemma_mean_of(values, k, b);
    assert(running_mean(values, k).finite());
    let c = 40real * b;
    lemma_grows(k as real, 1099511627776real, c);
    if k == 1 {
        assert(running_mean(values, 1) == values[0]);
        assert(k as real == 1real);
        lemma_spread(c, 1real, 0real);
    } else {
        let j = (k - 1) as nat;
        assert(means_are_finite(values, j));
        law_running_mean_is_close(values, j, b);
        let m = running_mean(values, j);
        let x = values[k - 1];
        assert(within(real_of(x), b));
        assert(m.finite());
        law_mean_step_is_close(m, x, k as u64, 2real * b);
        lemma_share_of(k);
        let w = share_of(k);
        let (rm, rx, e) = (real_of(m), real_of(x), mean_of(values, j));
        lemma_spread(w, rx, rm);
        lemma_spread(w, rx, e);
        lemma_spread(w, rm, e);
        lemma_one_less(w, rm - e);
        lemma_spread(c, k as real, j as real);
        lemma_spread(c, j as real, 1real);
    }
}

proof fn lemma_one_less(w: real, x: real)
    requires
        0real < w <= 1real,
    ensures
        x >= 0real ==> 0real <= x - w * x <= x,
        x < 0real ==> x <= x - w * x <= 0real,
{
    lemma_shrunk(w, x);
}

} // verus!
