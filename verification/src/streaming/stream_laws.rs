//! What the streaming statistics and the regressing leaves say of the numbers read.

use crate::accuracy::{
    lemma_difference_within, lemma_portion, lemma_product_within, lemma_speck, lemma_sum_within, lemma_within_gap,
    lemma_within_product, portion, speck, within,
};
use crate::data::Matrix;
use crate::double::{law_order_is_numeric, lemma_zero_magnitude, one, zero, Double};
use crate::online::least_squares::{
    abs_real, lemma_real_order, lemma_regroup, lemma_shrunk, lemma_simple_values, lemma_spread, real_of,
};
use crate::online::mean_accuracy::{lemma_grows, lemma_speck_is_small, mean_of};
use crate::online::moment_accuracy::{co_moment, is_scale};
use crate::online::score_accuracy::moderate;
use crate::online::weighted_accuracy::{
    law_weighted_mean_steps, law_weights_add_up_to_one, lemma_same_weighted, near_weighted_mean, values_of, weighted_mean,
};
use crate::scaling::{lemma_factors_are_finite, lemma_terms_are_finite};
use crate::streaming::columns::ColumnState;
use crate::streaming::hoeffding::TreeLeaf;
use crate::streaming::plain_accuracy::{gathered, law_spread_is_that_of_its_numbers, paired_up, plain_cross, plain_mean};
use crate::streaming::scalers::{OnlineStandardScaler, Welford};
use crate::streaming::statistics::{pairs_after, partner, EwMean, EwVar, OnlineAutoCorr, PairMoments};
use crate::streaming::tree_history::fed_all;
use crate::streaming::trees::HrLeaf;
use vstd::arithmetic::power2::*;
use vstd::prelude::*;

verus! {

proof fn lemma_leaf_targets(id: u64, p: nat, rows: Seq<Seq<Double>>, y: Seq<Double>, k: nat)
    ensures
        fed_all::<HrLeaf>(HrLeaf::fresh(id, p), rows, y, k).y == gathered(y, k),
    decreases k,
{
    if k > 0 {
        lemma_leaf_targets(id, p, rows, y, (k - 1) as nat);
    }
}

/// A regressing leaf answers with the mean of the targets of its rows, up to `40 n` parts
/// in `2^52` of their size.
pub proof fn law_leaf_answers_the_mean(id: u64, p: nat, rows: Seq<Seq<Double>>, y: Seq<Double>, b: real)
    requires
        0 < y.len() <= 0x10_0000,
        moderate(y, b),
        is_scale(b),
        plain_cross(y, y, y.len()).finite(),
        plain_mean(y, y.len()).finite(),
    ensures
        within(
            real_of(HrLeaf::answer(fed_all::<HrLeaf>(HrLeaf::fresh(id, p), rows, y, y.len()))) - mean_of(y, y.len()),
            portion((y.len() as real) * (40real * b)),
        ),
{
    lemma_leaf_targets(id, p, rows, y, y.len());
    law_spread_is_that_of_its_numbers(y, b);
}

/// The moments of a lag-one correlation are those of the pairs of neighbours.
pub proof fn law_neighbours_are_paired(values: Seq<Double>, k: nat)
    requires
        0 < k <= values.len(),
        forall|i: int| 0 <= i < values.len() ==> (#[trigger] values[i]).is_finite(),
    ensures
        OnlineAutoCorr::blank().after(values, k).last == Some(values[k - 1]),
        OnlineAutoCorr::blank().after(values, k).moments == paired_up(values, values.skip(1), (k - 1) as nat),
        OnlineAutoCorr::blank().after(values, k).value() == paired_up(
            values,
            values.skip(1),
            (k - 1) as nat,
        ).correlation(),
    decreases k,
{
    assert(values[k - 1].is_finite());
    if k == 1 {
        assert(OnlineAutoCorr::blank().after(values, 0) == OnlineAutoCorr::blank());
        assert(paired_up(values, values.skip(1), 0) == PairMoments::fresh());
    } else {
        law_neighbours_are_paired(values, (k - 1) as nat);
        assert(values.skip(1)[k - 2] == values[k - 1]);
    }
}

/// The moments of a batch of finite pairs are those of its first column and its partners.
pub proof fn law_batch_pairs_are_paired(x: &Matrix, y: Option<Seq<Double>>, k: nat)
    requires
        forall|i: int| 0 <= i < k ==> (#[trigger] x.at(i, 0)).is_finite() && partner(x, y, i).is_finite(),
    ensures
        pairs_after(PairMoments::fresh(), x, y, k) == paired_up(
            Seq::new(k, |i: int| x.at(i, 0)),
            Seq::new(k, |i: int| partner(x, y, i)),
            k,
        ),
    decreases k,
{
    if k > 0 {
        let j = (k - 1) as nat;
        law_batch_pairs_are_paired(x, y, j);
        assert(x.at(k - 1, 0).is_finite());
        lemma_same_pairs(
            Seq::new(j, |i: int| x.at(i, 0)),
            Seq::new(j, |i: int| partner(x, y, i)),
            Seq::new(k, |i: int| x.at(i, 0)),
            Seq::new(k, |i: int| partner(x, y, i)),
            j,
        );
    }
}

proof fn lemma_same_pairs(a: Seq<Double>, b: Seq<Double>, c: Seq<Double>, d: Seq<Double>, k: nat)
    requires
        forall|i: int| 0 <= i < k ==> #[trigger] a[i] == c[i],
        forall|i: int| 0 <= i < k ==> #[trigger] b[i] == d[i],
    ensures
        paired_up(a, b, k) == paired_up(c, d, k),
    decreases k,
{
    if k > 0 {
        lemma_same_pairs(a, b, c, d, (k - 1) as nat);
    }
}

/// A step that is close to the exact one keeps a weighted mean close.
proof fn lemma_close_step_keeps_near(z: Seq<Double>, x: Double, a: real, mean: Double, next: Double, b: real)
    requires
        0real < a <= 1real,
        0 < z.len() < 0x100_0000_0000,
        near_weighted_mean(z, a, mean, b),
        moderate(z.push(x), b),
        b > 0real,
        next.finite(),
        within(real_of(next) - ((1real - a) * real_of(mean) + a * real_of(x)), portion(20real * b)),
    ensures
        near_weighted_mean(z.push(x), a, next, b),
{
    let k = z.len();
    let us = values_of(z.push(x));
    let vs = values_of(z);
    let (m, e) = (real_of(mean), weighted_mean(vs, a, k));
    assert(z.push(x)[k as int] == x);
    law_weighted_mean_steps(us, a, k + 1);
    assert forall|i: int| 0 <= i < k implies #[trigger] vs[i] == us[i] by {
        assert(z.push(x)[i] == z[i]);
    }
    lemma_same_weighted(vs, us, a, (k - 1) as nat, k);
    lemma_spread(1real - a, m, e);
    if a < 1real {
        lemma_shrunk(1real - a, m - e);
    } else {
        lemma_spread(m - e, 0real, 0real);
    }
    lemma_spread(b, k as real, 1real);
}

proof fn lemma_near_mean_is_bounded(z: Seq<Double>, a: real, mean: Double, b: real)
    requires
        0real < a <= 1real,
        0 < z.len() <= 0x100_0000_0000,
        near_weighted_mean(z, a, mean, b),
        moderate(z, b),
        b > 0real,
    ensures
        within(real_of(mean), 2real * b),
{
    let vs = values_of(z);
    assert forall|i: int| 0 <= i < z.len() implies within(#[trigger] vs[i], b) by {
        assert(z[i].finite());
    }
    law_weights_add_up_to_one(vs, a, z.len(), b);
    lemma_grows(z.len() as real, 1099511627776real, b);
}

proof fn lemma_faded_step(fade: Double, mean: Double, v: Double, b: real)
    requires
        fade.finite(),
        0real < real_of(fade) < 1real,
        within(real_of(mean), 2real * b),
        within(real_of(v), b),
        speck() <= portion(b),
        b > 0real,
        fade.times(mean).plus(one().minus(fade).times(v)).finite(),
    ensures
        within(
            real_of(fade.times(mean).plus(one().minus(fade).times(v))) - (real_of(fade) * real_of(mean) + (1real - real_of(
                fade,
            )) * real_of(v)),
            portion(20real * b),
        ),
{
    let rest = one().minus(fade);
    let (p, q) = (fade.times(mean), rest.times(v));
    let (f, m, x, d) = (real_of(fade), real_of(mean), real_of(v), real_of(rest));
    lemma_terms_are_finite(p, q);
    lemma_factors_are_finite(rest, v);
    lemma_simple_values();
    lemma_difference_within(one(), fade, 1real);
    lemma_within_product(f, 1real, m, 2real * b);
    lemma_product_within(fade, mean, 2real * b);
    lemma_within_product(d, 2real, x, b);
    lemma_product_within(rest, v, 2real * b);
    lemma_within_gap(d, x, 1real - f, x, portion(1real), b, 1real, 0real);
    lemma_portion(b, 1real);
    lemma_spread(b, portion(1real), 0real);
    lemma_sum_within(p, q, 6real * b);
}

/// A fading factor below one, as a real number.
proof fn lemma_fade(fade: Double)
    requires
        fade.is_finite(),
        fade.gt(zero()),
        !fade.ge(one()),
    ensures
        0real < real_of(fade) < 1real,
{
    let z = zero();
    let unit = one();
    assert(z.code() == 0);
    assert(unit.code() == 0x3ff0_0000_0000_0000);
    lemma_zero_magnitude(z);
    law_order_is_numeric(z, fade);
    law_order_is_numeric(unit, fade);
    lemma_simple_values();
    lemma_real_order(fade, z);
    lemma_real_order(unit, fade);
}

proof fn lemma_faded_state(fading: Double, fade: Double, values: Seq<Double>, k: nat, b: real)
    requires
        fade.is_finite(),
        fade.gt(zero()),
        !fade.ge(one()),
        0 < k <= values.len() <= 0x10_0000,
        moderate(values, b),
        speck() <= portion(b),
        b > 0real,
        EwMean::blank(fading).after(values, fade, k).mean.finite(),
    ensures
        EwMean::blank(fading).after(values, fade, k).initialized,
        near_weighted_mean(
            values.take(k as int),
            1real - real_of(fade),
            EwMean::blank(fading).after(values, fade, k).mean,
            b,
        ),
    decreases k,
{
    let s = EwMean::blank(fading).after(values, fade, (k - 1) as nat);
    let next = EwMean::blank(fading).after(values, fade, k);
    let v = values[k - 1];
    let a = 1real - real_of(fade);
    let z = values.take(k as int);
    lemma_fade(fade);
    assert(v.finite());
    if k == 1 {
        assert(s == EwMean::blank(fading));
        assert(z =~= seq![v]);
        law_weighted_mean_steps(values_of(z), a, 1);
        lemma_spread(b, 1real, 0real);
    } else {
        let j = (k - 1) as nat;
        let was = values.take(j as int);
        assert(z =~= was.push(v));
        assert(s.initialized) by {
            lemma_started(fading, fade, values, j);
        }
        lemma_terms_are_finite(fade.times(s.mean), one().minus(fade).times(v));
        lemma_factors_are_finite(fade, s.mean);
        lemma_faded_state(fading, fade, values, j, b);
        assert(moderate(was, b)) by {
            assert forall|i: int| 0 <= i < was.len() implies (#[trigger] was[i]).finite() && within(real_of(was[i]), b) by {
                assert(was[i] == values[i]);
            }
        }
        assert(moderate(z, b)) by {
            assert forall|i: int| 0 <= i < z.len() implies (#[trigger] z[i]).finite() && within(real_of(z[i]), b) by {
                assert(z[i] == values[i]);
            }
        }
        lemma_near_mean_is_bounded(was, a, s.mean, b);
        lemma_faded_step(fade, s.mean, v, b);
        lemma_close_step_keeps_near(was, v, a, s.mean, next.mean, b);
    }
}

proof fn lemma_started(fading: Double, fade: Double, values: Seq<Double>, k: nat)
    requires
        0 < k <= values.len(),
        forall|i: int| 0 <= i < values.len() ==> (#[trigger] values[i]).finite(),
    ensures
        EwMean::blank(fading).after(values, fade, k).initialized,
    decreases k,
{
    assert(values[k - 1].finite());
    if k > 1 {
        lemma_started(fading, fade, values, (k - 1) as nat);
    } else {
        assert(EwMean::blank(fading).after(values, fade, 0) == EwMean::blank(fading));
    }
}

/// With a fading factor below one the mean is the weighted mean of the numbers read, up to
/// `20 n` parts in `2^52` of their size: the first starts with weight one, the others with
/// one less the factor, and each later one scales the old weights by the factor.
pub proof fn law_faded_mean_is_the_mean(fading: Double, values: Seq<Double>, b: real)
    requires
        fading.is_finite(),
        fading.gt(zero()),
        fading.lt(one()),
        0 < values.len() <= 0x10_0000,
        moderate(values, b),
        speck() <= portion(b),
        EwMean::blank(fading).after(values, fading, values.len()).mean.finite(),
    ensures
        EwMean::blank(fading).fade() == fading,
        ({
            let n = values.len() as real;
            let s = EwMean::blank(fading).after(values, fading, values.len());
            within(
                real_of(s.value()) - weighted_mean(values_of(values), 1real - real_of(fading), values.len()),
                portion(20real * (n * b)),
            )
        }),
{
    let unit = one();
    assert(unit.code() == 0x3ff0_0000_0000_0000);
    lemma_speck();
    lemma_faded_state(fading, fading, values, values.len(), b);
    assert(values.take(values.len() as int) =~= values);
}

/// A column after the first `k` entries.
pub open spec fn column_after(values: Seq<Double>, k: nat) -> Welford
    decreases k,
{
    if k == 0 {
        OnlineStandardScaler::fresh()
    } else {
        column_after(values, (k - 1) as nat).seen(zero(), values[k - 1])
    }
}

proof fn lemma_column_is_a_spread(values: Seq<Double>, k: nat)
    ensures
        column_after(values, k) == (Welford {
            count: gathered(values, k).n,
            mean: gathered(values, k).mean,
            m2: gathered(values, k).m2,
        }),
    decreases k,
{
    if k > 0 {
        lemma_column_is_a_spread(values, (k - 1) as nat);
    }
}

/// The count, the mean and the squared deviations of a column of the standard scaler are
/// those of its finite entries, up to rounding.
pub proof fn law_scaled_column_is_that_of_its_entries(values: Seq<Double>, b: real)
    requires
        0 < values.len() <= 0x10_0000,
        moderate(values, b),
        is_scale(b),
        plain_cross(values, values, values.len()).finite(),
        plain_mean(values, values.len()).finite(),
    ensures
        ({
            let c = column_after(values, values.len());
            let n = values.len() as real;
            &&& real_of(c.count) == n
            &&& within(real_of(c.mean) - mean_of(values, values.len()), portion(n * (40real * b)))
            &&& within(real_of(c.m2) - co_moment(values, values, values.len()), portion(500real * (n * (n * (b * b)))))
        }),
{
    lemma_column_is_a_spread(values, values.len());
    law_spread_is_that_of_its_numbers(values, b);
}

/// One more number makes the weights of a faded variance fade and adds one to their sum,
/// and adds the product of its deviations from the old and the new mean to the faded
/// squares, each up to rounding.
pub proof fn law_faded_variance_steps(s: EwVar, v: Double, fade: Double, b: real)
    requires
        v.finite(),
        s.w.finite(),
        s.w.value() > 0,
        real_of(s.w) >= 1real,
        fade.finite(),
        0real < real_of(fade) <= 1real,
        within(real_of(v), b),
        within(real_of(s.mean), 2real * b),
        within(real_of(s.shown(v, fade).mean), 2real * b),
        speck() <= portion(b),
        speck() <= portion(b * b),
        b > 0real,
        s.shown(v, fade).mean.finite(),
        s.shown(v, fade).m2.finite(),
        s.shown(v, fade).w.finite(),
    ensures
        ({
            let next = s.shown(v, fade);
            let (f, w, m, x) = (real_of(fade), real_of(s.w), real_of(s.mean), real_of(v));
            let (u, k) = (real_of(next.w), real_of(next.mean));
            let d = real_of(v.minus(s.mean));
            &&& within(u - (f * w + 1real), portion(6real * w))
            &&& within(d - (x - m), portion(3real * b))
            &&& within(
                real_of(next.m2) - (f * real_of(s.m2) + (x - m) * (x - k)),
                portion(60real * (b * b) + 4real * abs_real(real_of(s.m2))),
            )
        }),
{
    let next = s.shown(v, fade);
    let z = zero();
    let unit = one();
    assert(z.code() == 0);
    lemma_zero_magnitude(z);
    law_order_is_numeric(s.w, z);
    lemma_simple_values();
    lemma_speck_is_small();
    let (f, w, m, x) = (real_of(fade), real_of(s.w), real_of(s.mean), real_of(v));
    let fw = fade.times(s.w);
    lemma_terms_are_finite(fw, unit);
    lemma_within_product(f, 1real, w, w);
    lemma_product_within(fade, s.w, w);
    lemma_sum_within(fw, unit, 3real * w);
    let d = v.minus(s.mean);
    let e = v.minus(next.mean);
    let (fm, de) = (fade.times(s.m2), d.times(e));
    let size = abs_real(real_of(s.m2));
    let q = b * b;
    lemma_terms_are_finite(fm, de);
    lemma_factors_are_finite(d, e);
    lemma_difference_within(v, s.mean, 3real * b);
    lemma_difference_within(v, next.mean, 3real * b);
    lemma_within_product(f, 1real, real_of(s.m2), size);
    lemma_product_within(fade, s.m2, size);
    let (rd, re) = (real_of(d), real_of(e));
    let t = portion(3real * b);
    lemma_within_gap(rd, re, x - m, x - real_of(next.mean), t, 4real * b, 3real * b, t);
    assert(t * (4real * b) + (3real * b) * t == portion(21real * q)) by {
        lemma_portion(b, 3real * b);
        lemma_regroup(b, 3real, b);
        lemma_regroup(t, 4real, b);
        lemma_regroup(3real, b, t);
        lemma_spread(t, b, 0real);
        assert(b * t == portion(3real * q));
    }
    lemma_within_product(rd, 4real * b, re, 4real * b);
    assert((4real * b) * (4real * b) == 16real * q) by {
        lemma_regroup(4real * b, 4real, b);
        lemma_regroup(4real, b, b);
        lemma_spread(4real * b, b, 0real);
    }
    lemma_product_within(d, e, 16real * q);
    lemma_sum_within(fm, de, 2real * size + 18real * q);
}

} // verus!
