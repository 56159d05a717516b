//! What decides a split, and what a forest answers.

use crate::accuracy::{
    law_quotient_is_close, law_root_is_close, lemma_difference_within, lemma_portion, lemma_product_within, lemma_speck,
    lemma_sum_within, lemma_within_gap, lemma_within_product, portion, speck, within,
};
use crate::constants::{half, neg_one};
use crate::data::Batch;
use crate::double::{
    law_order_is_numeric, law_rounding_is_monotone, law_rounding_keeps_representable, law_times_commutes, lemma_fraction_shrinks,
    lemma_one, lemma_times_zero, lemma_whole_is_exact, lemma_wholes_add, lemma_zero,
    lemma_zero_magnitude, one, zero, Double,
};
use crate::functions::Curve;
use crate::online::least_squares::{
    abs_real, lemma_cancel, lemma_divided, lemma_over, lemma_product_sign, lemma_real_order, lemma_regroup,
    lemma_scaled_abs, lemma_simple_values, lemma_spread, lemma_units, real_of,
};
use crate::online::mean_accuracy::{lemma_grows, lemma_speck_is_small, lemma_whole_value};
use crate::scaling::{lemma_factors_are_finite, lemma_terms_are_finite};
use crate::streaming::forest::ForestState;
use crate::streaming::hoeffding::{gini, hoeffding_bound, reached, Grove, Race, SplitRule, TreeLeaf};
use crate::streaming::patches::{ayes, carried};
use crate::streaming::tree_history::{fed_all, lemma_fed_counts, tally};
use crate::streaming::trees::{HtLeaf, HtState};
use vstd::arithmetic::power2::*;
use vstd::prelude::*;

verus! {

/// A race after the first `k` candidates, given by their columns, thresholds and gains.
pub open spec fn raced(c: Seq<(usize, Double, Double)>, k: nat) -> Race
    decreases k,
{
    if k == 0 {
        Race::open()
    } else {
        raced(c, (k - 1) as nat).joined(c[k - 1].0, c[k - 1].1, c[k - 1].2)
    }
}

/// A gain that takes part in a race: a number above minus one.
pub open spec fn takes_part(gain: Double) -> bool {
    gain.is_finite() && neg_one().lt(gain)
}

proof fn lemma_race_order(a: Double, b: Double)
    requires
        a.is_finite(),
        b.is_finite(),
    ensures
        a.gt(b) == (a.value() > b.value()),
{
    law_order_is_numeric(b, a);
    law_order_is_numeric(a, b);
}

/// A race finds the best candidate: of at least one that takes part, the winner's column,
/// threshold and gain are those of one candidate, no other has a larger gain, and the
/// runner-up's gain is the largest of all others, or minus one if there are none.
pub proof fn law_race_finds_the_best(c: Seq<(usize, Double, Double)>, k: nat) -> (at: int)
    requires
        0 < k <= c.len(),
        forall|i: int| 0 <= i < k ==> takes_part((#[trigger] c[i]).2),
    ensures
        0 <= at < k,
        c[at] == (raced(c, k).feature, raced(c, k).threshold, raced(c, k).gain),
        forall|i: int| 0 <= i < k ==> (#[trigger] c[i]).2.value() <= raced(c, k).gain.value(),
        forall|i: int| 0 <= i < k && i != at ==> (#[trigger] c[i]).2.value() <= raced(c, k).second.value(),
        raced(c, k).second == neg_one() || exists|i: int| 0 <= i < k && i != at && (#[trigger] c[i]).2 == raced(c, k).second,
        raced(c, k).second.is_finite(),
        k == 1 ==> raced(c, k).second == neg_one(),
    decreases k,
{
    let low = neg_one();
    assert(low.code() == 0x3ff0_0000_0000_0000);
    let last = c[k - 1];
    assert(takes_part(last.2));
    law_order_is_numeric(low, last.2);
    lemma_race_order(last.2, low);
    if k == 1 {
        assert(raced(c, 0) == Race::open());
        0
    } else {
        let j = (k - 1) as nat;
        let before = raced(c, j);
        let won = law_race_finds_the_best(c, j);
        assert(takes_part(c[won].2));
        lemma_race_order(last.2, before.gain);
        lemma_race_order(last.2, before.second);
        law_order_is_numeric(low, before.gain);
        if last.2.gt(before.gain) {
            assert(raced(c, k).second == c[won].2);
            assert(won != k - 1);
            k - 1
        } else {
            if last.2.gt(before.second) {
                assert(c[k - 1].2 == raced(c, k).second);
                assert(k - 1 != won);
            } else if before.second != low {
                let i = choose|i: int| 0 <= i < j && i != won && (#[trigger] c[i]).2 == before.second;
                assert(c[i].2 == raced(c, k).second);
            }
            won
        }
    }
}

/// Trees among the first `k` that answer one.
pub open spec fn supporters(trees: Seq<Grove<HtState>>, row: Seq<Double>, k: nat) -> nat
    decreases k,
{
    if k == 0 {
        0
    } else {
        supporters(trees, row, (k - 1) as nat) + if HtLeaf::answer(reached(trees[k - 1].root, row)) == one() {
            1nat
        } else {
            0nat
        }
    }
}

proof fn lemma_answers(s: HtState)
    ensures
        HtLeaf::answer(s) == one() || HtLeaf::answer(s) == zero(),
        one() != zero(),
{
    assert(one().bits == 0x3ff0_0000_0000_0000);
}

proof fn lemma_votes_count(f: ForestState, x: Batch, i: int, k: nat)
    requires
        k <= f.trees.len(),
        k <= 0x20_0000_0000_0000,
    ensures
        supporters(f.trees, x.rows[i], k) <= k,
        f.votes(x, i, k) == Double::from_u64(supporters(f.trees, x.rows[i], k) as u64),
    decreases k,
{
    if k == 0 {
        lemma_zero();
    } else {
        lemma_votes_count(f, x, i, (k - 1) as nat);
        let s = supporters(f.trees, x.rows[i], (k - 1) as nat);
        lemma_answers(reached(f.trees[k - 1].root, x.rows[i]));
        lemma_one();
        lemma_zero();
        lemma_wholes_add(s as u64, 1);
        lemma_wholes_add(s as u64, 0);
    }
}

proof fn lemma_half_of_whole(n: u64)
    requires
        n <= 0x10_0000_0000_0000,
    ensures
        Double::from_u64(n).times(half()).finite(),
        2 * Double::from_u64(n).times(half()).value() == n * pow2(1074),
{
    let d = Double::from_u64(n);
    let h = half();
    let g = pow2(1074);
    lemma_whole_is_exact(n);
    lemma2_to64();
    lemma2_to64_rest();
    lemma_pow2_adds(52, 1021);
    lemma_pow2_unfold(1074);
    assert(h.code() == 0x3fe0_0000_0000_0000);
    assert(h.exponent() == 1021 && h.significand() == 0x10_0000_0000_0000);
    let k = pow2(1073);
    assert(h.magnitude() == k);
    reveal(Double::spec_times);
    assert(d.magnitude() * h.magnitude() == (n * k) * g) by (nonlinear_arith)
        requires
            d.magnitude() == n * g,
            h.magnitude() == k,
    ;
    lemma_pow2_pos(1074);
    crate::rounding::lemma_round_scale((n * k) as nat, 1, g);
    assert(1 * g == g);
    let c = d.times(h);
    crate::double::lemma_units_are_exact(n as nat, 1073, crate::double::halves(n as nat));
    assert(c == crate::double::halves(n as nat));
    assert(2 * (n * k) == n * g) by (nonlinear_arith)
        requires
            g == 2 * k,
    ;
}

/// A forest answers with the majority of its trees: one exactly if at least half of them
/// answer one.
pub proof fn law_forest_answers_the_majority(f: ForestState, x: Batch, i: int)
    requires
        0 <= i < x.height(),
        f.trees.len() <= 0x10_0000_0000_0000,
        f.trees.len() <= usize::MAX,
    ensures
        f.predictions(x)[i] == if 2 * supporters(f.trees, x.rows[i], f.trees.len()) >= f.trees.len() {
            one()
        } else {
            zero()
        },
{
    let n = f.trees.len();
    let s = supporters(f.trees, x.rows[i], n);
    lemma_votes_count(f, x, i, n);
    lemma_half_of_whole(n as u64);
    lemma_whole_is_exact(s as u64);
    let (a, b) = (Double::from_u64(s as u64), Double::from_u64(n as u64).times(half()));
    law_order_is_numeric(b, a);
    law_order_is_numeric(a, b);
    let g = pow2(1074) as int;
    lemma_pow2_pos(1074);
    assert((2 * (s * g) >= n * g) == (2 * s >= n)) by (nonlinear_arith)
        requires
            g > 0,
    ;
    assert(Double::from_usize(n as usize) == Double::from_u64(n as u64));
}

/// Trees among the first `k` that answer one, each for its own row.
pub open spec fn backers(trees: Seq<Grove<HtState>>, rows: Seq<Seq<Double>>, k: nat) -> nat
    decreases k,
{
    if k == 0 {
        0
    } else {
        backers(trees, rows, (k - 1) as nat) + if HtLeaf::answer(reached(trees[k - 1].root, rows[k - 1])) == one() {
            1nat
        } else {
            0nat
        }
    }
}

proof fn lemma_ayes(trees: Seq<Grove<HtState>>, rows: Seq<Seq<Double>>, k: nat)
    ensures
        ayes(trees, rows, k) == backers(trees, rows, k) <= k,
    decreases k,
{
    if k > 0 {
        lemma_ayes(trees, rows, (k - 1) as nat);
        lemma_answers(reached(trees[k - 1].root, rows[k - 1]));
        let h = half();
        let unit = one();
        let z = zero();
        assert(h.code() == 0x3fe0_0000_0000_0000 && unit.code() == 0x3ff0_0000_0000_0000 && z.code() == 0);
    }
}

/// Trees that each see their own part of a row answer with their majority: one exactly if
/// at least half of them answer one.
pub proof fn law_patches_answer_the_majority(trees: Seq<Grove<HtState>>, rows: Seq<Seq<Double>>)
    ensures
        carried(trees, rows) == if 2 * backers(trees, rows, trees.len()) >= trees.len() {
            one()
        } else {
            zero()
        },
{
    lemma_ayes(trees, rows, trees.len());
}

/// The share of `a` in the sum of `a` and `b`.
pub open spec fn share_in(a: real, b: real) -> real {
    a / (a + b)
}

proof fn lemma_share_in(a: real, b: real)
    requires
        a >= 0real,
        b >= 0real,
        a + b > 0real,
    ensures
        (a + b) * share_in(a, b) == a,
        0real <= share_in(a, b) <= 1real,
{
    let s = a + b;
    let p = share_in(a, b);
    lemma_over(a, s);
    if p < 0real {
        lemma_scaled_abs(s, p);
    }
    if p > 1real {
        lemma_product_sign(s, p - 1real);
        lemma_spread(s, p, 1real);
    }
}

proof fn lemma_rounded_share(a: Double, n: Double, sum: real, share: real)
    requires
        a.finite(),
        n.finite(),
        n.value() > 0,
        a.over(n).finite(),
        0real <= real_of(a) <= sum,
        sum > 0real,
        within(real_of(n) - sum, portion(sum)),
        sum * share == real_of(a),
        0real <= share <= 1real,
    ensures
        within(real_of(a.over(n)) - share, portion(6real)),
        within(real_of(a.over(n)), 2real),
{
    let (ra, rn, p) = (real_of(a), real_of(n), real_of(a.over(n)));
    law_quotient_is_close(a, n);
    lemma_speck_is_small();
    lemma_grows(speck(), portion(1real), rn);
    lemma_portion(rn, 1real);
    lemma_spread(rn, portion(1real), speck());
    lemma_spread(rn, speck(), portion(1real));
    assert(within(p * rn - ra, portion(3real * sum)));
    lemma_spread(rn, p, 0real);
    assert(within(p, 2real)) by {
        if p > 2real {
            lemma_grows(2real, p, rn);
            lemma_spread(rn, 2real, 0real);
        }
        if p < -2real {
            lemma_grows(p, -2real, rn);
            lemma_spread(rn, -2real, 0real);
        }
    }
    let gap = rn - sum;
    lemma_within_product(p, 2real, gap, portion(sum));
    lemma_spread(p, rn, sum);
    let off = p - share;
    lemma_spread(sum, p, share);
    assert(within(sum * off, portion(5real * sum)));
    lemma_portion(sum, 5real);
    lemma_spread(sum, portion(5real), 0real);
    lemma_regroup(sum, 5real, 1real);
    lemma_scaled_abs(sum, off);
    assert(sum * 5real == 5real * sum);
    lemma_divided(sum, abs_real(off), portion(5real));
}

/// The Gini impurity of two class counts is twice the product of their shares, up to sixty
/// parts in `2^52`.
pub proof fn law_gini_is_the_impurity(a: Double, b: Double)
    requires
        a.finite(),
        b.finite(),
        a.value() >= 0,
        b.value() >= 0,
        a.value() + b.value() > 0,
        a.plus(b).finite(),
        gini(a, b).finite(),
    ensures
        within(
            real_of(gini(a, b)) - 2real * (share_in(real_of(a), real_of(b)) * share_in(real_of(b), real_of(a))),
            portion(60real),
        ),
{
    let n = a.plus(b);
    let z = zero();
    assert(z.code() == 0);
    lemma_zero_magnitude(z);
    lemma_simple_values();
    lemma_real_order(z, a);
    lemma_real_order(z, b);
    let (ra, rb) = (real_of(a), real_of(b));
    let sum = ra + rb;
    crate::errors::lemma_plus_error(a, b);
    law_order_is_numeric(n, z);
    lemma_units(a);
    lemma_units(b);
    let g = pow2(1074) as real;
    lemma_spread(g, ra, rb);
    assert(sum > 0real) by {
        if sum <= 0real {
            lemma_scaled_abs(g, -sum);
        }
    }
    lemma_sum_within(a, b, sum);
    let (p0, p1) = (a.over(n), b.over(n));
    let (s0, s1) = (p0.times(p0), p1.times(p1));
    let first = one().minus(s0);
    assert(gini(a, b) == first.minus(s1));
    crate::accuracy::law_difference_is_close(first, s1);
    crate::accuracy::law_difference_is_close(one(), s0);
    lemma_factors_are_finite(p0, p0);
    lemma_factors_are_finite(p1, p1);
    let (u, v) = (share_in(ra, rb), share_in(rb, ra));
    lemma_share_in(ra, rb);
    lemma_share_in(rb, ra);
    lemma_rounded_share(a, n, sum, u);
    lemma_rounded_share(b, n, sum, v);
    lemma_spread(sum, u, v);
    lemma_cancel(sum, u + v, 1real);
    lemma_square_is_close(p0, u);
    lemma_square_is_close(p1, v);
    lemma_difference_within(one(), s0, 3real);
    lemma_difference_within(first, s1, 5real);
    lemma_spread(u, 1real, v);
    lemma_spread(v, 1real, u);
    assert(1real - u * u - v * v == 2real * (u * v)) by {
        assert(u == 1real - v && v == 1real - u);
        assert(u * (1real - v) == u * u);
        assert(v * (1real - u) == v * v);
        lemma_spread(u, v, 0real);
    }
}

proof fn lemma_square_is_close(p: Double, u: real)
    requires
        p.times(p).finite(),
        within(real_of(p) - u, portion(6real)),
        within(real_of(p), 2real),
        0real <= u <= 1real,
    ensures
        within(real_of(p.times(p)) - u * u, portion(23real)),
        within(u * u, 1real),
{
    let r = real_of(p);
    lemma_speck_is_small();
    lemma_within_gap(r, r, u, u, portion(6real), 2real, 1real, portion(6real));
    lemma_within_product(r, 2real, r, 2real);
    lemma_within_product(u, 1real, u, 1real);
    lemma_product_within(p, p, 4real);
}

/// The square of a Hoeffding bound times the number of observations is half the logarithm
/// that it is made of, up to rounding.
pub proof fn law_bound_is_hoeffding(delta: Double, n: Double, ln: Curve)
    requires
        crate::constants::ten_to_minus_12().le(delta),
        ln(one().over(delta)).finite(),
        ln(one().over(delta)).value() > 0,
        n.finite(),
        n.value() > 0,
        half().times(ln(one().over(delta))).over(n).finite(),
        half().times(ln(one().over(delta))).over(n).value() > 0,
        half().times(ln(one().over(delta))).finite(),
    ensures
        ({
            let bound = real_of(hoeffding_bound(delta, n, ln));
            let log = real_of(ln(one().over(delta)));
            let m = real_of(n);
            within(
                2real * ((bound * bound) * m) - log,
                portion(20real * log) + 20real * (speck() * m) + 20real * speck(),
            )
        }),
{
    let l = ln(one().over(delta));
    let h = half();
    let t = h.times(l);
    let q = t.over(n);
    let r = q.sqrt();
    let low = crate::constants::ten_to_minus_12();
    assert(low.code() == low.bits);
    assert(delta.max(low) == delta || (delta.same(low) && delta.max(low) == low)) by {
        if delta.is_nan() {
            assert(false);
        }
    }
    lemma_max_is_it(delta, low);
    assert(hoeffding_bound(delta, n, ln) == r);
    let (rl, rt, rq, rr, m) = (real_of(l), real_of(t), real_of(q), real_of(r), real_of(n));
    let z = zero();
    assert(z.code() == 0);
    lemma_zero_magnitude(z);
    lemma_simple_values();
    lemma_real_order(l, z);
    lemma_real_order(n, z);
    lemma_real_order(q, z);
    lemma_half_value();
    lemma_speck();
    crate::accuracy::law_product_is_close(h, l);
    assert(real_of(h) * rl == rl / 2real) by {
        lemma_spread(rl, real_of(h), 0real);
    }
    law_quotient_is_close(t, n);
    law_root_is_close(q);
    lemma_product_sign(m, rl);
    let x = rr * rr - rq;
    lemma_within_product(x, portion(4real * rq), m, m);
    lemma_spread(m, rr * rr, rq);
    lemma_portion(m, 4real * rq);
    lemma_regroup(m, 4real, rq);
    lemma_spread(m, portion(4real * rq), 0real);
    lemma_spread(m, rq, 0real);
    lemma_spread(m, rr * rr, 0real);
    lemma_product_sign(speck(), m);
}

proof fn lemma_max_is_it(delta: Double, low: Double)
    requires
        low.le(delta),
        !low.is_nan(),
    ensures
        delta.max(low) == delta,
{
}

proof fn lemma_half_value()
    ensures
        real_of(half()) == 1real / 2real,
        half().finite(),
{
    let h = half();
    lemma2_to64();
    lemma2_to64_rest();
    lemma_pow2_adds(52, 1021);
    lemma_pow2_unfold(1074);
    assert(h.code() == 0x3fe0_0000_0000_0000);
    assert(h.exponent() == 1021 && h.significand() == 0x10_0000_0000_0000);
    lemma_units(h);
    let g = pow2(1074) as real;
    assert(2real * (h.value() as real) == g);
    lemma_spread(g, 1real / 2real, 0real);
    lemma_cancel(g, real_of(h), 1real / 2real);
}

/// A leaf that saw too few rows, or rows of one class only, does not split.
pub proof fn law_leaf_waits(
    id: u64,
    p: nat,
    rows: Seq<Seq<Double>>,
    y: Seq<Double>,
    k: nat,
    rule: SplitRule,
    ln: Curve,
    cdf: Curve,
)
    requires
        k < rule.min_samples || tally(y, true, k) == 0 || tally(y, false, k) == 0,
    ensures
        HtLeaf::verdict(fed_all::<HtLeaf>(HtLeaf::fresh(id, p), rows, y, k), rule, ln, cdf) is None,
{
    lemma_fed_counts(id, p, rows, y, k);
}

/// A gain that no candidate of column `j` beats.
pub open spec fn unbeaten(s: HtState, j: int, cdf: Curve, gain: Double) -> bool {
    let (a, b) = (s.neg[j].mean, s.pos[j].mean);
    &&& !s.gain_at(j, a, cdf).gt(gain)
    &&& !s.gain_at(j, b, cdf).gt(gain)
    &&& !s.gain_at(j, half().times(a.plus(b)), cdf).gt(gain)
}

proof fn lemma_race_climbs(race: Race, feature: usize, threshold: Double, gain: Double)
    requires
        !race.gain.is_nan(),
    ensures
        !race.joined(feature, threshold, gain).gain.is_nan(),
        !gain.gt(race.joined(feature, threshold, gain).gain),
        race.gain.le(race.joined(feature, threshold, gain).gain),
{
}

proof fn lemma_not_beaten(g: Double, x: Double, y: Double)
    requires
        !g.gt(x),
        x.le(y),
    ensures
        !g.gt(y),
{
}

proof fn lemma_unbeaten_grows(s: HtState, j: int, cdf: Curve, gain: Double, more: Double)
    requires
        unbeaten(s, j, cdf, gain),
        gain.le(more),
    ensures
        unbeaten(s, j, cdf, more),
{
    let (a, b) = (s.neg[j].mean, s.pos[j].mean);
    lemma_not_beaten(s.gain_at(j, a, cdf), gain, more);
    lemma_not_beaten(s.gain_at(j, b, cdf), gain, more);
    lemma_not_beaten(s.gain_at(j, half().times(a.plus(b)), cdf), gain, more);
}

proof fn lemma_climbs_twice(x: Double, y: Double, z: Double)
    requires
        x.le(y),
        y.le(z),
    ensures
        x.le(z),
{
}

proof fn lemma_three_join(race: Race, j: usize, a: Double, g: Double, b: Double, h: Double, c: Double, i: Double)
    requires
        !race.gain.is_nan(),
    ensures
        ({
            let last = race.joined(j, a, g).joined(j, b, h).joined(j, c, i).gain;
            &&& !last.is_nan()
            &&& race.gain.le(last)
            &&& !g.gt(last)
            &&& !h.gt(last)
            &&& !i.gt(last)
        }),
{
    let first = race.joined(j, a, g);
    let second = first.joined(j, b, h);
    let third = second.joined(j, c, i);
    lemma_race_climbs(race, j, a, g);
    lemma_race_climbs(first, j, b, h);
    lemma_race_climbs(second, j, c, i);
    lemma_climbs_twice(race.gain, first.gain, second.gain);
    lemma_climbs_twice(race.gain, second.gain, third.gain);
    lemma_climbs_twice(first.gain, second.gain, third.gain);
    lemma_not_beaten(g, first.gain, third.gain);
    lemma_not_beaten(h, second.gain, third.gain);
}

proof fn lemma_race_step(s: HtState, cdf: Curve, k: nat)
    requires
        k > 0,
        !s.race(cdf, (k - 1) as nat).gain.is_nan(),
    ensures
        !s.race(cdf, k).gain.is_nan(),
        s.race(cdf, (k - 1) as nat).gain.le(s.race(cdf, k).gain),
        unbeaten(s, k - 1, cdf, s.race(cdf, k).gain),
{
    let (a, b) = (s.neg[k - 1].mean, s.pos[k - 1].mean);
    let c = half().times(a.plus(b));
    lemma_three_join(
        s.race(cdf, (k - 1) as nat),
        (k - 1) as usize,
        a,
        s.gain_at(k - 1, a, cdf),
        b,
        s.gain_at(k - 1, b, cdf),
        c,
        s.gain_at(k - 1, c, cdf),
    );
}

proof fn lemma_winner_is_unbeaten(s: HtState, cdf: Curve, j: int, k: nat)
    requires
        0 <= j < k,
    ensures
        unbeaten(s, j, cdf, s.race(cdf, k).gain),
    decreases k,
{
    lemma_race_is_a_number(s, cdf, (k - 1) as nat);
    lemma_race_step(s, cdf, k);
    if j < k - 1 {
        lemma_winner_is_unbeaten(s, cdf, j, (k - 1) as nat);
        lemma_unbeaten_grows(s, j, cdf, s.race(cdf, (k - 1) as nat).gain, s.race(cdf, k).gain);
    }
}

proof fn lemma_race_is_a_number(s: HtState, cdf: Curve, k: nat)
    ensures
        !s.race(cdf, k).gain.is_nan(),
    decreases k,
{
    if k == 0 {
        assert(neg_one().bits == 0xbff0_0000_0000_0000);
    } else {
        lemma_race_is_a_number(s, cdf, (k - 1) as nat);
        lemma_race_step(s, cdf, k);
    }
}

/// A split is on a test that no other one beats: for every column, neither class mean nor
/// their midpoint gains more; and the gain is not negative.
pub proof fn law_split_is_unbeaten(s: HtState, rule: SplitRule, ln: Curve, cdf: Curve, j: int)
    requires
        HtLeaf::verdict(s, rule, ln, cdf) is Some,
        0 <= j < s.neg.len(),
    ensures
        unbeaten(s, j, cdf, HtLeaf::verdict(s, rule, ln, cdf)->0.gain),
        !HtLeaf::verdict(s, rule, ln, cdf)->0.gain.lt(zero()),
{
    lemma_winner_is_unbeaten(s, cdf, j, s.neg.len());
}

/// The impurity of two class counts: twice the product of their shares.
pub open spec fn impurity(a: real, b: real) -> real {
    2real * (share_in(a, b) * share_in(b, a))
}

proof fn lemma_impurity(a: real, b: real)
    requires
        a >= 0real,
        b >= 0real,
        a + b > 0real,
    ensures
        within(impurity(a, b), 2real),
{
    lemma_share_in(a, b);
    lemma_share_in(b, a);
    lemma_within_product(share_in(a, b), 1real, share_in(b, a), 1real);
}

proof fn lemma_weighted_side(n: Double, g: Double, sum: real, i: real)
    requires
        n.times(g).finite(),
        sum >= 1real / 2real,
        within(real_of(n) - sum, portion(sum)),
        within(real_of(g) - i, portion(60real)),
        within(i, 2real),
    ensures
        within(real_of(n.times(g)) - sum * i, portion(80real * sum)),
        within(real_of(n.times(g)), 7real * sum),
        within(sum * i, 2real * sum),
{
    let (rn, rg) = (real_of(n), real_of(g));
    lemma_speck_is_small();
    lemma_within_gap(rn, rg, sum, i, portion(sum), 3real, sum, portion(60real));
    lemma_portion(sum, 60real);
    lemma_portion(sum, 3real);
    lemma_spread(sum, 3real, 0real);
    lemma_regroup(sum, 60real, 1real);
    assert(sum * portion(60real) == portion(60real * sum)) by {
        assert(sum * 60real == 60real * sum);
    }
    lemma_within_product(rn, 2real * sum, rg, 3real);
    lemma_product_within(n, g, 6real * sum);
    lemma_within_product(sum, sum, i, 2real);
    lemma_spread(sum, 2real, 0real);
}

/// A number between zero and one.
pub open spec fn is_share(c: Double) -> bool {
    c.finite() && !c.negative() && c.le(one())
}

proof fn lemma_part_of_count(n: Double, c: Double)
    requires
        n.finite(),
        n.value() >= 0,
        !n.negative(),
        is_share(c),
    ensures
        n.times(c).finite(),
        0 <= n.times(c).value() <= n.value(),
        n.minus(n.times(c)).finite(),
        0 <= n.minus(n.times(c)).value(),
        within(real_of(n.times(c)) - real_of(n) * real_of(c), portion(real_of(n)) + speck()),
        within(real_of(n.minus(n.times(c))) - (real_of(n) - real_of(n.times(c))), portion(real_of(n))),
        0real <= real_of(n.times(c)) <= real_of(n),
        real_of(n) >= 0real,
{
    let z = zero();
    let unit = one();
    assert(z.code() == 0 && unit.code() == 0x3ff0_0000_0000_0000);
    lemma_zero_magnitude(z);
    lemma_zero_magnitude(n);
    law_order_is_numeric(z, n);
    law_times_commutes(n, c);
    let p = n.times(c);
    if c.code() == 0 {
        lemma_times_zero(c, n);
        lemma_zero_magnitude(p);
    } else {
        lemma_zero_magnitude(c);
        law_order_is_numeric(z, c);
        lemma_fraction_shrinks(c, n);
        law_order_is_numeric(z, p);
        law_order_is_numeric(p, n);
    }
    lemma_simple_values();
    lemma_real_order(z, p);
    lemma_real_order(p, n);
    lemma_real_order(z, n);
    law_order_is_numeric(c, unit);
    lemma_real_order(c, unit);
    lemma_real_order(z, c);
    lemma_rest_is_finite(n, p);
    crate::errors::lemma_neg_value(p);
    crate::errors::lemma_plus_error(n, p.neg());
    lemma_within_product(real_of(n), real_of(n), real_of(c), 1real);
    crate::accuracy::law_product_is_close(n, c);
    lemma_difference_within(n, p, real_of(n));
}

proof fn lemma_rest_is_finite(n: Double, p: Double)
    requires
        n.finite(),
        p.finite(),
        !n.negative(),
        0 <= p.value() <= n.value(),
    ensures
        n.minus(p).finite(),
{
    reveal(Double::spec_plus);
    crate::errors::lemma_neg_value(p);
    let sum = n.value() - p.value();
    law_rounding_is_monotone(sum as nat, n.magnitude(), 1);
    law_rounding_keeps_representable(n);
}

proof fn lemma_side(a: Double, b: Double)
    requires
        a.finite(),
        b.finite(),
        a.value() >= 0,
        b.value() >= 0,
        a.plus(b).finite(),
        one().lt(a.plus(b)),
        gini(a, b).finite(),
    ensures
        within(real_of(a.plus(b)) - (real_of(a) + real_of(b)), portion(real_of(a) + real_of(b))),
        real_of(a) + real_of(b) >= 1real / 2real,
        within(real_of(gini(a, b)) - impurity(real_of(a), real_of(b)), portion(60real)),
        within(impurity(real_of(a), real_of(b)), 2real),
{
    let n = a.plus(b);
    let z = zero();
    let unit = one();
    assert(z.code() == 0);
    lemma_zero_magnitude(z);
    lemma_simple_values();
    lemma_one();
    lemma_pow2_pos(1074);
    law_order_is_numeric(unit, n);
    lemma_real_order(n, unit);
    lemma_real_order(z, a);
    lemma_real_order(z, b);
    crate::errors::lemma_plus_error(a, b);
    lemma_sum_within(a, b, real_of(a) + real_of(b));
    law_gini_is_the_impurity(a, b);
    lemma_impurity(real_of(a), real_of(b));
}

/// What a test gains is the drop in impurity. With `c0` and `c1` the parts of the negative
/// and of the positive rows that lie up to the threshold, the gain times the number of rows
/// is their number times their impurity, less that of both sides, up to rounding.
pub proof fn law_gain_is_the_drop_in_impurity(s: HtState, j: int, t: Double, cdf: Curve)
    requires
        0 < s.n_neg <= 0x100_0000_0000,
        0 < s.n_pos <= 0x100_0000_0000,
        s.n == s.n_neg + s.n_pos,
        is_share(cdf(t.minus(s.neg[j].mean).over(s.neg[j].deviation()))),
        is_share(cdf(t.minus(s.pos[j].mean).over(s.pos[j].deviation()))),
        s.gain_at(j, t, cdf).finite(),
        ({
            let (a, b) = (Double::from_u64(s.n_neg as u64), Double::from_u64(s.n_pos as u64));
            let l0 = a.times(cdf(t.minus(s.neg[j].mean).over(s.neg[j].deviation())));
            let l1 = b.times(cdf(t.minus(s.pos[j].mean).over(s.pos[j].deviation())));
            one().lt(l0.plus(l1)) && one().lt(a.minus(l0).plus(b.minus(l1)))
        }),
    ensures
        ({
            let (x, y, n) = (s.n_neg as real, s.n_pos as real, s.n as real);
            let (a, b) = (Double::from_u64(s.n_neg as u64), Double::from_u64(s.n_pos as u64));
            let (c0, c1) = (
                cdf(t.minus(s.neg[j].mean).over(s.neg[j].deviation())),
                cdf(t.minus(s.pos[j].mean).over(s.pos[j].deviation())),
            );
            let (l0, l1) = (real_of(a.times(c0)), real_of(b.times(c1)));
            let (r0, r1) = (real_of(a.minus(a.times(c0))), real_of(b.minus(b.times(c1))));
            &&& within(l0 - x * real_of(c0), portion(2real * x))
            &&& within(l1 - y * real_of(c1), portion(2real * y))
            &&& within(r0 - (x - l0), portion(x))
            &&& within(r1 - (y - l1), portion(y))
            &&& within(
                real_of(s.gain_at(j, t, cdf)) * n - (n * impurity(x, y) - (l0 + l1) * impurity(l0, l1) - (r0 + r1)
                    * impurity(r0, r1)),
                portion(500real * n),
            )
        }),
{
    let (x, y, n) = (s.n_neg as real, s.n_pos as real, s.n as real);
    let (a, b) = (Double::from_u64(s.n_neg as u64), Double::from_u64(s.n_pos as u64));
    let c0 = cdf(t.minus(s.neg[j].mean).over(s.neg[j].deviation()));
    let c1 = cdf(t.minus(s.pos[j].mean).over(s.pos[j].deviation()));
    let (l0, l1) = (a.times(c0), b.times(c1));
    let (r0, r1) = (a.minus(l0), b.minus(l1));
    let (nl, nr) = (l0.plus(l1), r0.plus(r1));
    let (gp, gl, gr) = (gini(a, b), gini(l0, l1), gini(r0, r1));
    let (wl, wr) = (nl.times(gl), nr.times(gr));
    let total = wl.plus(wr);
    let d = Double::from_u64(s.n as u64);
    let unit = one();
    assert(unit.code() == 0x3ff0_0000_0000_0000);
    lemma_whole_value(s.n_neg as u64);
    lemma_whole_value(s.n_pos as u64);
    lemma_whole_value(s.n as u64);
    lemma_whole_is_exact(s.n_neg as u64);
    lemma_whole_is_exact(s.n_pos as u64);
    lemma_count_is_itself(s.n as u64);
    lemma_count_is_itself(s.n_neg as u64);
    lemma_count_is_itself(s.n_pos as u64);
    lemma_speck_is_small();
    lemma_part_of_count(a, c0);
    lemma_part_of_count(b, c1);
    let drop = total.over(d);
    assert(s.gain_at(j, t, cdf) == gp.minus(drop)) by {
        lemma_above_one(nl);
        lemma_above_one(nr);
    }
    crate::accuracy::law_difference_is_close(gp, drop);
    lemma_dividend(total, d);
    lemma_terms_are_finite(wl, wr);
    lemma_factors_are_finite(nl, gl);
    lemma_factors_are_finite(nr, gr);
    lemma_side(l0, l1);
    lemma_side(r0, r1);
    lemma_wholes_add(s.n_neg as u64, s.n_pos as u64);
    law_gini_is_the_impurity(a, b);
    lemma_impurity(x, y);
    let (sl, sr) = (real_of(l0) + real_of(l1), real_of(r0) + real_of(r1));
    let (il, ir) = (impurity(real_of(l0), real_of(l1)), impurity(real_of(r0), real_of(r1)));
    lemma_weighted_side(nl, gl, sl, il);
    lemma_weighted_side(nr, gr, sr, ir);
    lemma_gain_budget(gp, wl, wr, d, n, impurity(x, y), sl, sr, sl * il, sr * ir);
}

proof fn lemma_gain_budget(
    gp: Double,
    wl: Double,
    wr: Double,
    d: Double,
    n: real,
    ip: real,
    sl: real,
    sr: real,
    tl: real,
    tr: real,
)
    requires
        gp.minus(wl.plus(wr).over(d)).finite(),
        wl.plus(wr).over(d).finite(),
        wl.plus(wr).finite(),
        d.finite(),
        d.value() != 0,
        real_of(d) == n,
        n >= 1real,
        within(real_of(gp) - ip, portion(60real)),
        within(ip, 2real),
        sl >= 0real,
        sr >= 0real,
        sl + sr <= 3real * n,
        within(real_of(wl) - tl, portion(80real * sl)),
        within(real_of(wr) - tr, portion(80real * sr)),
        within(real_of(wl), 7real * sl),
        within(real_of(wr), 7real * sr),
    ensures
        within(real_of(gp.minus(wl.plus(wr).over(d))) * n - (n * ip - tl - tr), portion(500real * n)),
{
    let total = wl.plus(wr);
    let q = total.over(d);
    let gain = gp.minus(q);
    let (g, p, x, w) = (real_of(gain), real_of(gp), real_of(q), real_of(total));
    lemma_speck_is_small();
    lemma_sum_within(wl, wr, 21real * n);
    law_quotient_is_close(total, d);
    lemma_grows(speck(), portion(1real), n);
    lemma_spread(n, portion(1real), speck());
    lemma_spread(n, speck(), portion(1real));
    lemma_portion(n, 1real);
    assert(within(x * n - w, portion(24real * n)));
    lemma_spread(n, x, 0real);
    assert(within(x, 23real)) by {
        if x > 23real {
            lemma_grows(23real, x, n);
            lemma_spread(n, 23real, 0real);
        }
        if x < -23real {
            lemma_grows(x, -23real, n);
            lemma_spread(n, -23real, 0real);
        }
    }
    lemma_difference_within(gp, q, 30real);
    let off = g - (p - x);
    lemma_within_product(off, portion(30real), n, n);
    lemma_within_product(p - ip, portion(60real), n, n);
    lemma_portion(n, 30real);
    lemma_portion(n, 60real);
    lemma_spread(n, portion(30real), portion(60real));
    lemma_spread(n, portion(60real), portion(30real));
    assert(n * 30real == 30real * n && n * 60real == 60real * n);
    lemma_spread(n, g, p - x);
    lemma_spread(n, p, x);
    lemma_spread(n, p, ip);
    lemma_spread(n, g, 0real);
}

proof fn lemma_dividend(a: Double, d: Double)
    requires
        a.over(d).finite(),
        d.finite(),
        d.value() != 0,
    ensures
        a.finite(),
{
    reveal(Double::spec_over);
    lemma_zero_magnitude(d);
}

proof fn lemma_count_is_itself(n: u64)
    requires
        0 < n <= 0x20_0000_0000_0000,
    ensures
        Double::from_u64(n).max(one()) == Double::from_u64(n),
        Double::from_u64(n).value() > 0,
        Double::from_u64(n).finite(),
{
    let d = Double::from_u64(n);
    lemma_one();
    lemma_whole_is_exact(n);
    lemma_pow2_pos(1074);
    assert(n * pow2(1074) >= pow2(1074)) by (nonlinear_arith)
        requires
            n >= 1,
    ;
    law_order_is_numeric(one(), d);
    law_order_is_numeric(d, one());
}

proof fn lemma_above_one(a: Double)
    ensures
        one().lt(a) ==> !a.le(one()),
{
}

} // verus!
