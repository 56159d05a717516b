//! What the centres of streaming k-means are: the means of the rows that they received.

use crate::accuracy::{lemma_speck, portion, speck, within};
use crate::data::Matrix;
use crate::double::{law_times_commutes, lemma_one, lemma_wholes_add, lemma_zero, one, zero, Double};
use crate::online::least_squares::{lemma_shrunk, lemma_spread, real_of};
use crate::online::mean_accuracy::{
    bounded, lemma_direct_step, lemma_grows, lemma_mean_of, lemma_share_is_close, lemma_share_of, mean_of, share_of,
};
use crate::scaling::lemma_terms_are_finite;
use crate::streaming::clusters::{distances, lemma_argmin_position, nearest, pulled, Centres};
use vstd::prelude::*;

verus! {

/// A coordinate pulled towards the first `k` of some values, the first time all the way,
/// then by one half, one third and so on.
pub open spec fn drawn(start: Double, values: Seq<Double>, k: nat) -> Double
    decreases k,
{
    if k == 0 {
        start
    } else {
        let c = drawn(start, values, (k - 1) as nat);
        c.plus(one().over(Double::from_u64(k as u64)).times(values[k - 1].minus(c)))
    }
}

/// The rows, among the first `k`, that centre `c` receives.
pub open spec fn received(start: Centres, x: &Matrix, c: int, k: nat) -> Seq<Seq<Double>>
    decreases k,
{
    if k == 0 {
        Seq::empty()
    } else {
        let before = received(start, x, c, (k - 1) as nat);
        let now = start.after(x, (k - 1) as nat);
        let row = x.rows@[k - 1]@;
        if nearest(now.centers, row, row.len()) == c {
            before.push(row)
        } else {
            before
        }
    }
}

/// One coordinate of some rows.
pub open spec fn coordinate(rows: Seq<Seq<Double>>, j: int) -> Seq<Double> {
    Seq::new(rows.len(), |i: int| rows[i][j])
}

proof fn lemma_drawn_prefix(start: Double, a: Seq<Double>, b: Seq<Double>, k: nat)
    requires
        forall|i: int| 0 <= i < k ==> #[trigger] a[i] == b[i],
    ensures
        drawn(start, a, k) == drawn(start, b, k),
    decreases k,
{
    if k > 0 {
        lemma_drawn_prefix(start, a, b, (k - 1) as nat);
    }
}

/// A centre that starts without rows has counted those that it received, and each of its
/// coordinates was pulled towards theirs, in their order.
pub proof fn law_centre_follows_its_rows(start: Centres, x: &Matrix, c: int, j: int, k: nat)
    requires
        0 <= c < start.centers.len(),
        start.counts.len() == start.centers.len(),
        start.counts[c] == zero(),
        0 <= j < start.centers[c].len(),
        k <= 0x10_0000,
    ensures
        ({
            let now = start.after(x, k);
            let rows = received(start, x, c, k);
            &&& rows.len() <= k
            &&& now.centers.len() == start.centers.len()
            &&& now.counts.len() == start.counts.len()
            &&& now.centers[c].len() == start.centers[c].len()
            &&& now.counts[c] == Double::from_u64(rows.len() as u64)
            &&& now.centers[c][j] == drawn(start.centers[c][j], coordinate(rows, j), rows.len())
        }),
    decreases k,
{
    if k == 0 {
        lemma_zero();
    } else {
        let i = (k - 1) as nat;
        law_centre_follows_its_rows(start, x, c, j, i);
        let now = start.after(x, i);
        let row = x.rows@[k - 1]@;
        let best = nearest(now.centers, row, row.len()) as int;
        lemma_argmin_position(distances(now.centers, row, row.len()), now.centers.len());
        assert(0 <= best < now.centers.len());
        let before = received(start, x, c, i);
        if best == c {
            let n = before.len();
            lemma_one();
            lemma_wholes_add(n as u64, 1);
            let more = before.push(row);
            let (u, v) = (coordinate(before, j), coordinate(more, j));
            assert forall|a: int| 0 <= a < n implies #[trigger] u[a] == v[a] by {
                assert(more[a] == before[a]);
            }
            lemma_drawn_prefix(start.centers[c][j], u, v, n);
            assert(v[n as int] == row[j]);
            assert(start.after(x, k).centers[c] == pulled(
                now.centers[c],
                row,
                one().over(Double::from_u64((n + 1) as u64)),
            ));
        } else {
            assert(start.after(x, k).centers[c] == now.centers[c]);
            assert(start.after(x, k).counts[c] == now.counts[c]);
        }
    }
}

/// A coordinate pulled towards some values, wherever it started, is their mean, up to
/// `40 k` parts in `2^52` of their size.
pub proof fn law_drawn_is_the_mean(start: Double, values: Seq<Double>, k: nat, b: real)
    requires
        0 < k <= 0x10_0000,
        bounded(values, k, b),
        within(real_of(start), b),
        speck() <= portion(b),
        drawn(start, values, k).finite(),
    ensures
        within(real_of(drawn(start, values, k)) - mean_of(values, k), portion((k as real) * (40real * b))),
        within(real_of(drawn(start, values, k)), 2real * b),
    decreases k,
{
    let j = (k - 1) as nat;
    let m = drawn(start, values, j);
    let v = values[k - 1];
    let share = one().over(Double::from_u64(k as u64));
    let w = share_of(k);
    let c = 40real * b;
    lemma_speck();
    lemma_mean_of(values, k, b);
    lemma_grows(k as real, 1099511627776real, c);
    assert(within(real_of(v), b));
    lemma_terms_are_finite(m, share.times(v.minus(m)));
    law_times_commutes(share, v.minus(m));
    lemma_share_is_close(k as u64);
    lemma_share_of(k);
    if j > 0 {
        law_drawn_is_the_mean(start, values, j, b);
    }
    lemma_direct_step(m, v, share, w, 2real * b);
    let (rm, rv, e) = (real_of(m), real_of(v), mean_of(values, j));
    lemma_spread(w, rv, rm);
    lemma_spread(w, rv, e);
    lemma_spread(w, rm, e);
    lemma_spread(c, j as real, 1real);
    if j > 0 {
        lemma_shrunk(w, rm - e);
    } else {
        assert(k as real == 1real);
        assert(w == 1real);
        lemma_spread(c, 1real, 0real);
        lemma_spread(rv, 1real, 0real);
        lemma_spread(rm, 1real, 0real);
    }
}

} // verus!
