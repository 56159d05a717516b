//! Stream clustering.

use crate::constants::{decimal_99, neg_one, ten_to_minus_12, ten_to_minus_3, ten_to_minus_6, two};
use crate::data::{copy, difference, dot, dot_of, filled, norm, norm_of, subtract, zero_seq, zeros, Batch, Matrix};
use crate::double::{infinity, lemma_one, lemma_wholes_add, nan, one, zero, Double};
use crate::online::common::{inspect_online_xy, shape_issues};
use crate::quality::{given, issue, raise, warning, IncrementalQuality, Issue, IssueCode, Qualified, Update};
use crate::streaming::columns::{plain_report, rejection, reports, screened_report};
use crate::streaming::features::{warn, warn_if};
use vstd::prelude::*;

verus! {

/// `start` plus the squared differences of the first `k` entries, added from
/// left to right.
pub open spec fn squares_from(start: Double, a: Seq<Double>, b: Seq<Double>, k: nat) -> Double
    decreases k,
{
    if k == 0 {
        start
    } else {
        let d = a[k - 1].minus(b[k - 1]);
        squares_from(start, a, b, (k - 1) as nat).plus(d.times(d))
    }
}

/// `start` plus the squared differences of the first `k` entries.
pub fn add_squares(start: Double, a: &Vec<Double>, b: &Vec<Double>, k: usize) -> (r: Double)
    requires
        k <= a@.len(),
        k <= b@.len(),
    ensures
        r == squares_from(start, a@, b@, k as nat),
{
    let mut s: Double = start;
    let mut j: usize = 0;
    while j < k
        invariant
            j <= k,
            k <= a@.len(),
            k <= b@.len(),
            s == squares_from(start, a@, b@, j as nat),
        decreases k - j,
    {
        let d: Double = a[j].minus(b[j]);
        s = s.plus(d.times(d));
        j = j + 1;
    }
    s
}

/// Position and value of the first smallest among the first `k` numbers below
/// infinity; a NaN is never smallest.
pub open spec fn argmin(values: Seq<Double>, k: nat) -> (Option<nat>, Double)
    decreases k,
{
    if k == 0 {
        (None, infinity())
    } else {
        let (best, least) = argmin(values, (k - 1) as nat);
        if values[k - 1].lt(least) {
            (Some((k - 1) as nat), values[k - 1])
        } else {
            (best, least)
        }
    }
}

/// Position and value of the first smallest number.
pub fn find_min(values: &Vec<Double>) -> (r: (Option<usize>, Double))
    ensures
        r.1 == argmin(values@, values@.len()).1,
        match (r.0, argmin(values@, values@.len()).0) {
            (Some(a), Some(b)) => a == b && a < values@.len(),
            (None, None) => true,
            _ => false,
        },
{
    let mut best: Option<usize> = None;
    let mut least: Double = infinity();
    let mut k: usize = 0;
    while k < values.len()
        invariant
            k <= values@.len(),
            least == argmin(values@, k as nat).1,
            match (best, argmin(values@, k as nat).0) {
                (Some(a), Some(b)) => a == b && a < k,
                (None, None) => true,
                _ => false,
            },
        decreases values@.len() - k,
    {
        if values[k].lt(least) {
            least = values[k];
            best = Some(k);
        }
        k = k + 1;
    }
    (best, least)
}

/// No number is smaller than the one that was found, and the found one comes
/// first among equals.
pub proof fn law_argmin_is_least(values: Seq<Double>, k: nat, i: int)
    requires
        0 <= i < k,
    ensures
        !values[i].lt(argmin(values, k).1),
        argmin(values, k).0 matches Some(b) ==> b < k && argmin(values, k).1 == values[b as int] && (i < b ==> argmin(
            values,
            k,
        ).1.lt(values[i]) || values[i].is_nan()),
    decreases k,
{
    if i < k - 1 {
        law_argmin_is_least(values, (k - 1) as nat, i);
    } else {
        lemma_argmin_position(values, (k - 1) as nat);
    }
    lemma_argmin_not_nan(values, k);
    lemma_argmin_not_nan(values, (k - 1) as nat);
}

/// The least value is at a position in range.
pub proof fn lemma_argmin_position(values: Seq<Double>, k: nat)
    ensures
        argmin(values, k).0 matches Some(b) ==> b < k && argmin(values, k).1 == values[b as int],
    decreases k,
{
    if k > 0 {
        lemma_argmin_position(values, (k - 1) as nat);
    }
}

proof fn lemma_argmin_not_nan(values: Seq<Double>, k: nat)
    ensures
        !argmin(values, k).1.is_nan(),
    decreases k,
{
    if k > 0 {
        lemma_argmin_not_nan(values, (k - 1) as nat);
    }
}

/// Streaming k-means.
#[derive(Clone, Debug)]
pub struct StreamKMeans {
    /// Number of centres.
    pub k: usize,
    /// The centres, `k` of them once there are any.
    pub centers: Matrix,
    /// Points that each centre received.
    pub counts: Vec<Double>,
    /// Rows taken in.
    pub n_seen: u64,
    /// Batches taken in.
    pub updates: u64,
    /// Whether there are centres.
    pub initialized: bool,
}

/// Centres, counts, and which centres received a point.
pub struct Centres {
    /// The centres.
    pub centers: Seq<Seq<Double>>,
    /// Points that each received.
    pub counts: Seq<Double>,
    /// Whether each received a point of the batch.
    pub hit: Seq<bool>,
}

/// Squared distances of a row to the centres, over the first `width` entries.
pub open spec fn distances(centers: Seq<Seq<Double>>, row: Seq<Double>, width: nat) -> Seq<Double> {
    Seq::new(centers.len(), |c: int| squares_from(zero(), row, centers[c], width))
}

/// The centre nearest to a row; the first one if no distance is a number.
pub open spec fn nearest(centers: Seq<Seq<Double>>, row: Seq<Double>, width: nat) -> nat {
    match argmin(distances(centers, row, width), centers.len()).0 {
        Some(c) => c,
        None => 0,
    }
}

/// A centre moved towards a row by `eta`.
pub open spec fn pulled(center: Seq<Double>, row: Seq<Double>, eta: Double) -> Seq<Double> {
    Seq::new(center.len(), |j: int| center[j].plus(eta.times(row[j].minus(center[j]))))
}

impl Centres {
    /// The centres after one more row.
    pub open spec fn assigned(self, row: Seq<Double>) -> Centres {
        let best = nearest(self.centers, row, row.len()) as int;
        let counts = self.counts.update(best, self.counts[best].plus(one()));
        Centres {
            centers: self.centers.update(best, pulled(self.centers[best], row, one().over(counts[best]))),
            counts,
            hit: self.hit.update(best, true),
        }
    }

    /// The centres after the first `k` rows.
    pub open spec fn after(self, x: &Matrix, k: nat) -> Centres
        decreases k,
    {
        if k == 0 {
            self
        } else {
            self.after(x, (k - 1) as nat).assigned(x.rows@[k - 1]@)
        }
    }
}

/// Number of centres, among the first `k`, without a point.
pub open spec fn idle_count(hit: Seq<bool>, k: nat) -> nat
    decreases k,
{
    if k == 0 {
        0
    } else {
        idle_count(hit, (k - 1) as nat) + if hit[k - 1] {
            0nat
        } else {
            1
        }
    }
}

/// One issue for each of the first `k` centres without a point.
pub open spec fn idle_issues(hit: Seq<bool>, k: nat) -> Seq<Issue>
    decreases k,
{
    if k == 0 {
        Seq::empty()
    } else {
        idle_issues(hit, (k - 1) as nat) + given(!hit[k - 1], IssueCode::EmptyCluster)
    }
}

/// Sum of the squared movements of the first `k` centres.
pub open spec fn squared_shift(after: Seq<Seq<Double>>, before: Seq<Seq<Double>>, k: nat) -> Double
    decreases k,
{
    if k == 0 {
        zero()
    } else {
        squares_from(squared_shift(after, before, (k - 1) as nat), after[k - 1], before[k - 1], after[k - 1].len())
    }
}

impl Default for StreamKMeans {
    fn default() -> (r: StreamKMeans)
        ensures
            r.blank(2),
            r.wf(),
    {
        StreamKMeans::new(2)
    }
}

fn distances_to(rows: &Vec<Vec<Double>>, row: &Vec<Double>, width: usize) -> (r: Vec<Double>)
    requires
        width <= row@.len(),
        forall|c: int| 0 <= c < rows@.len() ==> width <= (#[trigger] rows@[c])@.len(),
    ensures
        r@.len() == rows@.len(),
        forall|c: int| 0 <= c < rows@.len() ==> #[trigger] r@[c] == squares_from(zero(), row@, rows@[c]@, width as nat),
{
    let mut r: Vec<Double> = Vec::new();
    let mut c: usize = 0;
    while c < rows.len()
        invariant
            c <= rows@.len(),
            width <= row@.len(),
            forall|c: int| 0 <= c < rows@.len() ==> width <= (#[trigger] rows@[c])@.len(),
            r@.len() == c,
            forall|a: int| 0 <= a < c ==> #[trigger] r@[a] == squares_from(zero(), row@, rows@[a]@, width as nat),
        decreases rows@.len() - c,
    {
        r.push(add_squares(zero(), row, &rows[c], width));
        c = c + 1;
    }
    r
}

impl StreamKMeans {
    /// As many counts as centres; at least one centre once there are any.
    pub open spec fn wf(&self) -> bool {
        &&& self.centers.wf()
        &&& self.centers.height() == self.counts@.len()
        &&& self.initialized ==> self.centers.height() > 0
    }

    /// The state before any row.
    pub open spec fn blank(&self, k: usize) -> bool {
        &&& self.k == if k < 1 {
            1
        } else {
            k
        }
        &&& self.centers.height() == 0
        &&& self.centers.width == 0
        &&& self.counts@.len() == 0
        &&& self.n_seen == 0
        &&& self.updates == 0
        &&& !self.initialized
    }

    /// `k` streaming centres, at least one.
    pub fn new(k: usize) -> (r: StreamKMeans)
        ensures
            r.blank(k),
            r.wf(),
    {
        StreamKMeans {
            k: if k < 1 {
                1
            } else {
                k
            },
            centers: Matrix { rows: Vec::new(), width: 0 },
            counts: Vec::new(),
            n_seen: 0,
            updates: 0,
            initialized: false,
        }
    }

    /// The current centres.
    pub fn centers(&self) -> (r: &Matrix)
        ensures
            *r == self.centers,
    {
        &self.centers
    }

    /// Number of centres that a batch finds in place.
    pub open spec fn held(&self) -> nat {
        if !self.initialized {
            0
        } else if self.centers.height() < self.k {
            self.centers.height()
        } else {
            self.k as nat
        }
    }

    /// The `k` centres that a batch starts from. Those that are missing, which is all of
    /// them before the first batch, are its rows in turn, from the first row again after
    /// the last, and have received nothing.
    pub open spec fn start(&self, x: &Matrix) -> Centres {
        let held = self.held() as int;
        Centres {
            centers: Seq::new(
                self.k as nat,
                |c: int|
                    if c < held {
                        self.centers.grid()[c]
                    } else {
                        x.grid()[(c - held) % (x.height() as int)]
                    },
            ),
            counts: Seq::new(
                self.k as nat,
                |c: int|
                    if c < held {
                        self.counts@[c]
                    } else {
                        zero()
                    },
            ),
            hit: Seq::new(self.k as nat, |c: int| false),
        }
    }

    /// Why a batch is turned away.
    pub open spec fn refusal(&self, x: &Matrix) -> Option<IssueCode> {
        if x.height() == 0 || x.width == 0 {
            Some(IssueCode::PartialFitBeforeInit)
        } else if self.initialized && self.centers.width != x.width {
            Some(IssueCode::FeatureSpaceChangedOnline)
        } else {
            None
        }
    }

    /// Quality figures of a batch that moved the centres by `shift`.
    pub open spec fn figures(&self, shift: Double, batch: usize) -> IncrementalQuality {
        IncrementalQuality {
            effective_sample_size: Double::from_u64(self.n_seen),
            parameter_delta_norm: Some(shift),
            information_gain: Some(shift),
            still_identified: self.n_seen >= self.k,
            warmup: self.n_seen < self.k,
            ..IncrementalQuality::new((self.updates - 1) as u64, batch, self.n_seen)
        }
    }

    fn seed(&self, x: &Matrix) -> (r: (Vec<Vec<Double>>, Vec<Double>))
        requires
            self.wf(),
            x.wf(),
            self.refusal(x) is None,
            self.k >= 1,
        ensures
            r.0@.len() == self.k,
            forall|c: int| 0 <= c < self.k ==> (#[trigger] r.0@[c])@.len() == x.width,
            forall|c: int| 0 <= c < self.k ==> (#[trigger] r.0@[c])@ == self.start(x).centers[c],
            r.1@ == self.start(x).counts,
    {
        let held: usize = if !self.initialized {
            0
        } else if self.centers.nrows() < self.k {
            self.centers.nrows()
        } else {
            self.k
        };
        let ghost start = self.start(x);
        let n: usize = x.nrows();
        let mut rows: Vec<Vec<Double>> = Vec::new();
        let mut counts: Vec<Double> = Vec::new();
        let mut c: usize = 0;
        while c < self.k
            invariant
                c <= self.k,
                self.wf(),
                x.wf(),
                self.refusal(x) is None,
                n == x.height(),
                n > 0,
                held == self.held(),
                start == self.start(x),
                rows@.len() == c,
                forall|a: int| 0 <= a < c ==> (#[trigger] rows@[a])@ == start.centers[a] && rows@[a]@.len() == x.width,
                counts@ == start.counts.take(c as int),
            decreases self.k - c,
        {
            if c < held {
                rows.push(self.centers.row(c));
                counts.push(self.counts[c]);
            } else {
                rows.push(x.row((c - held) % n));
                counts.push(zero());
            }
            c = c + 1;
            assert(counts@ =~= start.counts.take(c as int));
        }
        assert(counts@ =~= start.counts);
        (rows, counts)
    }

    /// Assigns every row to its nearest centre and moves the centre.
    pub fn partial_fit(&mut self, x: &Matrix, _y: Option<&Vec<Double>>) -> (r: Update)
        requires
            old(self).wf(),
            old(self).k >= 1,
            x.wf(),
            old(self).n_seen + x.height() <= u64::MAX,
            old(self).updates < u64::MAX,
        ensures
            final(self).wf(),
            final(self).k == old(self).k,
            match old(self).refusal(x) {
                Some(code) => {
                    &&& *final(self) == *old(self)
                    &&& reports(
                        &r,
                        IncrementalQuality::new(old(self).updates, x.height() as usize, old(self).n_seen),
                        seq![issue(code)],
                        false,
                    )
                },
                None => {
                    let start = old(self).start(x);
                    let end = start.after(x, x.height());
                    let m = end.centers.len();
                    &&& final(self).centers.grid() == end.centers
                    &&& final(self).centers.height() == final(self).k
                    &&& final(self).centers.width == x.width
                    &&& final(self).counts@ == end.counts
                    &&& final(self).counts@.len() == final(self).k
                    &&& final(self).n_seen == old(self).n_seen + x.height()
                    &&& final(self).updates == old(self).updates + 1
                    &&& final(self).initialized
                    &&& reports(
                        &r,
                        final(self).figures(squared_shift(end.centers, start.centers, m).sqrt(), x.height() as usize),
                        idle_issues(end.hit, m) + given(
                            idle_count(end.hit, m) + 1 >= m,
                            IssueCode::DegenerateClusters,
                        ),
                        true,
                    )
                },
            },
    {
        let mut issues: Vec<Issue> = Vec::new();
        if x.nrows() == 0 || x.ncols() == 0 {
            issues.push(issue(IssueCode::PartialFitBeforeInit));
            assert(issues@ =~= seq![issue(IssueCode::PartialFitBeforeInit)]);
            return rejection(self.updates, x.nrows(), self.n_seen, issues);
        }
        if self.initialized && self.centers.ncols() != x.ncols() {
            issues.push(issue(IssueCode::FeatureSpaceChangedOnline));
            assert(issues@ =~= seq![issue(IssueCode::FeatureSpaceChangedOnline)]);
            return rejection(self.updates, x.nrows(), self.n_seen, issues);
        }
        let (before, _): (Vec<Vec<Double>>, Vec<Double>) = self.seed(x);
        let (mut rows, mut counts): (Vec<Vec<Double>>, Vec<Double>) = self.seed(x);
        let m: usize = rows.len();
        let ghost start = self.start(x);
        let mut hit: Vec<bool> = Vec::new();
        let mut c: usize = 0;
        while c < m
            invariant
                c <= m,
                hit@ == Seq::new(c as nat, |a: int| false),
            decreases m - c,
        {
            hit.push(false);
            c = c + 1;
            assert(hit@ =~= Seq::new(c as nat, |a: int| false));
        }
        assert(hit@ =~= start.hit);
        let mut i: usize = 0;
        while i < x.nrows()
            invariant
                i <= x.height(),
                x.wf(),
                m > 0,
                rows@.len() == m,
                m == self.k,
                counts@.len() == m,
                hit@.len() == m,
                forall|c: int| 0 <= c < m ==> (#[trigger] rows@[c])@.len() == x.width,
                start.after(x, i as nat).centers.len() == m,
                forall|c: int| 0 <= c < m ==> (#[trigger] rows@[c])@ == start.after(x, i as nat).centers[c],
                counts@ == start.after(x, i as nat).counts,
                hit@ == start.after(x, i as nat).hit,
            decreases x.height() - i,
        {
            let row = x.row(i);
            let ghost now = start.after(x, i as nat);
            let ds = distances_to(&rows, &row, x.ncols());
            assert(ds@ =~= distances(now.centers, row@, row@.len()));
            let best: usize = match find_min(&ds).0 {
                Some(c) => c,
                None => 0,
            };
            hit.set(best, true);
            let count: Double = counts[best].plus(one());
            counts.set(best, count);
            let eta: Double = one().over(count);
            let moved = pull(&rows[best], &row, eta);
            rows.set(best, moved);
            i = i + 1;
        }
        let ghost end = start.after(x, x.height());
        let mut idle: usize = 0;
        let mut shift: Double = zero();
        let mut c: usize = 0;
        assert(issues@ =~= idle_issues(end.hit, 0));
        while c < m
            invariant
                c <= m,
                rows@.len() == m,
                before@.len() == m,
                hit@ == end.hit,
                hit@.len() == m,
                end.centers.len() == m,
                start.centers.len() == m,
                forall|c: int| 0 <= c < m ==> (#[trigger] rows@[c])@ == end.centers[c] && rows@[c]@.len() == x.width,
                forall|c: int| 0 <= c < m ==> (#[trigger] before@[c])@ == start.centers[c] && before@[c]@.len()
                    == x.width,
                issues@ == idle_issues(end.hit, c as nat),
                idle == idle_count(end.hit, c as nat),
                idle <= c,
                shift == squared_shift(end.centers, start.centers, c as nat),
            decreases m - c,
        {
            raise(&mut issues, !hit[c], IssueCode::EmptyCluster);
            if !hit[c] {
                idle = idle + 1;
            }
            shift = add_squares(shift, &rows[c], &before[c], x.ncols());
            c = c + 1;
        }
        raise(&mut issues, idle == m || idle + 1 >= m, IssueCode::DegenerateClusters);
        let value = Matrix { rows, width: x.ncols() };
        assert(value.grid() =~= end.centers);
        self.centers = value;
        self.counts = counts;
        self.initialized = true;
        self.n_seen = self.n_seen + x.nrows() as u64;
        self.updates = self.updates + 1;
        let dn: Double = shift.sqrt();
        let quality = IncrementalQuality {
            effective_sample_size: Double::from_u64(self.n_seen),
            parameter_delta_norm: Some(dn),
            information_gain: Some(dn),
            still_identified: self.n_seen >= self.k as u64,
            warmup: self.n_seen < self.k as u64,
            ..IncrementalQuality::new(self.updates - 1, x.nrows(), self.n_seen)
        };
        screened_report(quality, issues)
    }

    /// The nearest centre of each row, over the columns that both have.
    pub fn predict(&self, x: &Matrix) -> (out: Qualified<Vec<Double>>)
        requires
            self.wf(),
            x.wf(),
        ensures
            ({
                let p: nat = if x.width < self.centers.width {
                    x.width as nat
                } else {
                    self.centers.width as nat
                };
                if !self.initialized {
                    &&& out.value@ == Seq::new(x.height(), |i: int| zero())
                    &&& out.report@ == seq![issue(IssueCode::PartialFitBeforeInit)]
                } else {
                    &&& out.report@.len() == 0
                    &&& out.value@ == Seq::new(
                        x.height(),
                        |i: int| Double::from_usize(nearest(self.centers.grid(), x.rows@[i]@, p) as usize),
                    )
                }
            }),
    {
        let mut report: Vec<Issue> = Vec::new();
        if !self.initialized {
            report.push(issue(IssueCode::PartialFitBeforeInit));
            assert(report@ =~= seq![issue(IssueCode::PartialFitBeforeInit)]);
            let value = zeros(x.nrows());
            assert(value@ =~= Seq::new(x.height(), |i: int| zero()));
            return Qualified { value, report };
        }
        let p: usize = if x.ncols() < self.centers.ncols() {
            x.ncols()
        } else {
            self.centers.ncols()
        };
        let ghost g = self.centers.grid();
        let mut value: Vec<Double> = Vec::new();
        let mut i: usize = 0;
        while i < x.nrows()
            invariant
                i <= x.height(),
                x.wf(),
                self.wf(),
                p <= x.width,
                p <= self.centers.width,
                g == self.centers.grid(),
                value@ == Seq::new(
                    i as nat,
                    |a: int| Double::from_usize(nearest(g, x.rows@[a]@, p as nat) as usize),
                ),
            decreases x.height() - i,
        {
            let ds = distances_to(&self.centers.rows, &x.rows[i], p);
            assert(ds@ =~= distances(g, x.rows@[i as int]@, p as nat));
            let best: usize = match find_min(&ds).0 {
                Some(c) => c,
                None => 0,
            };
            value.push(Double::from_usize(best));
            i = i + 1;
            assert(value@ =~= Seq::new(
                i as nat,
                |a: int| Double::from_usize(nearest(g, x.rows@[a]@, p as nat) as usize),
            ));
        }
        Qualified { value, report }
    }
}

fn pull(center: &Vec<Double>, row: &Vec<Double>, eta: Double) -> (r: Vec<Double>)
    requires
        center@.len() == row@.len(),
    ensures
        r@ == pulled(center@, row@, eta),
{
    let mut r: Vec<Double> = Vec::new();
    let mut j: usize = 0;
    while j < center.len()
        invariant
            j <= center@.len(),
            center@.len() == row@.len(),
            r@ == pulled(center@, row@, eta).take(j as int),
        decreases center@.len() - j,
    {
        r.push(center[j].plus(eta.times(row[j].minus(center[j]))));
        j = j + 1;
        assert(r@ =~= pulled(center@, row@, eta).take(j as int));
    }
    assert(r@ =~= pulled(center@, row@, eta));
    r
}

/// A decaying micro-cluster.
#[derive(Clone, Debug)]
pub struct Micro {
    /// Centre.
    pub center: Vec<Double>,
    /// Weight.
    pub weight: Double,
}

/// Mathematical content of a list of micro-clusters, with the counts of a batch.
pub struct MicroStream {
    /// Centres and weights.
    pub micros: Seq<(Seq<Double>, Double)>,
    /// Rows that joined a micro-cluster.
    pub merged: nat,
    /// Rows that started one.
    pub spawned: nat,
}

/// Centres and weights of micro-clusters.
pub open spec fn micro_seq(micros: Seq<Micro>) -> Seq<(Seq<Double>, Double)> {
    Seq::new(micros.len(), |c: int| (micros[c].center@, micros[c].weight))
}

/// The first `k` micro-clusters after decay by `lambda`, without those that fell
/// below one thousandth.
pub open spec fn decayed(micros: Seq<(Seq<Double>, Double)>, lambda: Double, k: nat) -> Seq<(Seq<Double>, Double)>
    decreases k,
{
    if k == 0 {
        Seq::empty()
    } else {
        let earlier = decayed(micros, lambda, (k - 1) as nat);
        let w = micros[k - 1].1.times(lambda);
        if w.ge(ten_to_minus_3()) {
            earlier.push((micros[k - 1].0, w))
        } else {
            earlier
        }
    }
}

/// The shorter of two lengths.
pub open spec fn shorter(a: nat, b: nat) -> nat {
    if a < b {
        a
    } else {
        b
    }
}

/// Distances of a row to the centres of micro-clusters, over common entries.
pub open spec fn micro_distances(micros: Seq<(Seq<Double>, Double)>, row: Seq<Double>) -> Seq<Double> {
    Seq::new(
        micros.len(),
        |c: int| squares_from(zero(), row, micros[c].0, shorter(row.len(), micros[c].0.len())).sqrt(),
    )
}

/// A micro-cluster after a row joined it.
pub open spec fn joined(micro: (Seq<Double>, Double), row: Seq<Double>) -> (Seq<Double>, Double) {
    let w = micro.1;
    let nw = w.plus(one());
    (
        Seq::new(
            micro.0.len(),
            |j: int|
                if j < row.len() {
                    w.times(micro.0[j]).plus(row[j]).over(nw)
                } else {
                    micro.0[j]
                },
        ),
        nw,
    )
}

impl MicroStream {
    /// The micro-clusters after one more row: all decay, then the row joins the
    /// nearest one within `eps`, or starts a new one.
    pub open spec fn fed(self, row: Seq<Double>, eps: Double, lambda: Double) -> MicroStream {
        let kept = decayed(self.micros, lambda, self.micros.len());
        let (best, distance) = argmin(micro_distances(kept, row), kept.len());
        if best is Some && distance.le(eps) {
            MicroStream {
                micros: kept.update(best->0 as int, joined(kept[best->0 as int], row)),
                merged: self.merged + 1,
                spawned: self.spawned,
            }
        } else {
            MicroStream { micros: kept.push((row, one())), merged: self.merged, spawned: self.spawned + 1 }
        }
    }

    /// The micro-clusters after the first `k` rows.
    pub open spec fn after(self, x: &Matrix, eps: Double, lambda: Double, k: nat) -> MicroStream
        decreases k,
    {
        if k == 0 {
            self
        } else {
            self.after(x, eps, lambda, (k - 1) as nat).fed(x.rows@[k - 1]@, eps, lambda)
        }
    }
}

/// Every row either joins a micro-cluster or starts one.
pub proof fn law_every_row_is_placed(start: MicroStream, x: &Matrix, eps: Double, lambda: Double, k: nat)
    ensures
        start.after(x, eps, lambda, k).merged + start.after(x, eps, lambda, k).spawned == start.merged + start.spawned + k,
        k > 0 ==> start.after(x, eps, lambda, k).micros.len() > 0,
    decreases k,
{
    if k > 0 {
        law_every_row_is_placed(start, x, eps, lambda, (k - 1) as nat);
        let now = start.after(x, eps, lambda, (k - 1) as nat);
        let kept = decayed(now.micros, lambda, now.micros.len());
        lemma_argmin_position(micro_distances(kept, x.rows@[k - 1]@), kept.len());
    }
}

fn decay(micros: &mut Vec<Micro>, lambda: Double)
    ensures
        micro_seq(final(micros)@) == decayed(micro_seq(old(micros)@), lambda, old(micros)@.len()),
{
    let ghost start = micro_seq(micros@);
    let mut kept: Vec<Micro> = Vec::new();
    let mut c: usize = 0;
    assert(micro_seq(kept@) =~= decayed(start, lambda, 0));
    while c < micros.len()
        invariant
            c <= micros@.len(),
            start == micro_seq(micros@),
            micro_seq(kept@) == decayed(start, lambda, c as nat),
        decreases micros@.len() - c,
    {
        let w: Double = micros[c].weight.times(lambda);
        let ghost earlier = kept@;
        if w.ge(ten_to_minus_3()) {
            let m = Micro { center: copy(&micros[c].center), weight: w };
            kept.push(m);
            assert(micro_seq(kept@) =~= micro_seq(earlier).push((start[c as int].0, w)));
        }
        c = c + 1;
    }
    *micros = kept;
}

fn feed(micros: &mut Vec<Micro>, row: Vec<Double>, eps: Double, lambda: Double) -> (joined_one: bool)
    ensures
        ({
            let start = MicroStream { micros: micro_seq(old(micros)@), merged: 0, spawned: 0 };
            let end = start.fed(row@, eps, lambda);
            &&& micro_seq(final(micros)@) == end.micros
            &&& joined_one == (end.merged == 1)
            &&& !joined_one == (end.spawned == 1)
        }),
{
    decay(micros, lambda);
    let ghost kept = micro_seq(micros@);
    let mut ds: Vec<Double> = Vec::new();
    let mut c: usize = 0;
    while c < micros.len()
        invariant
            c <= micros@.len(),
            kept == micro_seq(micros@),
            ds@ == micro_distances(kept, row@).take(c as int),
        decreases micros@.len() - c,
    {
        let n: usize = if row.len() < micros[c].center.len() {
            row.len()
        } else {
            micros[c].center.len()
        };
        ds.push(add_squares(zero(), &row, &micros[c].center, n).sqrt());
        c = c + 1;
        assert(ds@ =~= micro_distances(kept, row@).take(c as int));
    }
    assert(ds@ =~= micro_distances(kept, row@));
    let (best, distance): (Option<usize>, Double) = find_min(&ds);
    match best {
        Some(b) => {
            if distance.le(eps) {
                let m = join(&micros[b], &row);
                micros.set(b, m);
                assert(micro_seq(micros@) =~= kept.update(b as int, joined(kept[b as int], row@)));
                return true;
            }
        },
        None => {},
    }
    micros.push(Micro { center: row, weight: one() });
    assert(micro_seq(micros@) =~= kept.push((row@, one())));
    false
}

fn join(micro: &Micro, row: &Vec<Double>) -> (r: Micro)
    ensures
        (r.center@, r.weight) == joined((micro.center@, micro.weight), row@),
{
    let ghost target = joined((micro.center@, micro.weight), row@).0;
    let w: Double = micro.weight;
    let nw: Double = w.plus(one());
    let mut center: Vec<Double> = Vec::new();
    let mut j: usize = 0;
    while j < micro.center.len()
        invariant
            j <= micro.center@.len(),
            w == micro.weight,
            nw == w.plus(one()),
            target == joined((micro.center@, micro.weight), row@).0,
            center@ == target.take(j as int),
        decreases micro.center@.len() - j,
    {
        if j < row.len() {
            center.push(w.times(micro.center[j]).plus(row[j]).over(nw));
        } else {
            center.push(micro.center[j]);
        }
        j = j + 1;
        assert(center@ =~= target.take(j as int));
    }
    assert(center@ =~= target);
    Micro { center, weight: nw }
}

fn feed_all(micros: &mut Vec<Micro>, x: &Matrix, eps: Double, lambda: Double) -> (r: (usize, usize))
    requires
        x.wf(),
    ensures
        ({
            let start = MicroStream { micros: micro_seq(old(micros)@), merged: 0, spawned: 0 };
            let end = start.after(x, eps, lambda, x.height());
            &&& micro_seq(final(micros)@) == end.micros
            &&& r.0 == end.merged
            &&& r.1 == end.spawned
        }),
        r.0 + r.1 == x.height(),
{
    let ghost start = MicroStream { micros: micro_seq(micros@), merged: 0, spawned: 0 };
    let mut merged: usize = 0;
    let mut spawned: usize = 0;
    let mut i: usize = 0;
    while i < x.nrows()
        invariant
            i <= x.height(),
            x.wf(),
            micro_seq(micros@) == start.after(x, eps, lambda, i as nat).micros,
            merged == start.after(x, eps, lambda, i as nat).merged,
            spawned == start.after(x, eps, lambda, i as nat).spawned,
            merged + spawned == i,
        decreases x.height() - i,
    {
        let row = x.row(i);
        if feed(micros, row, eps, lambda) {
            merged = merged + 1;
        } else {
            spawned = spawned + 1;
        }
        i = i + 1;
    }
    (merged, spawned)
}

/// Sum of the weights of the first `k` micro-clusters.
pub open spec fn total_weight(micros: Seq<(Seq<Double>, Double)>, k: nat) -> Double
    decreases k,
{
    if k == 0 {
        zero()
    } else {
        total_weight(micros, (k - 1) as nat).plus(micros[k - 1].1)
    }
}

/// Decaying micro-clusters within a radius.
#[derive(Clone, Debug)]
pub struct DenStream {
    /// Radius.
    pub eps: Double,
    /// Weight kept at each step.
    pub lambda: Double,
    /// Micro-clusters.
    pub micros: Vec<Micro>,
    /// Rows taken in.
    pub n_seen: u64,
    /// Batches taken in.
    pub updates: u64,
}

impl Default for DenStream {
    fn default() -> (r: DenStream)
        ensures
            r.blank(one()),
    {
        DenStream::new(one())
    }
}

impl DenStream {
    /// The state before any row.
    pub open spec fn blank(&self, eps: Double) -> bool {
        &&& self.eps == eps
        &&& self.lambda == decimal_99()
        &&& self.micros@.len() == 0
        &&& self.n_seen == 0
        &&& self.updates == 0
    }

    /// An estimator with the given radius.
    pub fn new(eps: Double) -> (r: DenStream)
        ensures
            r.blank(eps),
    {
        DenStream { eps, lambda: decimal_99(), micros: Vec::new(), n_seen: 0, updates: 0 }
    }

    /// Current number of micro-clusters.
    pub fn n_micro(&self) -> (n: usize)
        ensures
            n == self.micros@.len(),
    {
        self.micros.len()
    }

    /// The micro-clusters after a batch.
    pub open spec fn end(&self, x: &Matrix) -> MicroStream {
        MicroStream { micros: micro_seq(self.micros@), merged: 0, spawned: 0 }.after(
            x,
            self.eps,
            self.lambda.clamp(ten_to_minus_6(), one()),
            x.height(),
        )
    }

    /// Quality figures of a batch.
    pub open spec fn figures(&self, end: MicroStream, batch: usize) -> IncrementalQuality {
        IncrementalQuality {
            effective_sample_size: total_weight(end.micros, end.micros.len()),
            information_gain: Some(
                Double::from_u64(end.merged as u64).plus(Double::from_u64(end.spawned as u64)),
            ),
            still_identified: end.micros.len() > 0,
            warmup: self.n_seen < 4,
            ..IncrementalQuality::new((self.updates - 1) as u64, batch, self.n_seen)
        }
    }

    /// Feeds the rows of a batch to the micro-clusters.
    pub fn partial_fit(&mut self, x: &Matrix, _y: Option<&Vec<Double>>) -> (r: Update)
        requires
            x.wf(),
            old(self).n_seen + x.height() <= u64::MAX,
            old(self).updates < u64::MAX,
        ensures
            final(self).eps == old(self).eps,
            final(self).lambda == old(self).lambda,
            micro_seq(final(self).micros@) == old(self).end(x).micros,
            final(self).n_seen == old(self).n_seen + x.height(),
            final(self).updates == old(self).updates + 1,
            reports(
                &r,
                final(self).figures(old(self).end(x), x.height() as usize),
                shape_issues(x, None) + given(
                    !(old(self).eps.is_finite() && old(self).eps.gt(zero())),
                    IssueCode::InvalidWeight,
                ) + given(
                    old(self).end(x).micros.len() == 0 && x.height() > 0,
                    IssueCode::EmptyCluster,
                ) + given(final(self).n_seen < 4, IssueCode::WarmupIncomplete),
                false,
            ),
    {
        let mut issues: Vec<Issue> = Vec::new();
        let ghost end = self.end(x);
        inspect_online_xy(&mut issues, x, None);
        raise(&mut issues, !(self.eps.is_finite() && self.eps.gt(zero())), IssueCode::InvalidWeight);
        let lambda: Double = self.lambda.clamp(ten_to_minus_6(), one());
        let (merged, spawned): (usize, usize) = feed_all(&mut self.micros, x, self.eps, lambda);
        self.n_seen = self.n_seen + x.nrows() as u64;
        self.updates = self.updates + 1;
        raise(&mut issues, self.micros.len() == 0 && x.nrows() > 0, IssueCode::EmptyCluster);
        let mut weight: Double = zero();
        let mut c: usize = 0;
        while c < self.micros.len()
            invariant
                c <= self.micros@.len(),
                micro_seq(self.micros@) == end.micros,
                weight == total_weight(end.micros, c as nat),
            decreases self.micros@.len() - c,
        {
            assert(end.micros[c as int].1 == self.micros@[c as int].weight);
            weight = weight.plus(self.micros[c].weight);
            c = c + 1;
        }
        assert(end.micros.len() == self.micros@.len());
        let quality = IncrementalQuality {
            effective_sample_size: weight,
            information_gain: Some(Double::from_u64(merged as u64).plus(Double::from_u64(spawned as u64))),
            still_identified: self.micros.len() > 0,
            warmup: self.n_seen < 4,
            ..IncrementalQuality::new(self.updates - 1, x.nrows(), self.n_seen)
        };
        raise(&mut issues, self.n_seen < 4, IssueCode::WarmupIncomplete);
        plain_report(quality, issues)
    }
}

/// Micro-clusters that are linked into clusters when they overlap.
#[derive(Clone, Debug)]
pub struct DbStream {
    /// Radius.
    pub eps: Double,
    /// Weight kept at each row.
    pub lambda: Double,
    /// Micro-clusters.
    pub micros: Vec<Micro>,
    /// Rows taken in.
    pub n_seen: u64,
    /// Batches taken in.
    pub updates: u64,
}

impl Default for DbStream {
    fn default() -> (r: DbStream)
        ensures
            r.blank(one()),
    {
        DbStream::new(one())
    }
}

/// Whether two micro-clusters overlap.
pub open spec fn linked(micros: Seq<(Seq<Double>, Double)>, link: Double, a: int, b: int) -> bool {
    squares_from(zero(), micros[a].0, micros[b].0, shorter(micros[a].0.len(), micros[b].0.len())).sqrt().le(link)
}

/// Labels after micro-clusters `a` and `b` are put together: all that shared the
/// label of `b` get the label of `a`.
pub open spec fn united(labels: Seq<usize>, a: int, b: int) -> Seq<usize> {
    Seq::new(
        labels.len(),
        |c: int|
            if labels[c] == labels[b] {
                labels[a]
            } else {
                labels[c]
            },
    )
}

/// Labels after micro-cluster `a` was compared with those from `a + 1` to `b - 1`.
pub open spec fn labels_row(
    micros: Seq<(Seq<Double>, Double)>,
    link: Double,
    labels: Seq<usize>,
    a: int,
    b: int,
) -> Seq<usize>
    decreases b - a,
{
    if b <= a + 1 {
        labels
    } else {
        let earlier = labels_row(micros, link, labels, a, b - 1);
        if linked(micros, link, a, b - 1) {
            united(earlier, a, b - 1)
        } else {
            earlier
        }
    }
}

/// Labels after the first `k` micro-clusters were compared with all later ones.
/// Each micro-cluster starts with its own number.
pub open spec fn cluster_labels(micros: Seq<(Seq<Double>, Double)>, link: Double, k: nat) -> Seq<usize>
    decreases k,
{
    if k == 0 {
        Seq::new(micros.len(), |c: int| c as usize)
    } else {
        labels_row(
            micros,
            link,
            cluster_labels(micros, link, (k - 1) as nat),
            k - 1,
            micros.len() as int,
        )
    }
}

/// Overlapping micro-clusters end up with the same label.
pub proof fn law_linked_share_label(micros: Seq<(Seq<Double>, Double)>, link: Double, k: nat, a: int, b: int)
    requires
        0 <= a < b < micros.len(),
        a < k <= micros.len(),
        linked(micros, link, a, b),
    ensures
        cluster_labels(micros, link, k)[a] == cluster_labels(micros, link, k)[b],
    decreases k,
{
    lemma_labels_len(micros, link, (k - 1) as nat);
    let start = cluster_labels(micros, link, (k - 1) as nat);
    if a < k - 1 {
        law_linked_share_label(micros, link, (k - 1) as nat, a, b);
        lemma_row_keeps(micros, link, start, k - 1, micros.len() as int, a, b);
    } else {
        lemma_row_unites(micros, link, start, a, micros.len() as int, b);
    }
}

proof fn lemma_labels_len(micros: Seq<(Seq<Double>, Double)>, link: Double, k: nat)
    ensures
        cluster_labels(micros, link, k).len() == micros.len(),
    decreases k,
{
    if k > 0 {
        lemma_labels_len(micros, link, (k - 1) as nat);
        lemma_row_len(micros, link, cluster_labels(micros, link, (k - 1) as nat), k - 1, micros.len() as int);
    }
}

proof fn lemma_row_len(micros: Seq<(Seq<Double>, Double)>, link: Double, labels: Seq<usize>, a: int, b: int)
    ensures
        labels_row(micros, link, labels, a, b).len() == labels.len(),
    decreases b - a,
{
    if b > a + 1 {
        lemma_row_len(micros, link, labels, a, b - 1);
    }
}

proof fn lemma_row_keeps(
    micros: Seq<(Seq<Double>, Double)>,
    link: Double,
    labels: Seq<usize>,
    a: int,
    b: int,
    p: int,
    q: int,
)
    requires
        0 <= p < labels.len(),
        0 <= q < labels.len(),
        labels[p] == labels[q],
    ensures
        labels_row(micros, link, labels, a, b)[p] == labels_row(micros, link, labels, a, b)[q],
    decreases b - a,
{
    if b > a + 1 {
        lemma_row_keeps(micros, link, labels, a, b - 1, p, q);
        lemma_row_len(micros, link, labels, a, b - 1);
    }
}

proof fn lemma_row_unites(micros: Seq<(Seq<Double>, Double)>, link: Double, labels: Seq<usize>, a: int, b: int, c: int)
    requires
        0 <= a < c < b <= labels.len(),
        linked(micros, link, a, c),
    ensures
        labels_row(micros, link, labels, a, b)[a] == labels_row(micros, link, labels, a, b)[c],
    decreases b - a,
{
    lemma_row_len(micros, link, labels, a, b - 1);
    if c < b - 1 {
        lemma_row_unites(micros, link, labels, a, b - 1, c);
    }
}

impl DbStream {
    /// The state before any row.
    pub open spec fn blank(&self, eps: Double) -> bool {
        &&& self.eps == eps
        &&& self.lambda == decimal_99()
        &&& self.micros@.len() == 0
        &&& self.n_seen == 0
        &&& self.updates == 0
    }

    /// An estimator with the given radius.
    pub fn new(eps: Double) -> (r: DbStream)
        ensures
            r.blank(eps),
    {
        DbStream { eps, lambda: decimal_99(), micros: Vec::new(), n_seen: 0, updates: 0 }
    }

    /// Current number of micro-clusters.
    pub fn n_micro(&self) -> (n: usize)
        ensures
            n == self.micros@.len(),
    {
        self.micros.len()
    }

    /// The radius that is used: 1 for one that is not positive and finite.
    pub open spec fn radius(&self) -> Double {
        if self.eps.is_finite() && self.eps.gt(zero()) {
            self.eps
        } else {
            one()
        }
    }

    /// The decay that is used: 0.99 for one outside `(0, 1]`.
    pub open spec fn decay_rate(&self) -> Double {
        if self.lambda.is_finite() && self.lambda.gt(zero()) && self.lambda.le(one()) {
            self.lambda
        } else {
            decimal_99()
        }
    }

    /// The micro-clusters after a batch.
    pub open spec fn end(&self, x: &Matrix) -> MicroStream {
        MicroStream { micros: micro_seq(self.micros@), merged: 0, spawned: 0 }.after(
            x,
            self.radius(),
            self.decay_rate(),
            x.height(),
        )
    }

    /// Quality figures of a batch.
    pub open spec fn figures(&self, end: MicroStream, batch: usize) -> IncrementalQuality {
        IncrementalQuality {
            effective_sample_size: Double::from_u64(self.n_seen),
            parameter_delta_norm: Some(Double::from_u64((end.spawned + end.merged) as u64)),
            information_gain: Some(Double::from_usize(batch)),
            still_identified: end.micros.len() > 0,
            warmup: self.n_seen < 2,
            ..IncrementalQuality::new((self.updates - 1) as u64, batch, self.n_seen)
        }
    }

    /// Feeds the rows of a batch to the micro-clusters.
    pub fn partial_fit(&mut self, x: &Matrix, _y: Option<&Vec<Double>>) -> (r: Update)
        requires
            x.wf(),
            old(self).n_seen + x.height() <= u64::MAX,
            old(self).updates < u64::MAX,
        ensures
            final(self).eps == old(self).eps,
            final(self).lambda == old(self).lambda,
            micro_seq(final(self).micros@) == old(self).end(x).micros,
            final(self).n_seen == old(self).n_seen + x.height(),
            final(self).updates == old(self).updates + 1,
            reports(
                &r,
                final(self).figures(old(self).end(x), x.height() as usize),
                shape_issues(x, None) + warn_if(
                    !(old(self).eps.is_finite() && old(self).eps.gt(zero())),
                    IssueCode::InvalidWeight,
                ) + warn_if(
                    !(old(self).lambda.is_finite() && old(self).lambda.gt(zero()) && old(self).lambda.le(one())),
                    IssueCode::InvalidWeight,
                ),
                true,
            ),
    {
        let mut issues: Vec<Issue> = Vec::new();
        inspect_online_xy(&mut issues, x, None);
        let bad_eps: bool = !(self.eps.is_finite() && self.eps.gt(zero()));
        warn(&mut issues, bad_eps, IssueCode::InvalidWeight);
        let bad_lambda: bool = !(self.lambda.is_finite() && self.lambda.gt(zero()) && self.lambda.le(one()));
        warn(&mut issues, bad_lambda, IssueCode::InvalidWeight);
        let eps: Double = if bad_eps {
            one()
        } else {
            self.eps
        };
        let lambda: Double = if bad_lambda {
            decimal_99()
        } else {
            self.lambda
        };
        let ghost end = self.end(x);
        let (merged, spawned): (usize, usize) = feed_all(&mut self.micros, x, eps, lambda);
        self.n_seen = self.n_seen + x.nrows() as u64;
        self.updates = self.updates + 1;
        assert(end.micros.len() == self.micros@.len());
        let quality = IncrementalQuality {
            effective_sample_size: Double::from_u64(self.n_seen),
            parameter_delta_norm: Some(Double::from_u64((spawned + merged) as u64)),
            information_gain: Some(Double::from_usize(x.nrows())),
            still_identified: self.micros.len() > 0,
            warmup: self.n_seen < 2,
            ..IncrementalQuality::new(self.updates - 1, x.nrows(), self.n_seen)
        };
        screened_report(quality, issues)
    }

    /// The distance up to which micro-clusters overlap.
    pub open spec fn link(&self) -> Double {
        two().times(self.eps.max(ten_to_minus_12()))
    }

    /// Squared distances of a row to the centres, over common entries.
    pub open spec fn row_distances(&self, row: Seq<Double>) -> Seq<Double> {
        Seq::new(
            self.micros@.len(),
            |c: int|
                squares_from(
                    zero(),
                    row,
                    self.micros@[c].center@,
                    shorter(row.len(), self.micros@[c].center@.len()),
                ),
        )
    }

    /// The cluster of a row: the label of its nearest micro-cluster.
    pub open spec fn cluster_of(&self, row: Seq<Double>) -> usize {
        let m = self.micros@.len();
        let best = match argmin(self.row_distances(row), m).0 {
            Some(c) => c as int,
            None => 0,
        };
        cluster_labels(micro_seq(self.micros@), self.link(), m)[best]
    }

    /// The cluster of each row.
    pub fn predict(&self, x: &Matrix) -> (out: Qualified<Vec<Double>>)
        requires
            x.wf(),
        ensures
            if self.micros@.len() == 0 {
                &&& out.value@ == Seq::new(x.height(), |i: int| zero())
                &&& out.report@ == seq![issue(IssueCode::PartialFitBeforeInit)]
            } else {
                &&& out.value@ == Seq::new(x.height(), |i: int| Double::from_usize(self.cluster_of(x.rows@[i]@)))
                &&& out.report@.len() == 0
            },
    {
        let mut report: Vec<Issue> = Vec::new();
        if self.micros.len() == 0 {
            report.push(issue(IssueCode::PartialFitBeforeInit));
            assert(report@ =~= seq![issue(IssueCode::PartialFitBeforeInit)]);
            let value = zeros(x.nrows());
            assert(value@ =~= Seq::new(x.height(), |i: int| zero()));
            return Qualified { value, report };
        }
        let labels = self.labels();
        let mut value: Vec<Double> = Vec::new();
        let mut i: usize = 0;
        while i < x.nrows()
            invariant
                i <= x.height(),
                x.wf(),
                self.micros@.len() > 0,
                labels@.len() == self.micros@.len(),
                labels@ == cluster_labels(micro_seq(self.micros@), self.link(), self.micros@.len()),
                value@ == Seq::new(i as nat, |a: int| Double::from_usize(self.cluster_of(x.rows@[a]@))),
            decreases x.height() - i,
        {
            let row: &Vec<Double> = &x.rows[i];
            let mut ds: Vec<Double> = Vec::new();
            let mut c: usize = 0;
            while c < self.micros.len()
                invariant
                    c <= self.micros@.len(),
                    ds@ == self.row_distances(row@).take(c as int),
                decreases self.micros@.len() - c,
            {
                let n: usize = if row.len() < self.micros[c].center.len() {
                    row.len()
                } else {
                    self.micros[c].center.len()
                };
                ds.push(add_squares(zero(), row, &self.micros[c].center, n));
                c = c + 1;
                assert(ds@ =~= self.row_distances(row@).take(c as int));
            }
            assert(ds@ =~= self.row_distances(row@));
            let best: usize = match find_min(&ds).0 {
                Some(b) => b,
                None => 0,
            };
            value.push(Double::from_usize(labels[best]));
            i = i + 1;
            assert(value@ =~= Seq::new(i as nat, |a: int| Double::from_usize(self.cluster_of(x.rows@[a]@))));
        }
        Qualified { value, report }
    }

    fn labels(&self) -> (labels: Vec<usize>)
        ensures
            labels@ == cluster_labels(micro_seq(self.micros@), self.link(), self.micros@.len()),
            labels@.len() == self.micros@.len(),
    {
        let ghost ms = micro_seq(self.micros@);
        let link: Double = two().times(self.eps.max(ten_to_minus_12()));
        let m: usize = self.micros.len();
        let mut labels: Vec<usize> = Vec::new();
        let mut c: usize = 0;
        while c < m
            invariant
                c <= m,
                labels@ == Seq::new(c as nat, |k: int| k as usize),
            decreases m - c,
        {
            labels.push(c);
            c = c + 1;
            assert(labels@ =~= Seq::new(c as nat, |k: int| k as usize));
        }
        let mut a: usize = 0;
        while a < m
            invariant
                a <= m,
                m == self.micros@.len(),
                ms == micro_seq(self.micros@),
                link == self.link(),
                labels@.len() == m,
                labels@ == cluster_labels(ms, link, a as nat),
            decreases m - a,
        {
            let ghost start = labels@;
            let mut b: usize = a + 1;
            while b < m
                invariant
                    a < b <= m,
                    m == self.micros@.len(),
                    ms == micro_seq(self.micros@),
                    link == self.link(),
                    labels@.len() == m,
                    start.len() == m,
                    labels@ == labels_row(ms, link, start, a as int, b as int),
                decreases m - b,
            {
                let n: usize = if self.micros[a].center.len() < self.micros[b].center.len() {
                    self.micros[a].center.len()
                } else {
                    self.micros[b].center.len()
                };
                let d: Double = add_squares(zero(), &self.micros[a].center, &self.micros[b].center, n).sqrt();
                assert(d.le(link) == linked(ms, link, a as int, b as int));
                if d.le(link) {
                    unite(&mut labels, a, b);
                }
                b = b + 1;
            }
            a = a + 1;
        }
        labels
    }
}

fn unite(labels: &mut Vec<usize>, a: usize, b: usize)
    requires
        a < old(labels)@.len(),
        b < old(labels)@.len(),
    ensures
        final(labels)@ == united(old(labels)@, a as int, b as int),
{
    let ghost start = labels@;
    let to: usize = labels[a];
    let from: usize = labels[b];
    let mut c: usize = 0;
    while c < labels.len()
        invariant
            c <= labels@.len(),
            labels@.len() == start.len(),
            a < start.len(),
            b < start.len(),
            to == start[a as int],
            from == start[b as int],
            forall|k: int| 0 <= k < c ==> #[trigger] labels@[k] == united(start, a as int, b as int)[k],
            forall|k: int| c <= k < start.len() ==> #[trigger] labels@[k] == start[k],
        decreases labels@.len() - c,
    {
        if labels[c] == from {
            labels.set(c, to);
        }
        c = c + 1;
    }
    assert(labels@ =~= united(start, a as int, b as int));
}

/// Count, sum and sum of squares of the rows in a micro-cluster.
#[derive(Clone, Debug)]
pub struct Feature {
    /// Rows.
    pub n: Double,
    /// Sum of the rows.
    pub ls: Vec<Double>,
    /// Sum of the squared lengths of the rows.
    pub ss: Double,
}

/// The state of a micro-cluster.
pub struct FeatureState {
    /// Rows.
    pub n: Double,
    /// Sum of the rows.
    pub ls: Seq<Double>,
    /// Sum of the squared lengths of the rows.
    pub ss: Double,
}

impl View for Feature {
    type V = FeatureState;

    open spec fn view(&self) -> FeatureState {
        FeatureState { n: self.n, ls: self.ls@, ss: self.ss }
    }
}

impl FeatureState {
    /// The mean of the rows.
    pub open spec fn center(self) -> Seq<Double> {
        if self.n.le(zero()) {
            zero_seq(self.ls.len())
        } else {
            Seq::new(self.ls.len(), |j: int| self.ls[j].times(one().over(self.n)))
        }
    }

    /// One row.
    pub open spec fn single(row: Seq<Double>) -> FeatureState {
        FeatureState { n: one(), ls: row, ss: dot_of(row, row, row.len()) }
    }

    /// With one more row.
    pub open spec fn grown(self, row: Seq<Double>) -> FeatureState {
        FeatureState {
            n: self.n.plus(one()),
            ls: Seq::new(self.ls.len(), |j: int| self.ls[j].plus(row[j])),
            ss: self.ss.plus(dot_of(row, row, row.len())),
        }
    }

    /// With the rows of another.
    pub open spec fn merged(self, other: FeatureState) -> FeatureState {
        FeatureState {
            n: self.n.plus(other.n),
            ls: Seq::new(self.ls.len(), |j: int| self.ls[j].plus(other.ls[j])),
            ss: self.ss.plus(other.ss),
        }
    }

    /// Distance from the mean to a row; NaN if the lengths differ.
    pub open spec fn gap(self, row: Seq<Double>) -> Double {
        if self.ls.len() != row.len() {
            nan()
        } else {
            norm_of(difference(self.center(), row))
        }
    }
}

fn sum_vectors(a: &Vec<Double>, b: &Vec<Double>) -> (r: Vec<Double>)
    requires
        a@.len() == b@.len(),
    ensures
        r@ == Seq::new(a@.len(), |j: int| a@[j].plus(b@[j])),
{
    let mut r: Vec<Double> = Vec::new();
    let mut j: usize = 0;
    while j < a.len()
        invariant
            j <= a@.len(),
            a@.len() == b@.len(),
            r@ == Seq::new(j as nat, |j: int| a@[j].plus(b@[j])),
        decreases a@.len() - j,
    {
        r.push(a[j].plus(b[j]));
        j = j + 1;
        assert(r@ =~= Seq::new(j as nat, |j: int| a@[j].plus(b@[j])));
    }
    r
}

impl Feature {
    fn center(&self) -> (r: Vec<Double>)
        ensures
            r@ == self@.center(),
            r@.len() == self.ls@.len(),
    {
        if self.n.le(zero()) {
            return zeros(self.ls.len());
        }
        let share: Double = one().over(self.n);
        let mut r: Vec<Double> = Vec::new();
        let mut j: usize = 0;
        while j < self.ls.len()
            invariant
                j <= self.ls@.len(),
                share == one().over(self.n),
                r@ == Seq::new(j as nat, |j: int| self.ls@[j].times(share)),
            decreases self.ls@.len() - j,
        {
            r.push(self.ls[j].times(share));
            j = j + 1;
            assert(r@ =~= Seq::new(j as nat, |j: int| self.ls@[j].times(share)));
        }
        assert(r@ =~= self@.center());
        r
    }

    fn gap(&self, row: &Vec<Double>) -> (r: Double)
        ensures
            r == self@.gap(row@),
    {
        if self.ls.len() != row.len() {
            return nan();
        }
        let c = self.center();
        let d = subtract(&c, row);
        norm(&d)
    }
}

/// The states of the micro-clusters.
pub open spec fn feature_seq(micros: Seq<Feature>) -> Seq<FeatureState> {
    Seq::new(micros.len(), |t: int| micros[t]@)
}

/// Distances from the means to a row.
pub open spec fn gaps(micros: Seq<FeatureState>, row: Seq<Double>) -> Seq<Double> {
    Seq::new(micros.len(), |t: int| micros[t].gap(row))
}

fn find_gaps(micros: &Vec<Feature>, row: &Vec<Double>) -> (r: Vec<Double>)
    ensures
        r@ == gaps(feature_seq(micros@), row@),
{
    let mut r: Vec<Double> = Vec::new();
    let mut t: usize = 0;
    while t < micros.len()
        invariant
            t <= micros@.len(),
            r@ == gaps(feature_seq(micros@), row@).take(t as int),
        decreases micros@.len() - t,
    {
        r.push(micros[t].gap(row));
        t = t + 1;
        assert(r@ =~= gaps(feature_seq(micros@), row@).take(t as int));
    }
    assert(r@ =~= gaps(feature_seq(micros@), row@));
    r
}

/// The closest pair found so far.
#[derive(Clone, Copy, Debug, PartialEq, Eq, Structural)]
pub struct ClosePair {
    /// The earlier micro-cluster.
    pub a: usize,
    /// The later one.
    pub b: usize,
    /// Their distance.
    pub d: Double,
}

/// After micro-cluster `a` was compared with those between it and `b`.
pub open spec fn scanned_row(m: Seq<FeatureState>, a: nat, b: nat, best: ClosePair) -> ClosePair
    decreases b,
{
    if b <= a + 1 {
        best
    } else {
        let p = scanned_row(m, a, (b - 1) as nat, best);
        let d = norm_of(difference(m[a as int].center(), m[b - 1].center()));
        if d.lt(p.d) {
            ClosePair { a: a as usize, b: (b - 1) as usize, d }
        } else {
            p
        }
    }
}

/// After the first `a` micro-clusters were compared with all later ones.
pub open spec fn scanned(m: Seq<FeatureState>, a: nat) -> ClosePair
    decreases a,
{
    if a == 0 {
        ClosePair { a: 0, b: 1, d: infinity() }
    } else {
        scanned_row(m, (a - 1) as nat, m.len(), scanned(m, (a - 1) as nat))
    }
}

proof fn lemma_scanned_row(m: Seq<FeatureState>, a: nat, b: nat, best: ClosePair)
    requires
        best.a < best.b < m.len() <= usize::MAX,
        b <= m.len(),
    ensures
        scanned_row(m, a, b, best).a < scanned_row(m, a, b, best).b < m.len(),
    decreases b,
{
    if b > a + 1 {
        lemma_scanned_row(m, a, (b - 1) as nat, best);
    }
}

/// The closest pair names two micro-clusters, the earlier one first.
pub proof fn law_close_pair_is_a_pair(m: Seq<FeatureState>, a: nat)
    requires
        2 <= m.len() <= usize::MAX,
    ensures
        scanned(m, a).a < scanned(m, a).b < m.len(),
    decreases a,
{
    if a > 0 {
        law_close_pair_is_a_pair(m, (a - 1) as nat);
        lemma_scanned_row(m, (a - 1) as nat, m.len(), scanned(m, (a - 1) as nat));
    }
}

/// The micro-clusters with the closest pair merged. The merged one comes last.
pub open spec fn fused(m: Seq<FeatureState>) -> Seq<FeatureState> {
    let p = scanned(m, m.len());
    m.remove(p.b as int).remove(p.a as int).push(m[p.a as int].merged(m[p.b as int]))
}

/// The micro-clusters merged until no more than `cap` are left.
pub open spec fn fused_to(m: Seq<FeatureState>, cap: nat) -> Seq<FeatureState>
    decreases m.len(),
{
    if m.len() <= cap || m.len() < 2 || m.len() > usize::MAX {
        m
    } else {
        proof {
            law_close_pair_is_a_pair(m, m.len());
        }
        fused_to(fused(m), cap)
    }
}

/// Micro-clusters in the middle of a batch.
pub struct FeatureStream {
    /// The micro-clusters.
    pub micros: Seq<FeatureState>,
    /// Rows that started one.
    pub spawned: nat,
    /// Merges.
    pub merged: nat,
}

impl FeatureStream {
    /// After one more row: it joins the nearest micro-cluster within the radius, or
    /// starts its own.
    pub open spec fn fed(self, row: Seq<Double>, radius: Double, cap: nat) -> FeatureStream {
        let g = gaps(self.micros, row);
        let (best, least) = argmin(g, g.len());
        if best is Some && least.le(radius) {
            let t = best->0 as int;
            FeatureStream { micros: self.micros.update(t, self.micros[t].grown(row)), ..self }
        } else {
            let more = self.micros.push(FeatureState::single(row));
            let fewer = fused_to(more, cap);
            FeatureStream {
                micros: fewer,
                spawned: self.spawned + 1,
                merged: (self.merged + (more.len() - fewer.len())) as nat,
            }
        }
    }

    /// After the first `k` rows.
    pub open spec fn after(self, x: Batch, radius: Double, cap: nat, k: nat) -> FeatureStream
        decreases k,
    {
        if k == 0 {
            self
        } else {
            self.after(x, radius, cap, (k - 1) as nat).fed(x.rows[k - 1], radius, cap)
        }
    }
}

/// Every micro-cluster has `width` columns.
pub open spec fn features_fit(m: Seq<FeatureState>, width: nat) -> bool {
    forall|t: int| 0 <= t < m.len() ==> (#[trigger] m[t]).ls.len() == width
}

proof fn lemma_fused(m: Seq<FeatureState>, width: nat)
    requires
        2 <= m.len() <= usize::MAX,
        features_fit(m, width),
    ensures
        fused(m).len() == m.len() - 1,
        features_fit(fused(m), width),
{
    law_close_pair_is_a_pair(m, m.len());
    let p = scanned(m, m.len());
    let r1 = m.remove(p.b as int);
    let r2 = r1.remove(p.a as int);
    assert forall|t: int| 0 <= t < fused(m).len() implies (#[trigger] fused(m)[t]).ls.len() == width by {
        if t < r2.len() {
            let t1 = if t < p.a {
                t
            } else {
                t + 1
            };
            let t2 = if t1 < p.b {
                t1
            } else {
                t1 + 1
            };
            assert(r2[t] == r1[t1]);
            assert(r1[t1] == m[t2]);
        }
    }
}

proof fn lemma_fused_to(m: Seq<FeatureState>, cap: nat, width: nat)
    requires
        cap >= 1,
        m.len() <= usize::MAX,
        features_fit(m, width),
    ensures
        fused_to(m, cap).len() <= m.len(),
        fused_to(m, cap).len() <= cap || fused_to(m, cap).len() < 2,
        m.len() > 0 ==> fused_to(m, cap).len() > 0,
        features_fit(fused_to(m, cap), width),
    decreases m.len(),
{
    if !(m.len() <= cap || m.len() < 2) {
        law_close_pair_is_a_pair(m, m.len());
        lemma_fused(m, width);
        lemma_fused_to(fused(m), cap, width);
    }
}

/// A batch leaves no more micro-clusters than asked for, or than there were; and each
/// merge takes away one of those that were there or were started.
pub proof fn law_features_are_bounded(s: FeatureStream, x: Batch, radius: Double, cap: nat, k: nat)
    requires
        x.wf(),
        k <= x.height(),
        cap >= 1,
        s.micros.len() + k <= usize::MAX,
        features_fit(s.micros, x.width as nat),
    ensures
        ({
            let a = s.after(x, radius, cap, k);
            &&& a.micros.len() <= cap || a.micros.len() <= s.micros.len()
            &&& a.micros.len() <= s.micros.len() + k
            &&& k > 0 || s.micros.len() > 0 ==> a.micros.len() > 0
            &&& features_fit(a.micros, x.width as nat)
            &&& s.spawned <= a.spawned <= s.spawned + k
            &&& a.micros.len() + a.merged == s.micros.len() + s.merged + (a.spawned - s.spawned)
            &&& s.merged <= a.merged
            &&& s.micros.len() <= cap ==> a.merged <= s.merged + k
        }),
    decreases k,
{
    if k > 0 {
        law_features_are_bounded(s, x, radius, cap, (k - 1) as nat);
        let b = s.after(x, radius, cap, (k - 1) as nat);
        let row = x.rows[k - 1];
        assert(row.len() == x.width);
        let g = gaps(b.micros, row);
        lemma_argmin_position(g, g.len());
        let more = b.micros.push(FeatureState::single(row));
        assert(features_fit(more, x.width as nat));
        lemma_fused_to(more, cap, x.width as nat);
        if more.len() == cap + 1 {
            lemma_fused(more, x.width as nat);
            assert(fused_to(fused(more), cap) == fused(more));
        }
    }
}

/// The sum of some counts.
pub open spec fn total(counts: Seq<nat>) -> nat
    decreases counts.len(),
{
    if counts.len() == 0 {
        0
    } else {
        total(counts.drop_last()) + counts.last()
    }
}

proof fn lemma_total_push(counts: Seq<nat>, c: nat)
    ensures
        total(counts.push(c)) == total(counts) + c,
{
    assert(counts.push(c).drop_last() =~= counts);
}

proof fn lemma_total_update(counts: Seq<nat>, t: int, c: nat)
    requires
        0 <= t < counts.len(),
    ensures
        total(counts.update(t, c)) + counts[t] == total(counts) + c,
        counts[t] <= total(counts),
    decreases counts.len(),
{
    let last = counts.len() - 1;
    if t == last {
        assert(counts.update(t, c).drop_last() =~= counts.drop_last());
    } else {
        lemma_total_update(counts.drop_last(), t, c);
        assert(counts.update(t, c).drop_last() =~= counts.drop_last().update(t, c));
    }
}

proof fn lemma_total_remove(counts: Seq<nat>, t: int)
    requires
        0 <= t < counts.len(),
    ensures
        total(counts.remove(t)) + counts[t] == total(counts),
    decreases counts.len(),
{
    let last = counts.len() - 1;
    if t == last {
        assert(counts.remove(t) =~= counts.drop_last());
    } else {
        lemma_total_remove(counts.drop_last(), t);
        assert(counts.remove(t).drop_last() =~= counts.drop_last().remove(t));
    }
}

/// A micro-cluster counts `c` rows, at least one.
pub open spec fn holds_rows(f: FeatureState, c: nat) -> bool {
    0 < c <= u64::MAX && f.n == Double::from_u64(c as u64)
}

/// Each micro-cluster counts the given number of rows.
pub open spec fn tallied(m: Seq<FeatureState>, counts: Seq<nat>) -> bool {
    &&& m.len() == counts.len()
    &&& forall|t: int| 0 <= t < m.len() ==> holds_rows(#[trigger] m[t], counts[t])
}

proof fn lemma_fused_tally(m: Seq<FeatureState>, counts: Seq<nat>) -> (after: Seq<nat>)
    requires
        2 <= m.len() <= usize::MAX,
        tallied(m, counts),
        total(counts) <= 0x20_0000_0000_0000,
    ensures
        tallied(fused(m), after),
        total(after) == total(counts),
{
    law_close_pair_is_a_pair(m, m.len());
    let p = scanned(m, m.len());
    let (a, b) = (p.a as int, p.b as int);
    let r1 = counts.remove(b);
    let r2 = r1.remove(a);
    let sum = counts[a] + counts[b];
    let after = r2.push(sum);
    lemma_total_remove(counts, b);
    assert(r1[a] == counts[a]);
    lemma_total_remove(r1, a);
    lemma_total_push(r2, sum);
    assert(holds_rows(m[a], counts[a]));
    assert(holds_rows(m[b], counts[b]));
    lemma_wholes_add(counts[a] as u64, counts[b] as u64);
    let f = fused(m);
    let m1 = m.remove(b);
    let m2 = m1.remove(a);
    assert forall|t: int| 0 <= t < f.len() implies holds_rows(#[trigger] f[t], after[t]) by {
        if t < m2.len() {
            let t1 = if t < a {
                t
            } else {
                t + 1
            };
            let t2 = if t1 < b {
                t1
            } else {
                t1 + 1
            };
            assert(m2[t] == m1[t1] && m1[t1] == m[t2]);
            assert(r2[t] == r1[t1] && r1[t1] == counts[t2]);
        } else {
            assert(f[t] == m[a].merged(m[b]));
            assert(after[t] == sum);
        }
    }
    after
}

proof fn lemma_fused_to_tally(m: Seq<FeatureState>, counts: Seq<nat>, cap: nat) -> (after: Seq<nat>)
    requires
        m.len() <= usize::MAX,
        tallied(m, counts),
        total(counts) <= 0x20_0000_0000_0000,
    ensures
        tallied(fused_to(m, cap), after),
        total(after) == total(counts),
    decreases m.len(),
{
    if m.len() <= cap || m.len() < 2 {
        counts
    } else {
        law_close_pair_is_a_pair(m, m.len());
        let next = lemma_fused_tally(m, counts);
        assert(fused(m).len() == m.len() - 1);
        lemma_fused_to_tally(fused(m), next, cap)
    }
}

/// No row is lost: the rows that the micro-clusters count add up to those that were
/// taken in, as long as there are no more than `2^53`.
pub proof fn law_no_row_is_lost(
    s: FeatureStream,
    x: Batch,
    radius: Double,
    cap: nat,
    k: nat,
    counts: Seq<nat>,
) -> (after: Seq<nat>)
    requires
        x.wf(),
        k <= x.height(),
        cap >= 1,
        s.micros.len() + k <= usize::MAX,
        features_fit(s.micros, x.width as nat),
        tallied(s.micros, counts),
        total(counts) + k <= 0x20_0000_0000_0000,
    ensures
        tallied(s.after(x, radius, cap, k).micros, after),
        total(after) == total(counts) + k,
    decreases k,
{
    if k == 0 {
        counts
    } else {
        let before = law_no_row_is_lost(s, x, radius, cap, (k - 1) as nat, counts);
        let b = s.after(x, radius, cap, (k - 1) as nat);
        law_features_are_bounded(s, x, radius, cap, (k - 1) as nat);
        let row = x.rows[k - 1];
        let g = gaps(b.micros, row);
        lemma_argmin_position(g, g.len());
        let (best, least) = argmin(g, g.len());
        lemma_one();
        if best is Some && least.le(radius) {
            let t = best->0 as int;
            lemma_total_update(before, t, before[t] + 1);
            assert(holds_rows(b.micros[t], before[t]));
            lemma_wholes_add(before[t] as u64, 1);
            let next = before.update(t, before[t] + 1);
            let m = b.micros.update(t, b.micros[t].grown(row));
            assert forall|u: int| 0 <= u < m.len() implies holds_rows(#[trigger] m[u], next[u]) by {
                assert(u != t ==> m[u] == b.micros[u]);
            }
            next
        } else {
            let more = b.micros.push(FeatureState::single(row));
            lemma_total_push(before, 1);
            let held = before.push(1);
            assert forall|u: int| 0 <= u < more.len() implies holds_rows(#[trigger] more[u], held[u]) by {
                assert(u < b.micros.len() ==> more[u] == b.micros[u]);
            }
            lemma_fused_to_tally(more, held, cap)
        }
    }
}

/// Clusters summarised by counts and sums of their rows.
#[derive(Clone, Debug)]
pub struct CluStream {
    /// Most micro-clusters.
    pub q: usize,
    /// Rows farther than this from every mean start a micro-cluster.
    pub radius: Double,
    /// The micro-clusters.
    pub micros: Vec<Feature>,
    /// Rows taken in.
    pub n_seen: u64,
    /// Batches taken in.
    pub updates: u64,
}

fn merge_nearest(micros: &mut Vec<Feature>, Ghost(width): Ghost<nat>)
    requires
        2 <= old(micros)@.len() <= usize::MAX,
        features_fit(feature_seq(old(micros)@), width),
    ensures
        feature_seq(final(micros)@) == fused(feature_seq(old(micros)@)),
        final(micros)@.len() == old(micros)@.len() - 1,
{
    let ghost m = feature_seq(micros@);
    let n: usize = micros.len();
    let mut best = ClosePair { a: 0, b: 1, d: infinity() };
    let mut a: usize = 0;
    while a < n
        invariant
            a <= n,
            n == micros@.len(),
            m == feature_seq(micros@),
            features_fit(m, width),
            best == scanned(m, a as nat),
        decreases n - a,
    {
        assert(m[a as int].ls.len() == width);
        let ca = micros[a].center();
        let ghost row_start = best;
        let mut b: usize = a + 1;
        while b < n
            invariant
                a < b <= n,
                n == micros@.len(),
                m == feature_seq(micros@),
                features_fit(m, width),
                ca@ == m[a as int].center(),
                ca@.len() == width,
                best == scanned_row(m, a as nat, b as nat, row_start),
            decreases n - b,
        {
            assert(m[b as int].ls.len() == width);
            let cb = micros[b].center();
            let shift = subtract(&ca, &cb);
            let d: Double = norm(&shift);
            if d.lt(best.d) {
                best = ClosePair { a, b, d };
            }
            b = b + 1;
        }
        a = a + 1;
    }
    proof {
        law_close_pair_is_a_pair(m, m.len());
        lemma_fused(m, width);
        assert(m[best.a as int].ls.len() == width);
        assert(m[best.b as int].ls.len() == width);
    }
    let ghost held = micros@;
    let second = micros.remove(best.b);
    let ghost r1 = micros@;
    assert(r1 =~= held.remove(best.b as int));
    let first = micros.remove(best.a);
    assert(first == held[best.a as int]);
    let merged = Feature {
        n: first.n.plus(second.n),
        ls: sum_vectors(&first.ls, &second.ls),
        ss: first.ss.plus(second.ss),
    };
    assert(merged@.ls =~= m[best.a as int].merged(m[best.b as int]).ls);
    micros.push(merged);
    assert(feature_seq(micros@) =~= fused(m));
}

impl Default for CluStream {
    fn default() -> (r: CluStream)
        ensures
            r.blank(8),
    {
        CluStream::new(8)
    }
}

impl CluStream {
    /// The state before any row.
    pub open spec fn blank(&self, q: usize) -> bool {
        &&& self.q == q
        &&& self.radius == two()
        &&& self.micros@.len() == 0
        &&& self.n_seen == 0
        &&& self.updates == 0
    }

    /// Most micro-clusters, at least one.
    pub open spec fn limit(&self) -> nat {
        if self.q < 1 {
            1
        } else {
            self.q as nat
        }
    }

    /// All micro-clusters have as many columns as the first.
    pub open spec fn wf(&self) -> bool {
        self.micros@.len() > 0 ==> features_fit(feature_seq(self.micros@), self.micros@[0].ls@.len())
    }

    /// Whether a batch has the wrong number of columns.
    pub open spec fn misfits(&self, width: usize) -> bool {
        self.micros@.len() > 0 && self.micros@[0].ls@.len() != width
    }

    /// At most `q` micro-clusters.
    pub fn new(q: usize) -> (r: CluStream)
        ensures
            r.blank(
                if q < 1 {
                    1
                } else {
                    q
                },
            ),
    {
        CluStream {
            q: if q < 1 {
                1
            } else {
                q
            },
            radius: two(),
            micros: Vec::new(),
            n_seen: 0,
            updates: 0,
        }
    }

    /// Number of micro-clusters.
    pub fn n_micro(&self) -> (n: usize)
        ensures
            n == self.micros@.len(),
    {
        self.micros.len()
    }

    fn feed(&mut self, row: Vec<Double>) -> (r: (u64, u64))
        requires
            features_fit(feature_seq(old(self).micros@), row@.len()),
            old(self).micros@.len() < usize::MAX,
        ensures
            final(self).q == old(self).q,
            final(self).radius == old(self).radius,
            final(self).n_seen == old(self).n_seen,
            final(self).updates == old(self).updates,
            ({
                let s = FeatureStream { micros: feature_seq(old(self).micros@), spawned: 0, merged: 0 };
                let a = s.fed(row@, old(self).radius, old(self).limit());
                &&& feature_seq(final(self).micros@) == a.micros
                &&& r.0 == a.spawned
                &&& r.1 == a.merged
            }),
    {
        let ghost m = feature_seq(self.micros@);
        let ghost width = row@.len();
        let g = find_gaps(&self.micros, &row);
        let (best, least) = find_min(&g);
        if let Some(t) = best {
            if least.le(self.radius) {
                proof {
                    assert(m[t as int].ls.len() == width);
                    assert(m[t as int] == self.micros@[t as int]@);
                }
                let grown = Feature {
                    n: self.micros[t].n.plus(one()),
                    ls: sum_vectors(&self.micros[t].ls, &row),
                    ss: self.micros[t].ss.plus(dot(&row, &row)),
                };
                assert(grown@.ls =~= m[t as int].grown(row@).ls);
                self.micros.set(t, grown);
                assert(feature_seq(self.micros@) =~= m.update(t as int, m[t as int].grown(row@)));
                return (0, 0);
            }
        }
        let ss: Double = dot(&row, &row);
        self.micros.push(Feature { n: one(), ls: row, ss });
        let ghost more = m.push(FeatureState::single(row@));
        assert(feature_seq(self.micros@) =~= more);
        assert(features_fit(more, width));
        let cap: usize = if self.q < 1 {
            1
        } else {
            self.q
        };
        let mut merged: u64 = 0;
        while self.micros.len() > cap
            invariant
                cap >= 1,
                cap == self.limit(),
                self.q == old(self).q,
                self.radius == old(self).radius,
                self.n_seen == old(self).n_seen,
                self.updates == old(self).updates,
                more.len() <= usize::MAX,
                features_fit(feature_seq(self.micros@), width),
                self.micros@.len() + merged == more.len(),
                fused_to(more, cap as nat) == fused_to(feature_seq(self.micros@), cap as nat),
            decreases self.micros@.len(),
        {
            proof {
                lemma_fused(feature_seq(self.micros@), width);
            }
            merge_nearest(&mut self.micros, Ghost(width));
            merged = merged + 1;
        }
        assert(fused_to(feature_seq(self.micros@), cap as nat) == feature_seq(self.micros@));
        (1, merged)
    }

    /// What a batch ends with.
    pub open spec fn end(&self, x: Batch) -> FeatureStream {
        FeatureStream { micros: feature_seq(self.micros@), spawned: 0, merged: 0 }.after(
            x,
            self.radius,
            self.limit(),
            x.height(),
        )
    }

    /// Issues about the batch and the radius.
    pub open spec fn early_issues(&self, x: &Matrix) -> Seq<Issue> {
        if self.radius.is_finite() && self.radius.gt(zero()) {
            shape_issues(x, None)
        } else {
            shape_issues(x, None).push(warning(IssueCode::InvalidWeight))
        }
    }

    /// What a batch that fits does.
    pub open spec fn learns(&self, after: &CluStream, x: &Matrix, r: &Update) -> bool {
        let end = self.end(x@);
        let moved = Double::from_u64((end.spawned + end.merged) as u64);
        &&& after.q == self.q
        &&& after.radius == self.radius
        &&& feature_seq(after.micros@) == end.micros
        &&& after.n_seen == self.n_seen + x.height()
        &&& after.updates == self.updates + 1
        &&& reports(
            r,
            IncrementalQuality {
                effective_sample_size: Double::from_u64(after.n_seen),
                parameter_delta_norm: Some(moved),
                information_gain: Some(moved),
                still_identified: after.n_seen >= 4,
                warmup: after.n_seen < 4,
                ..IncrementalQuality::new(self.updates, x.height() as usize, after.n_seen)
            },
            self.early_issues(x) + given(after.n_seen < 4, IssueCode::WarmupIncomplete),
            false,
        )
    }

    /// What a batch does.
    pub open spec fn answers(&self, after: &CluStream, x: &Matrix, r: &Update) -> bool {
        if self.misfits(x.width) {
            &&& *after == *self
            &&& reports(
                r,
                IncrementalQuality::new(self.updates, x.height() as usize, self.n_seen),
                self.early_issues(x).push(issue(IssueCode::FeatureSpaceChangedOnline)),
                false,
            )
        } else {
            self.learns(after, x, r)
        }
    }

    /// Takes in a batch, unless its column count does not fit.
    pub fn partial_fit(&mut self, x: &Matrix, _y: Option<&Vec<Double>>) -> (r: Update)
        requires
            x.wf(),
            old(self).wf(),
            old(self).micros@.len() + x.height() <= usize::MAX,
            old(self).micros@.len() + 2 * x.height() <= u64::MAX,
            old(self).n_seen + x.height() <= u64::MAX,
            old(self).updates < u64::MAX,
        ensures
            final(self).wf(),
            old(self).micros@.len() <= old(self).limit() ==> final(self).micros@.len() <= final(self).limit(),
            old(self).answers(final(self), x, &r),
    {
        let n: usize = x.nrows();
        let mut issues: Vec<Issue> = Vec::new();
        inspect_online_xy(&mut issues, x, None);
        assert(issues@ =~= shape_issues(x, None));
        if !(self.radius.is_finite() && self.radius.gt(zero())) {
            issues.push(warning(IssueCode::InvalidWeight));
        }
        assert(issues@ =~= self.early_issues(x));
        if self.micros.len() > 0 && self.micros[0].ls.len() != x.ncols() {
            issues.push(issue(IssueCode::FeatureSpaceChangedOnline));
            return rejection(self.updates, n, self.n_seen, issues);
        }
        let ghost s = FeatureStream { micros: feature_seq(self.micros@), spawned: 0, merged: 0 };
        let ghost cap = self.limit();
        let mut spawned: u64 = 0;
        let mut merged: u64 = 0;
        let mut i: usize = 0;
        while i < n
            invariant
                i <= n,
                n == x.height(),
                x.wf(),
                cap == self.limit(),
                cap >= 1,
                self.q == old(self).q,
                self.radius == old(self).radius,
                self.n_seen == old(self).n_seen,
                self.updates == old(self).updates,
                s == (FeatureStream { micros: feature_seq(old(self).micros@), spawned: 0, merged: 0 }),
                s.micros.len() == old(self).micros@.len(),
                s.micros.len() + n <= usize::MAX,
                features_fit(s.micros, x.width as nat),
                s.micros.len() + 2 * n <= u64::MAX,
                s.after(x@, self.radius, cap, i as nat) == (FeatureStream {
                    micros: feature_seq(self.micros@),
                    spawned: spawned as nat,
                    merged: merged as nat,
                }),
            decreases n - i,
        {
            proof {
                law_features_are_bounded(s, x@, self.radius, cap, i as nat);
                law_features_are_bounded(s, x@, self.radius, cap, (i + 1) as nat);
                assert(feature_seq(self.micros@).len() == self.micros@.len());
            }
            assert(x@.rows[i as int] == x.rows@[i as int]@);
            let row = x.row(i);
            proof {
                let more = feature_seq(self.micros@).push(FeatureState::single(row@));
                assert(features_fit(more, x.width as nat));
                lemma_fused_to(more, cap, x.width as nat);
            }
            let (a, b) = self.feed(row);
            spawned = spawned + a;
            merged = merged + b;
            i = i + 1;
        }
        proof {
            law_features_are_bounded(s, x@, self.radius, cap, n as nat);
            let m = feature_seq(self.micros@);
            assert(m.len() == self.micros@.len());
            if m.len() > 0 {
                assert(m[0].ls.len() == x.width);
                assert(m[0] == self.micros@[0]@);
            }
        }
        self.n_seen = self.n_seen + n as u64;
        self.updates = self.updates + 1;
        let warmup: bool = self.n_seen < 4;
        raise(&mut issues, warmup, IssueCode::WarmupIncomplete);
        let moved: Double = Double::from_u64(spawned + merged);
        let quality = IncrementalQuality {
            effective_sample_size: Double::from_u64(self.n_seen),
            parameter_delta_norm: Some(moved),
            information_gain: Some(moved),
            still_identified: !warmup,
            warmup,
            ..IncrementalQuality::new(self.updates - 1, n, self.n_seen)
        };
        plain_report(quality, issues)
    }

    /// The nearest micro-cluster of a row, the first one if none is comparable.
    pub open spec fn assigned(&self, row: Seq<Double>) -> Double {
        let g = gaps(feature_seq(self.micros@), row);
        match argmin(g, g.len()).0 {
            Some(t) => Double::from_usize(t as usize),
            None => Double::from_usize(0),
        }
    }

    /// The nearest micro-cluster of each row, or minus one if there are none.
    pub fn predict(&self, x: &Matrix) -> (out: Qualified<Vec<Double>>)
        ensures
            if self.micros@.len() == 0 {
                &&& out.value@ == Seq::new(x.height(), |i: int| neg_one())
                &&& out.report@ == seq![issue(IssueCode::PartialFitBeforeInit)]
            } else {
                &&& out.value@ == Seq::new(x.height(), |i: int| self.assigned(x@.rows[i]))
                &&& out.report@.len() == 0
            },
    {
        if self.micros.len() == 0 {
            let mut report: Vec<Issue> = Vec::new();
            report.push(issue(IssueCode::PartialFitBeforeInit));
            assert(report@ =~= seq![issue(IssueCode::PartialFitBeforeInit)]);
            let value = filled(x.nrows(), neg_one());
            assert(value@ =~= Seq::new(x.height(), |i: int| neg_one()));
            return Qualified { value, report };
        }
        let mut value: Vec<Double> = Vec::new();
        let mut i: usize = 0;
        while i < x.nrows()
            invariant
                i <= x.height(),
                value@ == Seq::new(i as nat, |i: int| self.assigned(x@.rows[i])),
            decreases x.height() - i,
        {
            assert(x@.rows[i as int] == x.rows@[i as int]@);
            let g = find_gaps(&self.micros, &x.rows[i]);
            let (best, _least) = find_min(&g);
            value.push(
                match best {
                    Some(t) => Double::from_usize(t),
                    None => Double::from_usize(0),
                },
            );
            i = i + 1;
            assert(value@ =~= Seq::new(i as nat, |i: int| self.assigned(x@.rows[i])));
        }
        Qualified { value, report: Vec::new() }
    }
}

} // verus!
