//! Predictions from the nearest stored rows.

use crate::data::{zero_seq, Batch, Matrix};
use crate::double::{one, zero, Double};
use crate::online::common::{inspect_online_xy, shape_issues, target};
use crate::quality::{given, issue, raise, IncrementalQuality, Issue, IssueCode, Qualified, Update};
use crate::streaming::columns::{plain_report, rejection, reports};
use crate::streaming::committee::{at_least_one_member, counted_up};
use crate::streaming::drift::running_sum;
use crate::streaming::linear::unready;
use crate::streaming::ranking::{law_ranking_permutes, law_ranking_sorts, outranks, rank, ranking};
use vstd::prelude::*;

verus! {

/// Squared distance over the first `k` columns.
pub open spec fn squared_distance(a: Seq<Double>, b: Seq<Double>, k: nat) -> Double
    decreases k,
{
    if k == 0 {
        zero()
    } else {
        let d = a[k - 1].minus(b[k - 1]);
        squared_distance(a, b, (k - 1) as nat).plus(d.times(d))
    }
}

/// Squared distance over the columns that both rows have.
pub open spec fn distance(a: Seq<Double>, b: Seq<Double>) -> Double {
    squared_distance(
        a,
        b,
        if a.len() < b.len() {
            a.len()
        } else {
            b.len()
        },
    )
}

fn distance_of(a: &Vec<Double>, b: &Vec<Double>) -> (r: Double)
    ensures
        r == distance(a@, b@),
{
    let k: usize = if a.len() < b.len() {
        a.len()
    } else {
        b.len()
    };
    let mut s: Double = zero();
    let mut j: usize = 0;
    while j < k
        invariant
            j <= k,
            k <= a@.len(),
            k <= b@.len(),
            s == squared_distance(a@, b@, j as nat),
        decreases k - j,
    {
        let d: Double = a[j].minus(b[j]);
        s = s.plus(d.times(d));
        j = j + 1;
    }
    s
}

/// Distances from a row to all stored rows.
pub open spec fn distances(stored: Seq<Seq<Double>>, row: Seq<Double>) -> Seq<Double> {
    Seq::new(stored.len(), |i: int| distance(row, stored[i]))
}

/// The `k` nearest stored rows, nearest first, and among equals in the order in which
/// they were stored.
pub open spec fn nearest(stored: Seq<Seq<Double>>, row: Seq<Double>, k: nat) -> Seq<usize> {
    ranking(distances(stored, row), false, stored.len()).take(k as int)
}

/// No stored row outside the nearest is closer than one of them.
pub proof fn law_nearest_are_closest(stored: Seq<Seq<Double>>, row: Seq<Double>, k: nat, a: int, b: int)
    requires
        stored.len() <= usize::MAX,
        k <= stored.len(),
        forall|i: int| 0 <= i < stored.len() ==> !(#[trigger] distances(stored, row)[i]).is_nan(),
        0 <= a < k,
        k <= b < stored.len(),
    ensures
        !distances(stored, row)[ranking(distances(stored, row), false, stored.len())[b] as int].lt(
            distances(stored, row)[nearest(stored, row, k)[a] as int],
        ),
{
    let keys = distances(stored, row);
    let n = stored.len();
    law_ranking_permutes(keys, false, n);
    law_ranking_sorts(keys, false, n);
    let r = ranking(keys, false, n);
    assert(outranks(keys, false, r[a] as int, r[b] as int));
}

fn find_nearest(stored: &Vec<Vec<Double>>, row: &Vec<Double>, k: usize) -> (r: Vec<usize>)
    requires
        k <= stored@.len(),
    ensures
        r@ == nearest(stored_rows(stored), row@, k as nat),
        r@.len() == k,
        forall|a: int| 0 <= a < r@.len() ==> (#[trigger] r@[a]) < stored@.len(),
{
    let ghost rows = stored_rows(stored);
    let n: usize = stored.len();
    let mut keys: Vec<Double> = Vec::new();
    let mut i: usize = 0;
    while i < n
        invariant
            i <= n,
            n == stored@.len(),
            rows == stored_rows(stored),
            keys@ == distances(rows, row@).take(i as int),
        decreases n - i,
    {
        assert(rows[i as int] == stored@[i as int]@);
        keys.push(distance_of(row, &stored[i]));
        i = i + 1;
        assert(keys@ =~= distances(rows, row@).take(i as int));
    }
    assert(keys@ =~= distances(rows, row@));
    let order = rank(&keys, false);
    let mut r: Vec<usize> = Vec::new();
    let mut a: usize = 0;
    while a < k
        invariant
            a <= k,
            k <= n,
            n == order@.len(),
            n == stored@.len(),
            forall|b: int| 0 <= b < order@.len() ==> (#[trigger] order@[b]) < n,
            r@ == order@.take(a as int),
        decreases k - a,
    {
        r.push(order[a]);
        a = a + 1;
        assert(r@ =~= order@.take(a as int));
    }
    assert forall|b: int| 0 <= b < r@.len() implies (#[trigger] r@[b]) < stored@.len() by {
        assert(order@[b] < n);
    }
    r
}

/// The stored rows.
pub open spec fn stored_rows(stored: &Vec<Vec<Double>>) -> Seq<Seq<Double>> {
    Seq::new(stored@.len(), |i: int| stored@[i]@)
}

/// Rows kept for later comparison.
#[derive(Clone, Debug)]
pub struct Memory {
    /// Neighbours to look at.
    pub k: usize,
    /// Stored rows.
    pub xs: Vec<Vec<Double>>,
    /// Rows taken in.
    pub n_seen: u64,
    /// Batches taken in.
    pub updates: u64,
}

impl Memory {
    /// The state before any row.
    pub open spec fn blank(&self, k: usize) -> bool {
        &&& self.k == k
        &&& self.xs@.len() == 0
        &&& self.n_seen == 0
        &&& self.updates == 0
    }

    /// A memory for `k` neighbours.
    pub fn new(k: usize) -> (r: Memory)
        ensures
            r.blank(at_least_one_member(k)),
    {
        Memory {
            k: if k < 1 {
                1
            } else {
                k
            },
            xs: Vec::new(),
            n_seen: 0,
            updates: 0,
        }
    }

    /// Neighbours that there are to look at.
    pub open spec fn reach(&self) -> nat {
        let k = at_least_one_member(self.k) as nat;
        if k < self.xs@.len() {
            k
        } else {
            self.xs@.len()
        }
    }

    /// Whether a batch has the wrong number of columns.
    pub open spec fn misfits(&self, x: Batch) -> bool {
        self.n_seen > 0 && self.xs@.len() > 0 && self.xs@[0]@.len() != x.width
    }

    /// The memory after a batch.
    pub open spec fn is_after(&self, before: &Memory, x: &Matrix) -> bool {
        &&& self.k == before.k
        &&& stored_rows(&self.xs) == stored_rows(&before.xs) + x@.rows
        &&& self.n_seen == before.n_seen + x.height()
        &&& self.updates == before.updates + 1
    }

    /// Quality figures after a batch.
    pub open spec fn figures(&self, batch: usize) -> IncrementalQuality {
        IncrementalQuality {
            effective_sample_size: Double::from_u64(self.n_seen),
            parameter_delta_norm: Some(Double::from_usize(batch)),
            information_gain: Some(Double::from_usize(batch)),
            still_identified: self.xs@.len() >= self.k,
            warmup: self.xs@.len() < self.k,
            ..IncrementalQuality::new((self.updates - 1) as u64, batch, self.n_seen)
        }
    }

    /// What a batch does to the memory. `remark` asks for an issue while there are
    /// fewer rows than neighbours.
    pub open spec fn answers(&self, after: &Memory, x: &Matrix, y: Option<Seq<Double>>, remark: bool, r: &Update) -> bool {
        let refused = IncrementalQuality::new(self.updates, x.height() as usize, self.n_seen);
        if y is None {
            &&& *after == *self
            &&& reports(r, refused, shape_issues(x, y).push(issue(IssueCode::MissingTarget)), false)
        } else if self.misfits(x@) {
            &&& *after == *self
            &&& reports(r, refused, shape_issues(x, y).push(issue(IssueCode::FeatureSpaceChangedOnline)), false)
        } else {
            &&& after.is_after(self, x)
            &&& reports(
                r,
                after.figures(x.height() as usize),
                shape_issues(x, y) + given(remark && after.xs@.len() < after.k, IssueCode::WarmupIncomplete),
                false,
            )
        }
    }

    fn partial_fit(&mut self, x: &Matrix, y: Option<&Vec<Double>>, remark: bool) -> (r: (Update, bool))
        requires
            x.wf(),
            old(self).n_seen + x.height() <= u64::MAX,
            old(self).updates < u64::MAX,
            old(self).xs@.len() + x.height() <= usize::MAX,
        ensures
            old(self).answers(final(self), x, target(y), remark, &r.0),
            r.1 == (y is Some && !old(self).misfits(x@)),
    {
        let n: usize = x.nrows();
        let mut issues: Vec<Issue> = Vec::new();
        inspect_online_xy(&mut issues, x, y);
        assert(issues@ =~= shape_issues(x, target(y)));
        if y.is_none() {
            issues.push(issue(IssueCode::MissingTarget));
            return (rejection(self.updates, n, self.n_seen, issues), false);
        }
        if self.n_seen > 0 && self.xs.len() > 0 && self.xs[0].len() != x.ncols() {
            issues.push(issue(IssueCode::FeatureSpaceChangedOnline));
            return (rejection(self.updates, n, self.n_seen, issues), false);
        }
        let ghost start = stored_rows(&self.xs);
        let mut i: usize = 0;
        assert(stored_rows(&self.xs) =~= start + x@.rows.take(0));
        while i < n
            invariant
                i <= n,
                n == x.height(),
                x.wf(),
                self.k == old(self).k,
                self.n_seen == old(self).n_seen,
                self.updates == old(self).updates,
                stored_rows(&self.xs) == start + x@.rows.take(i as int),
            decreases n - i,
        {
            assert(x@.rows[i as int] == x.rows@[i as int]@);
            let ghost before = stored_rows(&self.xs);
            let row = x.row(i);
            self.xs.push(row);
            i = i + 1;
            assert(stored_rows(&self.xs) =~= before.push(x@.rows[i - 1]));
            assert(stored_rows(&self.xs) =~= start + x@.rows.take(i as int));
        }
        assert(x@.rows.take(n as int) =~= x@.rows);
        self.n_seen = self.n_seen + n as u64;
        self.updates = self.updates + 1;
        raise(&mut issues, remark && self.xs.len() < self.k, IssueCode::WarmupIncomplete);
        let quality = IncrementalQuality {
            effective_sample_size: Double::from_u64(self.n_seen),
            parameter_delta_norm: Some(Double::from_usize(n)),
            information_gain: Some(Double::from_usize(n)),
            still_identified: self.xs.len() >= self.k,
            warmup: self.xs.len() < self.k,
            ..IncrementalQuality::new(self.updates - 1, n, self.n_seen)
        };
        (plain_report(quality, issues), true)
    }

    fn neighbours(&self, row: &Vec<Double>) -> (r: Vec<usize>)
        ensures
            r@ == nearest(stored_rows(&self.xs), row@, self.reach()),
            r@.len() == self.reach(),
            forall|a: int| 0 <= a < r@.len() ==> (#[trigger] r@[a]) < self.xs@.len(),
    {
        let k: usize = if self.k < 1 {
            1
        } else {
            self.k
        };
        let k: usize = if k < self.xs.len() {
            k
        } else {
            self.xs.len()
        };
        find_nearest(&self.xs, row, k)
    }
}

/// Occurrences of `v` among the first `k` labels.
pub open spec fn label_count(labels: Seq<i64>, v: i64, k: nat) -> nat
    decreases k,
{
    if k == 0 {
        0
    } else {
        label_count(labels, v, (k - 1) as nat) + if labels[k - 1] == v {
            1nat
        } else {
            0nat
        }
    }
}

/// Whether label `a` comes before label `b` in a vote: by its count, then by its
/// value.
pub open spec fn favoured(labels: Seq<i64>, a: i64, b: i64) -> bool {
    let ca = label_count(labels, a, labels.len());
    let cb = label_count(labels, b, labels.len());
    ca > cb || (ca == cb && a > b)
}

/// The most frequent of the first `k` labels, the largest one among equals.
pub open spec fn favourite(labels: Seq<i64>, k: nat) -> Option<i64>
    decreases k,
{
    if k == 0 {
        None
    } else {
        match favourite(labels, (k - 1) as nat) {
            None => Some(labels[k - 1]),
            Some(b) => if favoured(labels, labels[k - 1], b) {
                Some(labels[k - 1])
            } else {
                Some(b)
            },
        }
    }
}

/// No label of the list is favoured over the favourite.
pub proof fn law_favourite_wins(labels: Seq<i64>, k: nat)
    requires
        0 < k <= labels.len(),
    ensures
        favourite(labels, k) is Some,
        forall|i: int| 0 <= i < k ==> !favoured(labels, #[trigger] labels[i], favourite(labels, k)->0),
        exists|i: int| 0 <= i < k && #[trigger] labels[i] == favourite(labels, k)->0,
    decreases k,
{
    if k > 1 {
        law_favourite_wins(labels, (k - 1) as nat);
        let b = favourite(labels, (k - 1) as nat)->0;
        let at = choose|i: int| 0 <= i < k - 1 && #[trigger] labels[i] == b;
        if favoured(labels, labels[k - 1], b) {
            assert(labels[k - 1] == favourite(labels, k)->0);
        } else {
            assert(labels[at] == favourite(labels, k)->0);
        }
    } else {
        assert(favourite(labels, 0) is None);
        assert(labels[0] == favourite(labels, 1)->0);
    }
}

fn count_label(labels: &Vec<i64>, v: i64) -> (c: usize)
    ensures
        c == label_count(labels@, v, labels@.len()),
{
    let mut c: usize = 0;
    let mut i: usize = 0;
    while i < labels.len()
        invariant
            i <= labels@.len(),
            c <= i,
            c == label_count(labels@, v, i as nat),
        decreases labels@.len() - i,
    {
        if labels[i] == v {
            c = c + 1;
        }
        i = i + 1;
    }
    c
}

fn find_favourite(labels: &Vec<i64>) -> (r: Option<i64>)
    ensures
        r == favourite(labels@, labels@.len()),
{
    let mut best: Option<i64> = None;
    let mut i: usize = 0;
    while i < labels.len()
        invariant
            i <= labels@.len(),
            best == favourite(labels@, i as nat),
        decreases labels@.len() - i,
    {
        let v: i64 = labels[i];
        best = match best {
            None => Some(v),
            Some(b) => {
                let cv: usize = count_label(labels, v);
                let cb: usize = count_label(labels, b);
                if cv > cb || (cv == cb && v > b) {
                    Some(v)
                } else {
                    Some(b)
                }
            },
        };
        i = i + 1;
    }
    best
}

/// Classifier by the majority of the nearest stored rows.
#[derive(Clone, Debug)]
pub struct KnnClassifier {
    /// Stored rows.
    pub memory: Memory,
    /// Their labels.
    pub ys: Vec<i64>,
}

impl Default for KnnClassifier {
    fn default() -> (r: KnnClassifier)
        ensures
            r.memory.blank(3),
            r.wf(),
    {
        KnnClassifier::new(3)
    }
}

impl KnnClassifier {
    /// Every stored row has a label.
    pub open spec fn wf(&self) -> bool {
        self.ys@.len() == self.memory.xs@.len()
    }

    /// A classifier that looks at `k` neighbours.
    pub fn new(k: usize) -> (r: KnnClassifier)
        ensures
            r.memory.blank(at_least_one_member(k)),
            r.wf(),
    {
        KnnClassifier { memory: Memory::new(k), ys: Vec::new() }
    }

    /// Stores a batch, unless it has no target or its column count does not fit.
    pub fn partial_fit(&mut self, x: &Matrix, y: Option<&Vec<Double>>) -> (r: Update)
        requires
            x.wf(),
            y is Some && !old(self).memory.misfits(x@) ==> x.height() <= y->0@.len(),
            old(self).wf(),
            old(self).memory.n_seen + x.height() <= u64::MAX,
            old(self).memory.updates < u64::MAX,
            old(self).memory.xs@.len() + x.height() <= usize::MAX,
        ensures
            final(self).wf(),
            old(self).memory.answers(&final(self).memory, x, target(y), true, &r),
            final(self).ys@ == if y is None || old(self).memory.misfits(x@) {
                old(self).ys@
            } else {
                old(self).ys@ + Seq::new(x.height(), |i: int| y->0@[i].round_to_i64())
            },
    {
        let ghost start = self.ys@;
        let ghost held = stored_rows(&self.memory.xs);
        let (update, stored) = self.memory.partial_fit(x, y, true);
        if let Some(t) = y {
            if stored {
                assert(stored_rows(&self.memory.xs).len() == held.len() + x.height());
                let mut i: usize = 0;
                assert(self.ys@ =~= start + Seq::new(0, |i: int| t@[i].round_to_i64()));
                let ghost memory = self.memory;
                while i < x.nrows()
                    invariant
                        i <= x.height(),
                        x.height() <= t@.len(),
                        self.memory == memory,
                        self.ys@ == start + Seq::new(i as nat, |i: int| t@[i].round_to_i64()),
                    decreases x.height() - i,
                {
                    self.ys.push(t[i].round_to_i64());
                    i = i + 1;
                    assert(self.ys@ =~= start + Seq::new(i as nat, |i: int| t@[i].round_to_i64()));
                }
            }
        }
        update
    }

    /// Labels of the nearest stored rows.
    pub open spec fn labels_near(&self, row: Seq<Double>) -> Seq<i64> {
        let at = nearest(stored_rows(&self.memory.xs), row, self.memory.reach());
        Seq::new(at.len(), |a: int| self.ys@[at[a] as int])
    }

    /// The majority of the nearest stored rows, the largest label among equals.
    pub open spec fn vote(&self, row: Seq<Double>) -> Double {
        let labels = self.labels_near(row);
        match favourite(labels, labels.len()) {
            Some(v) => Double::from_i64(v),
            None => zero(),
        }
    }

    /// The majority of the nearest stored rows, or zeros if there are none.
    pub fn predict(&self, x: &Matrix) -> (out: Qualified<Vec<Double>>)
        requires
            self.wf(),
        ensures
            if self.memory.xs@.len() == 0 {
                &&& out.value@ == zero_seq(x.height())
                &&& out.report@ == seq![issue(IssueCode::PartialFitBeforeInit)]
            } else {
                &&& out.value@ == Seq::new(x.height(), |i: int| self.vote(x@.rows[i]))
                &&& out.report@.len() == 0
            },
    {
        if self.memory.xs.len() == 0 {
            return unready(x.nrows());
        }
        let mut value: Vec<Double> = Vec::new();
        let mut i: usize = 0;
        while i < x.nrows()
            invariant
                i <= x.height(),
                self.wf(),
                value@ == Seq::new(i as nat, |i: int| self.vote(x@.rows[i])),
            decreases x.height() - i,
        {
            assert(x@.rows[i as int] == x.rows@[i as int]@);
            let at = self.memory.neighbours(&x.rows[i]);
            let mut labels: Vec<i64> = Vec::new();
            let mut a: usize = 0;
            while a < at.len()
                invariant
                    a <= at@.len(),
                    self.wf(),
                    forall|a: int| 0 <= a < at@.len() ==> (#[trigger] at@[a]) < self.memory.xs@.len(),
                    labels@ == Seq::new(a as nat, |a: int| self.ys@[at@[a] as int]),
                decreases at@.len() - a,
            {
                labels.push(self.ys[at[a]]);
                a = a + 1;
                assert(labels@ =~= Seq::new(a as nat, |a: int| self.ys@[at@[a] as int]));
            }
            assert(labels@ =~= self.labels_near(x.rows@[i as int]@));
            value.push(
                match find_favourite(&labels) {
                    Some(v) => Double::from_i64(v),
                    None => zero(),
                },
            );
            i = i + 1;
            assert(value@ =~= Seq::new(i as nat, |i: int| self.vote(x@.rows[i])));
        }
        Qualified { value, report: Vec::new() }
    }
}

/// Regression by the mean of the nearest stored rows.
#[derive(Clone, Debug)]
pub struct KnnRegressor {
    /// Stored rows.
    pub memory: Memory,
    /// Their targets.
    pub ys: Vec<Double>,
}

impl Default for KnnRegressor {
    fn default() -> (r: KnnRegressor)
        ensures
            r.memory.blank(3),
            r.wf(),
    {
        KnnRegressor::new(3)
    }
}

impl KnnRegressor {
    /// Every stored row has a target.
    pub open spec fn wf(&self) -> bool {
        self.ys@.len() == self.memory.xs@.len()
    }

    /// A regression that looks at `k` neighbours.
    pub fn new(k: usize) -> (r: KnnRegressor)
        ensures
            r.memory.blank(at_least_one_member(k)),
            r.wf(),
    {
        KnnRegressor { memory: Memory::new(k), ys: Vec::new() }
    }

    /// Stores a batch, unless it has no target or its column count does not fit.
    pub fn partial_fit(&mut self, x: &Matrix, y: Option<&Vec<Double>>) -> (r: Update)
        requires
            x.wf(),
            y is Some && !old(self).memory.misfits(x@) ==> x.height() <= y->0@.len(),
            old(self).wf(),
            old(self).memory.n_seen + x.height() <= u64::MAX,
            old(self).memory.updates < u64::MAX,
            old(self).memory.xs@.len() + x.height() <= usize::MAX,
        ensures
            final(self).wf(),
            old(self).memory.answers(&final(self).memory, x, target(y), false, &r),
            final(self).ys@ == if y is None || old(self).memory.misfits(x@) {
                old(self).ys@
            } else {
                old(self).ys@ + y->0@.take(x.height() as int)
            },
    {
        let ghost start = self.ys@;
        let ghost held = stored_rows(&self.memory.xs);
        let (update, stored) = self.memory.partial_fit(x, y, false);
        if let Some(t) = y {
            if stored {
                assert(stored_rows(&self.memory.xs).len() == held.len() + x.height());
                let mut i: usize = 0;
                assert(self.ys@ =~= start + t@.take(0));
                let ghost memory = self.memory;
                while i < x.nrows()
                    invariant
                        i <= x.height(),
                        x.height() <= t@.len(),
                        self.memory == memory,
                        self.ys@ == start + t@.take(i as int),
                    decreases x.height() - i,
                {
                    self.ys.push(t[i]);
                    i = i + 1;
                    assert(self.ys@ =~= start + t@.take(i as int));
                }
            }
        }
        update
    }

    /// Targets of the nearest stored rows.
    pub open spec fn targets_near(&self, row: Seq<Double>) -> Seq<Double> {
        let at = nearest(stored_rows(&self.memory.xs), row, self.memory.reach());
        Seq::new(at.len(), |a: int| self.ys@[at[a] as int])
    }

    /// The mean target of the nearest stored rows.
    pub open spec fn estimate(&self, row: Seq<Double>) -> Double {
        let t = self.targets_near(row);
        let n = counted_up(zero(), t.len());
        if n.gt(zero()) {
            running_sum(t, t.len()).over(n)
        } else {
            zero()
        }
    }

    /// The mean target of the nearest stored rows, or zeros if there are none.
    pub fn predict(&self, x: &Matrix) -> (out: Qualified<Vec<Double>>)
        requires
            self.wf(),
        ensures
            if self.memory.xs@.len() == 0 {
                &&& out.value@ == zero_seq(x.height())
                &&& out.report@ == seq![issue(IssueCode::PartialFitBeforeInit)]
            } else {
                &&& out.value@ == Seq::new(x.height(), |i: int| self.estimate(x@.rows[i]))
                &&& out.report@.len() == 0
            },
    {
        if self.memory.xs.len() == 0 {
            return unready(x.nrows());
        }
        let mut value: Vec<Double> = Vec::new();
        let mut i: usize = 0;
        while i < x.nrows()
            invariant
                i <= x.height(),
                self.wf(),
                value@ == Seq::new(i as nat, |i: int| self.estimate(x@.rows[i])),
            decreases x.height() - i,
        {
            assert(x@.rows[i as int] == x.rows@[i as int]@);
            let at = self.memory.neighbours(&x.rows[i]);
            let ghost t = self.targets_near(x.rows@[i as int]@);
            let mut sum: Double = zero();
            let mut n: Double = zero();
            let mut a: usize = 0;
            while a < at.len()
                invariant
                    a <= at@.len(),
                    self.wf(),
                    at@.len() == t.len(),
                    forall|a: int| 0 <= a < at@.len() ==> (#[trigger] at@[a]) < self.memory.xs@.len(),
                    forall|a: int| 0 <= a < at@.len() ==> t[a] == self.ys@[(#[trigger] at@[a]) as int],
                    sum == running_sum(t, a as nat),
                    n == counted_up(zero(), a as nat),
                decreases at@.len() - a,
            {
                assert(t[a as int] == self.ys@[at@[a as int] as int]);
                sum = sum.plus(self.ys[at[a]]);
                n = n.plus(one());
                a = a + 1;
            }
            value.push(
                if n.gt(zero()) {
                    sum.over(n)
                } else {
                    zero()
                },
            );
            i = i + 1;
            assert(value@ =~= Seq::new(i as nat, |i: int| self.estimate(x@.rows[i])));
        }
        Qualified { value, report: Vec::new() }
    }
}

} // verus!
