//! Categories replaced by target means, and columns kept by their variance.

use crate::constants::two;
use crate::data::{Batch, Matrix};
use crate::double::{one, zero, Double};
use crate::online::common::{inspect_online_xy, shape_issues, target};
use crate::online::variance_threshold::select_columns;
use crate::quality::{issue, IncrementalQuality, Issue, IssueCode, Qualified, Update};
use crate::streaming::columns::{pass_through, passed_through, rejection, reports, screened_report};
use crate::streaming::hoeffding::Gauss;
use crate::streaming::table::Table;
use vstd::prelude::*;

verus! {

/// Mean and count of the targets of a category.
pub type Level = (Double, Double);

/// The categories of a column after a row.
pub open spec fn told(m: Map<i64, Level>, v: Double, y: Double) -> Map<i64, Level> {
    if !v.is_finite() {
        m
    } else {
        let key = v.round_to_i64();
        let e: Level = if m.contains_key(key) {
            m[key]
        } else {
            (zero(), zero())
        };
        let n = e.1.plus(one());
        m.insert(key, (e.0.plus(y.minus(e.0).over(n)), n))
    }
}

/// Target means overall and by category.
pub struct LevelState {
    /// Categories of each column.
    pub maps: Seq<Map<i64, Level>>,
    /// Mean of all targets.
    pub global: Double,
    /// Number of targets.
    pub global_n: Double,
    /// Rows with a finite target.
    pub n_seen: nat,
}

impl LevelState {
    /// After one more row; one without a finite target is skipped.
    pub open spec fn shown(self, row: Seq<Double>, y: Double) -> LevelState {
        if !y.is_finite() {
            self
        } else {
            let n = self.global_n.plus(one());
            LevelState {
                maps: Seq::new(self.maps.len(), |j: int| told(self.maps[j], row[j], y)),
                global: self.global.plus(y.minus(self.global).over(n)),
                global_n: n,
                n_seen: self.n_seen + 1,
            }
        }
    }

    /// After the first `k` rows.
    pub open spec fn after(self, x: Batch, y: Seq<Double>, k: nat) -> LevelState
        decreases k,
    {
        if k == 0 {
            self
        } else {
            self.after(x, y, (k - 1) as nat).shown(x.rows[k - 1], y[k - 1])
        }
    }
}

/// A category keeps its own mean: a row leaves the other categories of a column alone.
pub proof fn law_levels_are_separate(m: Map<i64, Level>, v: Double, y: Double, other: i64)
    requires
        other != v.round_to_i64(),
    ensures
        told(m, v, y).contains_key(other) == m.contains_key(other),
        m.contains_key(other) ==> told(m, v, y)[other] == m[other],
{
}

/// Replaces categories by the mean of their targets.
#[derive(Clone, Debug)]
pub struct TargetMeanEncoder {
    /// Categories of each column.
    pub maps: Vec<Table<Level>>,
    /// Mean of all targets.
    pub global: Double,
    /// Number of targets.
    pub global_n: Double,
    /// Rows with a finite target.
    pub n_seen: u64,
    /// Batches taken in.
    pub updates: u64,
    /// Whether the column count is fixed.
    pub initialized: bool,
}

/// The maps of a list of tables.
pub open spec fn level_maps(maps: Seq<Table<Level>>) -> Seq<Map<i64, Level>> {
    Seq::new(maps.len(), |j: int| maps[j].map())
}

impl Default for TargetMeanEncoder {
    fn default() -> (r: TargetMeanEncoder)
        ensures
            r.blank(),
            r.wf(),
    {
        TargetMeanEncoder::new()
    }
}

impl TargetMeanEncoder {
    /// The state before any row.
    pub open spec fn blank(&self) -> bool {
        &&& self.maps@.len() == 0
        &&& self.global == zero()
        &&& self.global_n == zero()
        &&& self.n_seen == 0
        &&& self.updates == 0
        &&& !self.initialized
    }

    /// Every table is well formed.
    pub open spec fn wf(&self) -> bool {
        forall|j: int| 0 <= j < self.maps@.len() ==> (#[trigger] self.maps@[j]).wf()
    }

    /// The means.
    pub open spec fn levels(&self) -> LevelState {
        LevelState {
            maps: level_maps(self.maps@),
            global: self.global,
            global_n: self.global_n,
            n_seen: self.n_seen as nat,
        }
    }

    /// An encoder without categories.
    pub fn new() -> (r: TargetMeanEncoder)
        ensures
            r.blank(),
            r.wf(),
    {
        TargetMeanEncoder {
            maps: Vec::new(),
            global: zero(),
            global_n: zero(),
            n_seen: 0,
            updates: 0,
            initialized: false,
        }
    }

    /// The means that a batch starts from.
    pub open spec fn start(&self, width: usize) -> LevelState {
        if self.initialized {
            self.levels()
        } else {
            LevelState { maps: Seq::new(width as nat, |j: int| Map::<i64, Level>::empty()), ..self.levels() }
        }
    }

    /// Rows that have a target.
    pub open spec fn paired(x: Batch, y: Seq<Double>) -> nat {
        if x.height() < y.len() {
            x.height()
        } else {
            y.len()
        }
    }

    /// What a batch does.
    pub open spec fn answers(&self, after: &TargetMeanEncoder, x: &Matrix, y: Option<Seq<Double>>, r: &Update) -> bool {
        let refused = IncrementalQuality::new(self.updates, x.height() as usize, self.n_seen);
        if y is None {
            &&& *after == *self
            &&& reports(r, refused, shape_issues(x, y).push(issue(IssueCode::MissingTarget)), false)
        } else if self.initialized && self.maps@.len() != x.width {
            &&& *after == *self
            &&& reports(r, refused, shape_issues(x, y).push(issue(IssueCode::FeatureSpaceChangedOnline)), false)
        } else {
            &&& after.levels() == self.start(x.width).after(x@, y->0, TargetMeanEncoder::paired(x@, y->0))
            &&& after.updates == self.updates + 1
            &&& after.initialized
            &&& reports(
                r,
                IncrementalQuality {
                    effective_sample_size: Double::from_u64(after.n_seen),
                    parameter_delta_norm: Some(after.global.minus(self.global).abs()),
                    information_gain: Some(Double::from_usize(x.height() as usize)),
                    still_identified: after.n_seen >= 2,
                    warmup: after.n_seen < 4,
                    ..IncrementalQuality::new(self.updates, x.height() as usize, after.n_seen)
                },
                shape_issues(x, y),
                true,
            )
        }
    }

    fn show(&mut self, row: &Vec<Double>, y: Double)
        requires
            old(self).wf(),
            old(self).maps@.len() == row@.len(),
            old(self).n_seen < u64::MAX,
            y.is_finite(),
        ensures
            final(self).wf(),
            final(self).maps@.len() == row@.len(),
            final(self).levels() == old(self).levels().shown(row@, y),
            final(self).updates == old(self).updates,
            final(self).initialized == old(self).initialized,
    {
        let ghost before = self.levels();
        self.global_n = self.global_n.plus(one());
        self.global = self.global.plus(y.minus(self.global).over(self.global_n));
        let mut j: usize = 0;
        while j < row.len()
            invariant
                j <= row@.len(),
                self.wf(),
                self.maps@.len() == row@.len(),
                before.maps.len() == row@.len(),
                before == old(self).levels(),
                self.n_seen == old(self).n_seen,
                old(self).n_seen < u64::MAX,
                self.updates == old(self).updates,
                self.initialized == old(self).initialized,
                self.global_n == before.global_n.plus(one()),
                self.global == before.global.plus(y.minus(before.global).over(self.global_n)),
                forall|k: int| j <= k < row@.len() ==> (#[trigger] self.maps@[k]).map() == before.maps[k],
                forall|k: int| 0 <= k < j ==> (#[trigger] self.maps@[k]).map() == told(before.maps[k], row@[k], y),
            decreases row@.len() - j,
        {
            let v: Double = row[j];
            assert(self.maps@[j as int].map() == before.maps[j as int]);
            if v.is_finite() {
                let key: i64 = v.round_to_i64();
                let e: Level = match self.maps[j].get(key) {
                    Some(e) => e,
                    None => (zero(), zero()),
                };
                let n: Double = e.1.plus(one());
                self.maps[j].put(key, (e.0.plus(y.minus(e.0).over(n)), n));
            }
            j = j + 1;
        }
        self.n_seen = self.n_seen + 1;
        assert(self.levels().maps =~= before.shown(row@, y).maps);
    }

    /// Takes in a batch, unless it has no target or its column count does not fit.
    pub fn partial_fit(&mut self, x: &Matrix, y: Option<&Vec<Double>>) -> (r: Update)
        requires
            x.wf(),
            old(self).wf(),
            old(self).n_seen + x.height() <= u64::MAX,
            old(self).updates < u64::MAX,
        ensures
            final(self).wf(),
            old(self).answers(final(self), x, target(y), &r),
    {
        let n: usize = x.nrows();
        let mut issues: Vec<Issue> = Vec::new();
        inspect_online_xy(&mut issues, x, y);
        assert(issues@ =~= shape_issues(x, target(y)));
        let t: &Vec<Double> = match y {
            None => {
                issues.push(issue(IssueCode::MissingTarget));
                return rejection(self.updates, n, self.n_seen, issues);
            },
            Some(t) => t,
        };
        if self.initialized && self.maps.len() != x.ncols() {
            issues.push(issue(IssueCode::FeatureSpaceChangedOnline));
            return rejection(self.updates, n, self.n_seen, issues);
        }
        let ghost start = self.start(x.width);
        if !self.initialized {
            let mut maps: Vec<Table<Level>> = Vec::new();
            let mut j: usize = 0;
            while j < x.ncols()
                invariant
                    j <= x.width,
                    maps@.len() == j,
                    forall|k: int|
                        0 <= k < j ==> (#[trigger] maps@[k]).wf() && maps@[k].map() == Map::<i64, Level>::empty(),
                decreases x.width - j,
            {
                maps.push(Table::new());
                j = j + 1;
            }
            self.maps = maps;
            self.initialized = true;
        }
        assert(self.levels().maps =~= start.maps);
        let before: Double = self.global;
        let k: usize = if n < t.len() {
            n
        } else {
            t.len()
        };
        let mut i: usize = 0;
        while i < k
            invariant
                i <= k,
                k <= x.height(),
                k <= t@.len(),
                x.wf(),
                self.wf(),
                self.initialized,
                self.maps@.len() == x.width,
                self.updates == old(self).updates,
                start.n_seen == old(self).n_seen,
                start.n_seen + x.height() <= u64::MAX,
                self.n_seen <= start.n_seen + i,
                self.levels() == start.after(x@, t@, i as nat),
            decreases k - i,
        {
            assert(x@.rows[i as int] == x.rows@[i as int]@);
            assert(x.rows[i as int]@.len() == x.width);
            if t[i].is_finite() {
                self.show(&x.rows[i], t[i]);
            }
            i = i + 1;
        }
        self.updates = self.updates + 1;
        let quality = IncrementalQuality {
            effective_sample_size: Double::from_u64(self.n_seen),
            parameter_delta_norm: Some(self.global.minus(before).abs()),
            information_gain: Some(Double::from_usize(n)),
            still_identified: self.n_seen >= 2,
            warmup: self.n_seen < 4,
            ..IncrementalQuality::new(self.updates - 1, n, self.n_seen)
        };
        screened_report(quality, issues)
    }

    /// The mean of a category, or the overall mean if it is unknown.
    pub open spec fn code(&self, j: int, v: Double) -> Double {
        let s = self.levels();
        if v.is_finite() && j < s.maps.len() && s.maps[j].contains_key(v.round_to_i64()) {
            s.maps[j][v.round_to_i64()].0
        } else {
            s.global
        }
    }

    /// Replaces every category by its mean. Before the first batch the input comes
    /// back, with an issue.
    pub fn transform(&self, x: &Matrix) -> (out: Qualified<Matrix>)
        requires
            x.wf(),
            self.wf(),
        ensures
            if !self.initialized {
                passed_through(&out, x)
            } else {
                &&& out.value.wf()
                &&& out.value.height() == x.height()
                &&& out.value.width == x.width
                &&& forall|i: int, j: int|
                    0 <= i < x.height() && 0 <= j < x.width ==> #[trigger] out.value.at(i, j) == self.code(j, x.at(i, j))
                &&& out.report@.len() == 0
            },
    {
        if !self.initialized {
            return pass_through(x);
        }
        let mut rows: Vec<Vec<Double>> = Vec::new();
        let mut i: usize = 0;
        while i < x.nrows()
            invariant
                i <= x.height(),
                x.wf(),
                self.wf(),
                rows@.len() == i,
                forall|a: int|
                    0 <= a < i ==> (#[trigger] rows@[a])@ == Seq::new(x.width as nat, |j: int| self.code(j, x.at(a, j))),
            decreases x.height() - i,
        {
            let mut row: Vec<Double> = Vec::new();
            let mut j: usize = 0;
            while j < x.ncols()
                invariant
                    i < x.height(),
                    j <= x.width,
                    x.wf(),
                    self.wf(),
                    row@ == Seq::new(j as nat, |j: int| self.code(j, x.at(i as int, j))),
                decreases x.width - j,
            {
                let v: Double = x.get(i, j);
                let mut code: Double = self.global;
                if v.is_finite() && j < self.maps.len() {
                    assert(self.levels().maps[j as int] == self.maps@[j as int].map());
                    if let Some(e) = self.maps[j].get(v.round_to_i64()) {
                        code = e.0;
                    }
                }
                row.push(code);
                j = j + 1;
                assert(row@ =~= Seq::new(j as nat, |j: int| self.code(j, x.at(i as int, j))));
            }
            rows.push(row);
            i = i + 1;
        }
        Qualified { value: Matrix { rows, width: x.ncols() }, report: Vec::new() }
    }
}

/// Keeps the columns whose variance exceeds a threshold.
#[derive(Clone, Debug)]
pub struct OnlineVarianceThreshold {
    /// The threshold.
    pub threshold: Double,
    /// Spread of each column.
    pub columns: Vec<Gauss>,
    /// Columns that are known.
    pub n_features: usize,
    /// Batches taken in.
    pub updates: u64,
}

/// The spread of column `j` after the first `k` rows.
pub open spec fn spread_after(g: Gauss, x: Batch, j: int, k: nat) -> Gauss
    decreases k,
{
    if k == 0 {
        g
    } else {
        spread_after(g, x, j, (k - 1) as nat).pushed(x.rows[k - 1][j])
    }
}

/// The sample variance of a column, zero for fewer than two values.
pub open spec fn column_variance(g: Gauss) -> Double {
    if g.n.gt(one()) {
        g.m2.over(g.n.minus(one()))
    } else {
        zero()
    }
}

fn variance_of(g: Gauss) -> (r: Double)
    ensures
        r == column_variance(g),
{
    if g.n.gt(one()) {
        g.m2.over(g.n.minus(one()))
    } else {
        zero()
    }
}

/// Sum of the variances of the first `k` columns.
pub open spec fn total_variance(c: Seq<Gauss>, k: nat) -> Double
    decreases k,
{
    if k == 0 {
        zero()
    } else {
        total_variance(c, (k - 1) as nat).plus(column_variance(c[k - 1]))
    }
}

/// The largest count of the first `k` columns.
pub open spec fn largest_count(c: Seq<Gauss>, k: nat) -> Double
    decreases k,
{
    if k == 0 {
        zero()
    } else {
        largest_count(c, (k - 1) as nat).max(c[k - 1].n)
    }
}

/// Whether a column varies by more than the threshold.
pub open spec fn varies(g: Gauss, threshold: Double) -> bool {
    g.n.gt(one()) && g.m2.over(g.n.minus(one())).gt(threshold)
}

/// Columns among the first `k` whose variance is above the threshold.
pub open spec fn columns_above(c: Seq<Gauss>, threshold: Double, k: nat) -> Seq<usize>
    decreases k,
{
    if k == 0 {
        Seq::empty()
    } else if column_variance(c[k - 1]).gt(threshold) {
        columns_above(c, threshold, (k - 1) as nat).push((k - 1) as usize)
    } else {
        columns_above(c, threshold, (k - 1) as nat)
    }
}

impl Default for OnlineVarianceThreshold {
    fn default() -> (r: OnlineVarianceThreshold)
        ensures
            r.blank(zero()),
            r.wf(),
    {
        OnlineVarianceThreshold::new(zero())
    }
}

impl OnlineVarianceThreshold {
    /// The state before any row.
    pub open spec fn blank(&self, threshold: Double) -> bool {
        &&& self.threshold == threshold
        &&& self.columns@.len() == 0
        &&& self.n_features == 0
        &&& self.updates == 0
    }

    /// One spread per known column.
    pub open spec fn wf(&self) -> bool {
        self.columns@.len() == self.n_features
    }

    /// A filter with the given threshold.
    pub fn new(threshold: Double) -> (r: OnlineVarianceThreshold)
        ensures
            r.blank(threshold),
            r.wf(),
    {
        OnlineVarianceThreshold { threshold, columns: Vec::new(), n_features: 0, updates: 0 }
    }

    /// The spreads that a batch starts from.
    pub open spec fn start(&self, width: usize) -> Seq<Gauss> {
        if self.n_features == 0 {
            Seq::new(width as nat, |j: int| Gauss::fresh())
        } else {
            self.columns@
        }
    }

    /// Whether a batch has the wrong number of columns.
    pub open spec fn misfits(&self, x: Batch) -> bool {
        self.n_features != 0 && self.n_features != x.width
    }

    /// Whether some column varies by more than the threshold.
    pub open spec fn keeps_some(&self) -> bool {
        exists|j: int| 0 <= j < self.columns@.len() && varies(#[trigger] self.columns@[j], self.threshold)
    }

    /// Whether every column has fewer than two values.
    pub open spec fn is_young(&self) -> bool {
        forall|j: int| 0 <= j < self.columns@.len() ==> (#[trigger] self.columns@[j]).n.lt(two())
    }

    /// What a batch does.
    pub open spec fn answers(&self, after: &OnlineVarianceThreshold, x: &Matrix, r: &Update) -> bool {
        let seen = shape_issues(x, None);
        if self.misfits(x@) {
            &&& *after == *self
            &&& reports(
                r,
                IncrementalQuality::new(self.updates, x.height() as usize, 0),
                seen.push(issue(IssueCode::FeatureSpaceChangedOnline)),
                false,
            )
        } else {
            let start = self.start(x.width);
            &&& after.threshold == self.threshold
            &&& after.n_features == x.width
            &&& after.columns@ == Seq::new(start.len(), |j: int| spread_after(start[j], x@, j, x.height()))
            &&& after.updates == self.updates + 1
            &&& reports(
                r,
                IncrementalQuality {
                    effective_sample_size: largest_count(after.columns@, after.columns@.len()),
                    parameter_delta_norm: Some(
                        total_variance(after.columns@, after.columns@.len()).minus(total_variance(start, start.len())).abs(),
                    ),
                    information_gain: Some(Double::from_usize(x.height() as usize)),
                    still_identified: after.keeps_some(),
                    warmup: after.is_young(),
                    ..IncrementalQuality::new(self.updates, x.height() as usize, 0)
                },
                seen,
                true,
            )
        }
    }

    /// Total variance, largest count, whether some column is kept and whether all are
    /// young.
    fn summary(&self) -> (r: (Double, Double, bool, bool))
        ensures
            r.0 == total_variance(self.columns@, self.columns@.len()),
            r.1 == largest_count(self.columns@, self.columns@.len()),
            r.2 == self.keeps_some(),
            r.3 == self.is_young(),
    {
        let mut total: Double = zero();
        let mut count: Double = zero();
        let mut some: bool = false;
        let mut young: bool = true;
        let mut j: usize = 0;
        while j < self.columns.len()
            invariant
                j <= self.columns@.len(),
                total == total_variance(self.columns@, j as nat),
                count == largest_count(self.columns@, j as nat),
                some == exists|k: int| 0 <= k < j && varies(#[trigger] self.columns@[k], self.threshold),
                young == forall|k: int| 0 <= k < j ==> (#[trigger] self.columns@[k]).n.lt(two()),
            decreases self.columns@.len() - j,
        {
            let g: Gauss = self.columns[j];
            total = total.plus(variance_of(g));
            count = count.max(g.n);
            if g.n.gt(one()) && g.m2.over(g.n.minus(one())).gt(self.threshold) {
                some = true;
                assert(varies(self.columns@[j as int], self.threshold));
            }
            if !g.n.lt(two()) {
                young = false;
                assert(!self.columns@[j as int].n.lt(two()));
            }
            j = j + 1;
        }
        (total, count, some, young)
    }

    /// Takes in a batch, unless its column count does not fit.
    pub fn partial_fit(&mut self, x: &Matrix, _y: Option<&Vec<Double>>) -> (r: Update)
        requires
            x.wf(),
            old(self).wf(),
            old(self).updates < u64::MAX,
        ensures
            final(self).wf(),
            old(self).answers(final(self), x, &r),
    {
        let n: usize = x.nrows();
        let p: usize = x.ncols();
        let mut issues: Vec<Issue> = Vec::new();
        inspect_online_xy(&mut issues, x, None);
        assert(issues@ =~= shape_issues(x, None));
        if self.n_features != 0 && self.n_features != p {
            issues.push(issue(IssueCode::FeatureSpaceChangedOnline));
            return rejection(self.updates, n, 0, issues);
        }
        let ghost start = self.start(x.width);
        if self.n_features == 0 {
            let mut columns: Vec<Gauss> = Vec::new();
            let mut j: usize = 0;
            while j < p
                invariant
                    j <= p,
                    columns@ == Seq::new(j as nat, |k: int| Gauss::fresh()),
                decreases p - j,
            {
                columns.push(Gauss::fresh());
                j = j + 1;
                assert(columns@ =~= Seq::new(j as nat, |k: int| Gauss::fresh()));
            }
            self.columns = columns;
            self.n_features = p;
        }
        assert(self.columns@ =~= start);
        let (before, _c, _s, _y2) = self.summary();
        let mut j: usize = 0;
        while j < p
            invariant
                j <= p,
                p == x.width,
                x.wf(),
                self.columns@.len() == p,
                start.len() == p,
                self.n_features == p,
                self.threshold == old(self).threshold,
                self.updates == old(self).updates,
                forall|k: int| j <= k < p ==> #[trigger] self.columns@[k] == start[k],
                forall|k: int| 0 <= k < j ==> #[trigger] self.columns@[k] == spread_after(start[k], x@, k, x.height()),
            decreases p - j,
        {
            let mut g: Gauss = self.columns[j];
            let mut i: usize = 0;
            while i < x.nrows()
                invariant
                    i <= x.height(),
                    j < x.width,
                    x.wf(),
                    g == spread_after(start[j as int], x@, j as int, i as nat),
                decreases x.height() - i,
            {
                assert(x@.rows[i as int] == x.rows@[i as int]@);
                g = g.pushed(x.get(i, j));
                i = i + 1;
            }
            self.columns.set(j, g);
            j = j + 1;
        }
        assert(self.columns@ =~= Seq::new(start.len(), |j: int| spread_after(start[j], x@, j, x.height())));
        self.updates = self.updates + 1;
        let (total, count, some, young) = self.summary();
        let quality = IncrementalQuality {
            effective_sample_size: count,
            parameter_delta_norm: Some(total.minus(before).abs()),
            information_gain: Some(Double::from_usize(n)),
            still_identified: some,
            warmup: young,
            ..IncrementalQuality::new(self.updates - 1, n, 0)
        };
        screened_report(quality, issues)
    }

    /// Columns that a batch shares with the filter.
    pub open spec fn shared(&self, width: usize) -> nat {
        if width < self.n_features {
            width as nat
        } else {
            self.n_features as nat
        }
    }

    /// The columns that stay; the first one if none would.
    pub open spec fn kept(&self, width: usize) -> Seq<usize> {
        let above = columns_above(self.columns@, self.threshold, self.shared(width));
        if above.len() == 0 {
            seq![0usize]
        } else {
            above
        }
    }

    /// Keeps the columns whose variance is above the threshold, or the first one, with
    /// an issue, if there are none.
    pub fn transform(&self, x: &Matrix) -> (out: Qualified<Matrix>)
        requires
            x.wf(),
            x.width > 0 || x.height() == 0,
            self.wf(),
        ensures
            out.value.wf(),
            out.value.height() == x.height(),
            out.value.width == self.kept(x.width).len(),
            forall|i: int, c: int|
                0 <= i < x.height() && 0 <= c < self.kept(x.width).len() ==> #[trigger] out.value.at(i, c) == x.at(
                    i,
                    self.kept(x.width)[c] as int,
                ),
            out.report@ == if columns_above(self.columns@, self.threshold, self.shared(x.width)).len() == 0 {
                shape_issues(x, None).push(issue(IssueCode::NearZeroVariance))
            } else {
                shape_issues(x, None)
            },
    {
        let mut report: Vec<Issue> = Vec::new();
        inspect_online_xy(&mut report, x, None);
        assert(report@ =~= shape_issues(x, None));
        let k: usize = if x.ncols() < self.n_features {
            x.ncols()
        } else {
            self.n_features
        };
        let mut keep: Vec<usize> = Vec::new();
        let mut j: usize = 0;
        while j < k
            invariant
                j <= k,
                k <= x.width,
                k <= self.columns@.len(),
                keep@ == columns_above(self.columns@, self.threshold, j as nat),
                forall|c: int| 0 <= c < keep@.len() ==> (#[trigger] keep@[c]) < x.width,
            decreases k - j,
        {
            if variance_of(self.columns[j]).gt(self.threshold) {
                keep.push(j);
            }
            j = j + 1;
        }
        if keep.len() == 0 {
            report.push(issue(IssueCode::NearZeroVariance));
            keep.push(0);
            assert(keep@ =~= seq![0usize]);
        }
        let value = select_columns(x, &keep);
        Qualified { value, report }
    }
}

} // verus!
