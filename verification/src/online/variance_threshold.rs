//! Feature selection by a threshold on the streaming sample variance.

use crate::data::Matrix;
use crate::double::{zero, Double};
use crate::online::common::{
    checked_compensated_add, checked_online_covariance_step, checked_sample_variance_from_m2, compensated_add,
    covariance_step, finite_score_delta, lemma_preflight_covers, online_moment_preflight,
    preflight_issues, sample_variance, score_delta, stacked,
};
use crate::quality::{given, issue, raise, Failure, IncrementalQuality, Issue, IssueCode, Qualified, Update};
use vstd::prelude::*;

verus! {

/// Running mean and second moment of one column.
#[derive(Clone, Copy, Debug, PartialEq, Eq, Structural)]
pub struct ColumnMoments {
    /// Observations taken in.
    pub n: u64,
    /// Mean of the observations.
    pub mean: Double,
    /// Sum of squared deviations from the mean.
    pub m2: Double,
    /// Rounding error kept back from `m2`.
    pub m2_compensation: Double,
}

impl ColumnMoments {
    /// The moments after one more observation, or why there are none.
    pub open spec fn observed(self, value: Double) -> Result<ColumnMoments, IssueCode> {
        match covariance_step(self.n, self.mean, self.mean, value, value) {
            Err(code) => Err(code),
            Ok((mean, _, increment)) => if increment.lt(zero()) {
                Err(IssueCode::NonFiniteOutput)
            } else {
                match compensated_add(self.m2, self.m2_compensation, increment) {
                    Err(code) => Err(code),
                    Ok((m2, m2_compensation)) => Ok(
                        ColumnMoments { n: (self.n + 1) as u64, mean, m2, m2_compensation },
                    ),
                }
            },
        }
    }

    /// The moments after the first `k` entries of column `j`.
    pub open spec fn after(self, x: &Matrix, j: int, k: nat) -> Result<ColumnMoments, IssueCode>
        decreases k,
    {
        if k == 0 {
            Ok(self)
        } else {
            match self.after(x, j, (k - 1) as nat) {
                Ok(moments) => moments.observed(x.at(k - 1, j)),
                Err(code) => Err(code),
            }
        }
    }

    /// The moments before any observation.
    pub open spec fn fresh() -> ColumnMoments {
        ColumnMoments { n: 0, mean: zero(), m2: zero(), m2_compensation: zero() }
    }

    /// The moments after a sequence of observations, or why there are none.
    pub open spec fn over(self, values: Seq<Double>) -> Result<ColumnMoments, IssueCode>
        decreases values.len(),
    {
        if values.len() == 0 {
            Ok(self)
        } else {
            match self.over(values.drop_last()) {
                Ok(moments) => moments.observed(values.last()),
                Err(code) => Err(code),
            }
        }
    }

    fn observe(&self, value: Double) -> (r: Result<ColumnMoments, IssueCode>)
        requires
            self.n < u64::MAX,
        ensures
            r == self.observed(value),
            r matches Ok(next) ==> next.n == self.n + 1,
    {
        let (mean, _, increment): (Double, Double, Double) = match checked_online_covariance_step(
            self.n,
            self.mean,
            self.mean,
            value,
            value,
        ) {
            Ok(step) => step,
            Err(code) => {
                return Err(code);
            },
        };
        if increment.lt(zero()) {
            return Err(IssueCode::NonFiniteOutput);
        }
        match checked_compensated_add(self.m2, self.m2_compensation, increment) {
            Err(code) => Err(code),
            Ok((m2, m2_compensation)) => Ok(ColumnMoments { n: self.n + 1, mean, m2, m2_compensation }),
        }
    }

    fn observe_column(&self, x: &Matrix, j: usize) -> (r: Result<ColumnMoments, IssueCode>)
        requires
            x.wf(),
            j < x.width,
            self.n + x.height() <= u64::MAX,
        ensures
            r == self.after(x, j as int, x.height()),
    {
        let mut moments: ColumnMoments = *self;
        let mut i: usize = 0;
        while i < x.nrows()
            invariant
                i <= x.height(),
                x.wf(),
                j < x.width,
                moments.n == self.n + i,
                self.n + x.height() <= u64::MAX,
                self.after(x, j as int, i as nat) == Ok::<ColumnMoments, IssueCode>(moments),
            decreases x.height() - i,
        {
            match moments.observe(x.get(i, j)) {
                Ok(next) => {
                    moments = next;
                },
                Err(code) => {
                    proof {
                        lemma_error_stays(*self, x, j as int, (i + 1) as nat, x.height());
                    }
                    return Err(code);
                },
            }
            i = i + 1;
        }
        Ok(moments)
    }
}

proof fn lemma_error_stays(start: ColumnMoments, x: &Matrix, j: int, k: nat, n: nat)
    requires
        k <= n,
        start.after(x, j, k) is Err,
    ensures
        start.after(x, j, n) == start.after(x, j, k),
    decreases n - k,
{
    if k < n {
        lemma_error_stays(start, x, j, k + 1, n);
    }
}

/// Streaming sample-variance threshold.
///
/// Every accepted row updates every column. A cell that is not finite refuses
/// the whole batch. Later batches and transforms must have the column count of
/// the first. A column is kept exactly when its sample variance is strictly
/// greater than `threshold`.
#[derive(Clone, Debug)]
pub struct OnlineVarianceThreshold {
    /// Finite, not negative cutoff.
    pub threshold: Double,
    /// Rows taken in.
    pub n_seen: u64,
    /// Column means.
    pub mean: Vec<Double>,
    /// Column sums of squared deviations.
    pub m2: Vec<Double>,
    /// Rounding errors kept back from `m2`.
    pub m2_compensation: Vec<Double>,
    /// Column count, 0 before the first batch.
    pub n_features: usize,
    /// Batches accepted.
    pub updates: u64,
}

/// Sample variance where it is representable.
pub open spec fn variance_value(n: u64, m2: Double, compensation: Double) -> Double {
    sample_variance(n, m2, compensation)->Ok_0->Some_0
}

/// The first column, among the first `k`, whose variance is not representable.
pub open spec fn variance_error(n: u64, m2: Seq<Double>, compensation: Seq<Double>, k: nat) -> Option<IssueCode>
    decreases k,
{
    if k == 0 {
        None
    } else {
        match variance_error(n, m2, compensation, (k - 1) as nat) {
            Some(code) => Some(code),
            None => match sample_variance(n, m2[k - 1], compensation[k - 1]) {
                Err(code) => Some(code),
                Ok(_) => None,
            },
        }
    }
}

/// Largest variance among the first `k` columns, or 0.
pub open spec fn largest_variance(n: u64, m2: Seq<Double>, compensation: Seq<Double>, k: nat) -> Double
    decreases k,
{
    if k == 0 {
        zero()
    } else {
        largest_variance(n, m2, compensation, (k - 1) as nat).max(variance_value(n, m2[k - 1], compensation[k - 1]))
    }
}

/// The columns, among the first `k`, with a variance above the threshold.
pub open spec fn kept_columns(threshold: Double, n: u64, m2: Seq<Double>, compensation: Seq<Double>, k: nat) -> Seq<int>
    decreases k,
{
    if k == 0 {
        Seq::empty()
    } else {
        let earlier = kept_columns(threshold, n, m2, compensation, (k - 1) as nat);
        if variance_value(n, m2[k - 1], compensation[k - 1]).gt(threshold) {
            earlier.push(k - 1)
        } else {
            earlier
        }
    }
}

/// Exactly the columns above the threshold are kept, in their order.
pub proof fn law_kept_columns(threshold: Double, n: u64, m2: Seq<Double>, compensation: Seq<Double>, k: nat)
    ensures
        ({
            let kept = kept_columns(threshold, n, m2, compensation, k);
            &&& kept.len() <= k
            &&& forall|i: int| 0 <= i < kept.len() ==> 0 <= #[trigger] kept[i] < k
            &&& forall|a: int, b: int| 0 <= a < b < kept.len() ==> kept[a] < kept[b]
            &&& forall|j: int|
                0 <= j < k ==> (#[trigger] kept.contains(j) <==> variance_value(n, m2[j], compensation[j]).gt(
                    threshold,
                ))
        }),
    decreases k,
{
    if k > 0 {
        law_kept_columns(threshold, n, m2, compensation, (k - 1) as nat);
        let earlier = kept_columns(threshold, n, m2, compensation, (k - 1) as nat);
        let kept = kept_columns(threshold, n, m2, compensation, k);
        assert forall|j: int| 0 <= j < k implies (#[trigger] kept.contains(j) <==> variance_value(
            n,
            m2[j],
            compensation[j],
        ).gt(threshold)) by {
            if j == k - 1 {
                if variance_value(n, m2[j], compensation[j]).gt(threshold) {
                    assert(kept[kept.len() - 1] == j);
                } else if kept.contains(j) {
                    let i = choose|i: int| 0 <= i < kept.len() && kept[i] == j;
                    assert(earlier[i] == j);
                }
            } else {
                if earlier.contains(j) {
                    let i = choose|i: int| 0 <= i < earlier.len() && earlier[i] == j;
                    assert(kept[i] == j);
                }
                if kept.contains(j) {
                    let i = choose|i: int| 0 <= i < kept.len() && kept[i] == j;
                    assert(earlier[i] == j);
                }
            }
        }
    }
}

/// Whether the entry in row `i` and column `j` is not finite.
pub open spec fn bad_cell(x: &Matrix, i: int, j: int) -> bool {
    !x.at(i, j).is_finite()
}

/// Whether some entry is not finite.
pub open spec fn has_bad_cell(x: &Matrix) -> bool {
    exists|i: int, j: int| 0 <= i < x.height() && 0 <= j < x.width && #[trigger] bad_cell(x, i, j)
}

/// Whether some entry is not finite.
pub fn find_bad_cell(x: &Matrix) -> (found: bool)
    requires
        x.wf(),
    ensures
        found == has_bad_cell(x),
{
    let mut i: usize = 0;
    while i < x.nrows()
        invariant
            i <= x.height(),
            x.wf(),
            forall|a: int, b: int| 0 <= a < i && 0 <= b < x.width ==> !#[trigger] bad_cell(x, a, b),
        decreases x.height() - i,
    {
        let mut j: usize = 0;
        while j < x.ncols()
            invariant
                i < x.height(),
                j <= x.width,
                x.wf(),
                forall|a: int, b: int| 0 <= a < i && 0 <= b < x.width ==> !#[trigger] bad_cell(x, a, b),
                forall|b: int| 0 <= b < j ==> !#[trigger] bad_cell(x, i as int, b),
            decreases x.width - j,
        {
            if !x.get(i, j).is_finite() {
                assert(bad_cell(x, i as int, j as int));
                return true;
            }
            j = j + 1;
        }
        i = i + 1;
    }
    false
}

/// Whether every entry is finite.
pub fn all_finite(v: &Vec<Double>) -> (r: bool)
    ensures
        r == finite_seq(v@),
{
    let mut i: usize = 0;
    while i < v.len()
        invariant
            i <= v.len(),
            forall|k: int| 0 <= k < i ==> (#[trigger] v@[k]).is_finite(),
        decreases v.len() - i,
    {
        if !v[i].is_finite() {
            return false;
        }
        i = i + 1;
    }
    true
}

/// Whether every entry is finite.
pub open spec fn finite_seq(v: Seq<Double>) -> bool {
    forall|k: int| 0 <= k < v.len() ==> (#[trigger] v[k]).is_finite()
}

impl Default for OnlineVarianceThreshold {
    fn default() -> (r: OnlineVarianceThreshold)
        ensures
            r.blank(zero()),
    {
        OnlineVarianceThreshold::new(zero())
    }
}

impl OnlineVarianceThreshold {
    /// The state before any row.
    pub open spec fn blank(&self, threshold: Double) -> bool {
        &&& self.threshold == threshold
        &&& self.n_seen == 0
        &&& self.mean@.len() == 0
        &&& self.m2@.len() == 0
        &&& self.m2_compensation@.len() == 0
        &&& self.n_features == 0
        &&& self.updates == 0
    }

    /// Same figures in every field.
    pub open spec fn agrees(&self, other: &OnlineVarianceThreshold) -> bool {
        &&& self.threshold == other.threshold
        &&& self.n_seen == other.n_seen
        &&& self.mean@ == other.mean@
        &&& self.m2@ == other.m2@
        &&& self.m2_compensation@ == other.m2_compensation@
        &&& self.n_features == other.n_features
        &&& self.updates == other.updates
    }

    /// Construct a selector with the given cutoff.
    pub fn new(threshold: Double) -> (r: OnlineVarianceThreshold)
        ensures
            r.blank(threshold),
    {
        OnlineVarianceThreshold {
            threshold,
            n_seen: 0,
            mean: Vec::new(),
            m2: Vec::new(),
            m2_compensation: Vec::new(),
            n_features: 0,
            updates: 0,
        }
    }

    /// Whether column `j` holds figures that `n_seen` rows can leave.
    pub open spec fn sound_column(&self, j: int) -> bool {
        &&& sample_variance(self.n_seen, self.m2@[j], self.m2_compensation@[j]) is Ok
        &&& self.n_seen != 1 || self.m2@[j].plus(self.m2_compensation@[j]).same(zero())
    }

    /// Whether the stored figures can be continued from.
    pub open spec fn sound(&self) -> bool {
        if self.n_features == 0 {
            self.n_seen == 0 && self.mean@.len() == 0 && self.m2@.len() == 0 && self.m2_compensation@.len() == 0
                && self.updates == 0
        } else {
            &&& self.n_seen > 0
            &&& self.mean@.len() == self.n_features
            &&& self.m2@.len() == self.n_features
            &&& self.m2_compensation@.len() == self.n_features
            &&& finite_seq(self.mean@)
            &&& forall|j: int| 0 <= j < self.n_features ==> #[trigger] self.sound_column(j)
        }
    }

    fn is_sound(&self) -> (r: bool)
        ensures
            r == self.sound(),
    {
        if self.n_features == 0 {
            self.n_seen == 0 && self.mean.len() == 0 && self.m2.len() == 0 && self.m2_compensation.len() == 0
                && self.updates == 0
        } else {
            if !(self.n_seen > 0 && self.mean.len() == self.n_features && self.m2.len() == self.n_features
                && self.m2_compensation.len() == self.n_features && all_finite(&self.mean)) {
                return false;
            }
            let mut j: usize = 0;
            while j < self.n_features
                invariant
                    j <= self.n_features,
                    self.m2@.len() == self.n_features,
                    self.m2_compensation@.len() == self.n_features,
                    forall|k: int| 0 <= k < j ==> #[trigger] self.sound_column(k),
                decreases self.n_features - j,
            {
                let fine: bool = match checked_sample_variance_from_m2(
                    self.n_seen,
                    self.m2[j],
                    self.m2_compensation[j],
                ) {
                    Ok(_) => true,
                    Err(_) => false,
                };
                if !(fine && (self.n_seen != 1 || self.m2[j].plus(self.m2_compensation[j]).same(zero()))) {
                    assert(!self.sound_column(j as int));
                    return false;
                }
                j = j + 1;
            }
            true
        }
    }

    /// The moments of column `j` before the batch.
    pub open spec fn column(&self, j: int) -> ColumnMoments {
        if self.n_features == 0 {
            ColumnMoments { n: self.n_seen, mean: zero(), m2: zero(), m2_compensation: zero() }
        } else {
            ColumnMoments {
                n: self.n_seen,
                mean: self.mean@[j],
                m2: self.m2@[j],
                m2_compensation: self.m2_compensation@[j],
            }
        }
    }

    /// The moments of column `j` after the batch.
    pub open spec fn column_after(&self, x: &Matrix, j: int) -> Result<ColumnMoments, IssueCode> {
        self.column(j).after(x, j, x.height())
    }

    /// Why the first of the first `k` columns that cannot take in the batch cannot.
    pub open spec fn column_error(&self, x: &Matrix, k: nat) -> Option<IssueCode>
        decreases k,
    {
        if k == 0 {
            None
        } else {
            match self.column_error(x, (k - 1) as nat) {
                Some(code) => Some(code),
                None => match self.column_after(x, k - 1) {
                    Err(code) => Some(code),
                    Ok(_) => None,
                },
            }
        }
    }

    /// Column means after the batch.
    pub open spec fn mean_after(&self, x: &Matrix) -> Seq<Double> {
        Seq::new(x.width as nat, |j: int| self.column_after(x, j)->Ok_0.mean)
    }

    /// Column second moments after the batch.
    pub open spec fn m2_after(&self, x: &Matrix) -> Seq<Double> {
        Seq::new(x.width as nat, |j: int| self.column_after(x, j)->Ok_0.m2)
    }

    /// Column compensations after the batch.
    pub open spec fn compensation_after(&self, x: &Matrix) -> Seq<Double> {
        Seq::new(x.width as nat, |j: int| self.column_after(x, j)->Ok_0.m2_compensation)
    }

    /// Why a batch that passed the shape and counter checks is refused.
    pub open spec fn refusal(&self, x: &Matrix) -> Option<IssueCode> {
        if !self.threshold.is_finite() || self.threshold.lt(zero()) {
            Some(IssueCode::InvalidParameter)
        } else if self.n_features != 0 && x.width != self.n_features {
            Some(IssueCode::FeatureSpaceChangedOnline)
        } else if has_bad_cell(x) {
            Some(IssueCode::NonFiniteInput)
        } else if !self.sound() {
            Some(IssueCode::NonFiniteOutput)
        } else if self.column_error(x, x.width as nat) is Some {
            self.column_error(x, x.width as nat)
        } else if self.n_seen + x.height() >= 2 {
            variance_error(
                (self.n_seen + x.height()) as u64,
                self.m2_after(x),
                self.compensation_after(x),
                x.width as nat,
            )
        } else {
            None
        }
    }

    /// All reasons to refuse a batch; empty where it is accepted.
    pub open spec fn refusals(&self, x: &Matrix) -> Seq<Issue> {
        let early = preflight_issues(x, None, false, self.updates, self.n_seen);
        if early.len() > 0 {
            early
        } else {
            match self.refusal(x) {
                Some(code) => seq![issue(code)],
                None => Seq::empty(),
            }
        }
    }

    /// The state that an accepted batch leaves.
    pub open spec fn is_after(&self, before: &OnlineVarianceThreshold, x: &Matrix) -> bool {
        &&& self.threshold == before.threshold
        &&& self.n_seen == before.n_seen + x.height()
        &&& self.mean@ == before.mean_after(x)
        &&& self.m2@ == before.m2_after(x)
        &&& self.m2_compensation@ == before.compensation_after(x)
        &&& self.n_features == x.width
        &&& self.updates == before.updates + 1
    }

    /// The largest column variance, once there are two rows.
    pub open spec fn peak(&self) -> Option<Double> {
        if self.n_seen < 2 {
            None
        } else {
            Some(largest_variance(self.n_seen, self.m2@, self.m2_compensation@, self.n_features as nat))
        }
    }

    /// The columns that are kept.
    pub open spec fn kept(&self) -> Seq<int> {
        if self.n_seen < 2 {
            Seq::empty()
        } else {
            kept_columns(self.threshold, self.n_seen, self.m2@, self.m2_compensation@, self.n_features as nat)
        }
    }

    /// Quality figures of an accepted batch.
    pub open spec fn figures(&self, before: &OnlineVarianceThreshold, batch: usize) -> IncrementalQuality {
        IncrementalQuality {
            effective_sample_size: Double::from_u64(self.n_seen),
            parameter_delta_norm: if before.peak() is Some && self.peak() is Some {
                score_delta(before.peak()->0, self.peak()->0)
            } else {
                None
            },
            information_gain: Some(Double::from_usize(batch)),
            still_identified: self.n_seen >= 2 && self.kept().len() >= 1,
            warmup: self.n_seen < 2,
            ..IncrementalQuality::new((self.updates - 1) as u64, batch, self.n_seen)
        }
    }

    /// Takes in a batch, or refuses it and changes nothing.
    pub fn partial_fit(&mut self, x: &Matrix, _y: Option<&Vec<Double>>) -> (r: Result<Update, Failure>)
        requires
            x.wf(),
        ensures
            match r {
                Ok(update) => {
                    &&& old(self).refusals(x).len() == 0
                    &&& final(self).is_after(old(self), x)
                    &&& update.quality == final(self).figures(old(self), x.height() as usize)
                    &&& update.issues@ == given(
                        final(self).n_seen >= 2 && final(self).kept().len() == 0,
                        IssueCode::NearZeroVariance,
                    )
                    &&& update.screened
                    &&& !update.idle
                    &&& update.trailing@ == Seq::<Issue>::empty()
                },
                Err(failure) => {
                    &&& old(self).refusals(x).len() > 0
                    &&& failure.issues@ == old(self).refusals(x)
                    &&& final(self).agrees(old(self))
                },
            },
    {
        let mut issues = online_moment_preflight(x, None, false, self.updates, self.n_seen);
        if issues.len() > 0 {
            return Err(Failure { issues });
        }
        proof {
            lemma_preflight_covers(x, None, false, self.updates, self.n_seen);
        }
        if !self.threshold.is_finite() || self.threshold.lt(zero()) {
            issues.push(issue(IssueCode::InvalidParameter));
            assert(issues@ =~= self.refusals(x));
            return Err(Failure { issues });
        }
        if self.n_features != 0 && x.ncols() != self.n_features {
            issues.push(issue(IssueCode::FeatureSpaceChangedOnline));
            assert(issues@ =~= self.refusals(x));
            return Err(Failure { issues });
        }
        if find_bad_cell(x) {
            issues.push(issue(IssueCode::NonFiniteInput));
            assert(issues@ =~= self.refusals(x));
            return Err(Failure { issues });
        }
        if !self.is_sound() {
            issues.push(issue(IssueCode::NonFiniteOutput));
            assert(issues@ =~= self.refusals(x));
            return Err(Failure { issues });
        }
        assert forall|j: int| 0 <= j < self.n_features implies sample_variance(
            self.n_seen,
            #[trigger] self.m2@[j],
            self.m2_compensation@[j],
        ) is Ok by {
            assert(self.sound_column(j));
        }
        let peak_before: Option<Double> = self.peak_of();
        let ghost before = *self;
        let p: usize = x.ncols();
        let new_n: u64 = self.n_seen + x.nrows() as u64;
        let mut mean: Vec<Double> = Vec::new();
        let mut m2: Vec<Double> = Vec::new();
        let mut m2_compensation: Vec<Double> = Vec::new();
        let mut j: usize = 0;
        while j < p
            invariant
                j <= p,
                p == x.width,
                x.wf(),
                *self == before,
                self.sound(),
                self.n_features == 0 || self.n_features == p,
                self.n_seen + x.height() <= u64::MAX,
                issues@.len() == 0,
                preflight_issues(x, None, false, self.updates, self.n_seen).len() == 0,
                self.threshold.is_finite() && !self.threshold.lt(zero()),
                !has_bad_cell(x),
                self.column_error(x, j as nat) is None,
                mean@ == self.mean_after(x).take(j as int),
                m2@ == self.m2_after(x).take(j as int),
                m2_compensation@ == self.compensation_after(x).take(j as int),
            decreases p - j,
        {
            let start: ColumnMoments = if self.n_features == 0 {
                ColumnMoments { n: self.n_seen, mean: zero(), m2: zero(), m2_compensation: zero() }
            } else {
                ColumnMoments {
                    n: self.n_seen,
                    mean: self.mean[j],
                    m2: self.m2[j],
                    m2_compensation: self.m2_compensation[j],
                }
            };
            assert(start == self.column(j as int));
            match start.observe_column(x, j) {
                Ok(next) => {
                    mean.push(next.mean);
                    m2.push(next.m2);
                    m2_compensation.push(next.m2_compensation);
                },
                Err(code) => {
                    proof {
                        self.lemma_column_error(x, (j + 1) as nat, p as nat);
                    }
                    issues.push(issue(code));
                    assert(issues@ =~= self.refusals(x));
                    return Err(Failure { issues });
                },
            }
            j = j + 1;
            assert(mean@ =~= self.mean_after(x).take(j as int));
            assert(m2@ =~= self.m2_after(x).take(j as int));
            assert(m2_compensation@ =~= self.compensation_after(x).take(j as int));
        }
        assert(mean@ =~= self.mean_after(x));
        assert(m2@ =~= self.m2_after(x));
        assert(m2_compensation@ =~= self.compensation_after(x));
        if new_n >= 2 {
            match first_variance_error(new_n, &m2, &m2_compensation) {
                Some(code) => {
                    issues.push(issue(code));
                    assert(issues@ =~= self.refusals(x));
                    return Err(Failure { issues });
                },
                None => {},
            }
        }
        assert(self.refusals(x) =~= Seq::empty());
        self.n_seen = new_n;
        self.mean = mean;
        self.m2 = m2;
        self.m2_compensation = m2_compensation;
        self.n_features = p;
        self.updates = self.updates + 1;
        let peak: Option<Double> = self.peak_of();
        let kept: usize = self.kept_of().len();
        let quality = IncrementalQuality {
            effective_sample_size: Double::from_u64(self.n_seen),
            parameter_delta_norm: match (peak_before, peak) {
                (Some(b), Some(a)) => finite_score_delta(b, a),
                _ => None,
            },
            information_gain: Some(Double::from_usize(x.nrows())),
            still_identified: self.n_seen >= 2 && kept >= 1,
            warmup: self.n_seen < 2,
            ..IncrementalQuality::new(self.updates - 1, x.nrows(), self.n_seen)
        };
        raise(&mut issues, self.n_seen >= 2 && kept == 0, IssueCode::NearZeroVariance);
        assert(issues@ =~= given(self.n_seen >= 2 && self.kept().len() == 0, IssueCode::NearZeroVariance));
        Ok(Update { quality, issues, screened: true, idle: false, trailing: Vec::new() })
    }

    proof fn lemma_column_error(&self, x: &Matrix, k: nat, n: nat)
        requires
            k <= n,
            self.column_error(x, k) is Some,
        ensures
            self.column_error(x, n) == self.column_error(x, k),
        decreases n - k,
    {
        if k < n {
            self.lemma_column_error(x, k + 1, n);
        }
    }

    fn peak_of(&self) -> (r: Option<Double>)
        requires
            self.m2@.len() == self.n_features,
            self.m2_compensation@.len() == self.n_features,
            self.n_seen >= 2 ==> forall|j: int|
                0 <= j < self.n_features ==> sample_variance(
                    self.n_seen,
                    #[trigger] self.m2@[j],
                    self.m2_compensation@[j],
                ) is Ok,
        ensures
            r == self.peak(),
    {
        if self.n_seen < 2 {
            return None;
        }
        let mut largest: Double = zero();
        let mut j: usize = 0;
        while j < self.n_features
            invariant
                j <= self.n_features,
                self.n_seen >= 2,
                self.m2@.len() == self.n_features,
                self.m2_compensation@.len() == self.n_features,
                largest == largest_variance(self.n_seen, self.m2@, self.m2_compensation@, j as nat),
                forall|j: int|
                    0 <= j < self.n_features ==> sample_variance(
                        self.n_seen,
                        #[trigger] self.m2@[j],
                        self.m2_compensation@[j],
                    ) is Ok,
            decreases self.n_features - j,
        {
            match checked_sample_variance_from_m2(self.n_seen, self.m2[j], self.m2_compensation[j]) {
                Ok(Some(variance)) => {
                    largest = largest.max(variance);
                },
                _ => {},
            }
            j = j + 1;
        }
        Some(largest)
    }

    fn kept_of(&self) -> (r: Vec<usize>)
        requires
            self.m2@.len() == self.n_features,
            self.m2_compensation@.len() == self.n_features,
            self.n_seen >= 2 ==> forall|j: int|
                0 <= j < self.n_features ==> sample_variance(
                    self.n_seen,
                    #[trigger] self.m2@[j],
                    self.m2_compensation@[j],
                ) is Ok,
        ensures
            r@.len() == self.kept().len(),
            forall|i: int| 0 <= i < r@.len() ==> #[trigger] r@[i] as int == self.kept()[i],
            forall|i: int| 0 <= i < r@.len() ==> (#[trigger] r@[i]) < self.n_features,
    {
        let mut keep: Vec<usize> = Vec::new();
        if self.n_seen < 2 {
            return keep;
        }
        let mut j: usize = 0;
        while j < self.n_features
            invariant
                j <= self.n_features,
                self.n_seen >= 2,
                self.m2@.len() == self.n_features,
                self.m2_compensation@.len() == self.n_features,
                keep@.len() == kept_columns(self.threshold, self.n_seen, self.m2@, self.m2_compensation@, j as nat).len(),
                forall|i: int|
                    0 <= i < keep@.len() ==> #[trigger] keep@[i] as int == kept_columns(
                        self.threshold,
                        self.n_seen,
                        self.m2@,
                        self.m2_compensation@,
                        j as nat,
                    )[i],
                forall|i: int| 0 <= i < keep@.len() ==> (#[trigger] keep@[i]) < j,
                forall|j: int|
                    0 <= j < self.n_features ==> sample_variance(
                        self.n_seen,
                        #[trigger] self.m2@[j],
                        self.m2_compensation@[j],
                    ) is Ok,
            decreases self.n_features - j,
        {
            match checked_sample_variance_from_m2(self.n_seen, self.m2[j], self.m2_compensation[j]) {
                Ok(Some(variance)) => {
                    if variance.gt(self.threshold) {
                        keep.push(j);
                    }
                },
                _ => {},
            }
            j = j + 1;
        }
        keep
    }

    /// All reasons to refuse a transform; empty where it is performed.
    pub open spec fn transform_refusals(&self, x: &Matrix) -> Seq<Issue> {
        let early = given(
            !self.threshold.is_finite() || self.threshold.lt(zero()),
            IssueCode::InvalidParameter,
        ) + given(x.height() == 0 || x.width == 0, IssueCode::EmptyMatrix) + given(
            self.n_features == 0,
            IssueCode::PartialFitBeforeInit,
        ) + given(self.n_features != 0 && x.width != self.n_features, IssueCode::FeatureSpaceChangedOnline);
        if early.len() > 0 {
            early
        } else if has_bad_cell(x) {
            seq![issue(IssueCode::NonFiniteInput)]
        } else if self.n_seen == 0 || self.mean@.len() != self.n_features || self.m2@.len() != self.n_features
            || self.m2_compensation@.len() != self.n_features || !finite_seq(self.mean@) {
            seq![issue(IssueCode::NonFiniteOutput)]
        } else if self.n_seen < 2 {
            seq![issue(IssueCode::InsufficientSample)]
        } else {
            match variance_error(self.n_seen, self.m2@, self.m2_compensation@, self.n_features as nat) {
                Some(code) => seq![issue(code)],
                None => given(self.kept().len() == 0, IssueCode::MeaninglessFit),
            }
        }
    }

    /// Keeps the columns above the threshold.
    pub fn transform(&self, x: &Matrix) -> (r: Result<Qualified<Matrix>, Failure>)
        requires
            x.wf(),
        ensures
            match r {
                Ok(selected) => {
                    &&& self.transform_refusals(x).len() == 0
                    &&& selected.report@.len() == 0
                    &&& selected.value.wf()
                    &&& selected.value.height() == x.height()
                    &&& selected.value.width == self.kept().len()
                    &&& forall|i: int, c: int|
                        0 <= i < x.height() && 0 <= c < self.kept().len() ==> #[trigger] selected.value.at(i, c)
                            == x.at(i, self.kept()[c])
                },
                Err(failure) => {
                    &&& self.transform_refusals(x).len() > 0
                    &&& failure.issues@ == self.transform_refusals(x)
                },
            },
    {
        let mut issues: Vec<Issue> = Vec::new();
        raise(
            &mut issues,
            !self.threshold.is_finite() || self.threshold.lt(zero()),
            IssueCode::InvalidParameter,
        );
        raise(&mut issues, x.nrows() == 0 || x.ncols() == 0, IssueCode::EmptyMatrix);
        raise(&mut issues, self.n_features == 0, IssueCode::PartialFitBeforeInit);
        raise(
            &mut issues,
            self.n_features != 0 && x.ncols() != self.n_features,
            IssueCode::FeatureSpaceChangedOnline,
        );
        if issues.len() > 0 {
            assert(issues@ =~= self.transform_refusals(x));
            return Err(Failure { issues });
        }
        if find_bad_cell(x) {
            issues.push(issue(IssueCode::NonFiniteInput));
            assert(issues@ =~= self.transform_refusals(x));
            return Err(Failure { issues });
        }
        if self.n_seen == 0 || self.mean.len() != self.n_features || self.m2.len() != self.n_features
            || self.m2_compensation.len() != self.n_features || !all_finite(&self.mean) {
            issues.push(issue(IssueCode::NonFiniteOutput));
            assert(issues@ =~= self.transform_refusals(x));
            return Err(Failure { issues });
        }
        if self.n_seen < 2 {
            issues.push(issue(IssueCode::InsufficientSample));
            assert(issues@ =~= self.transform_refusals(x));
            return Err(Failure { issues });
        }
        match first_variance_error(self.n_seen, &self.m2, &self.m2_compensation) {
            Some(code) => {
                issues.push(issue(code));
                assert(issues@ =~= self.transform_refusals(x));
                return Err(Failure { issues });
            },
            None => {},
        }
        let keep = self.kept_of();
        if keep.len() == 0 {
            issues.push(issue(IssueCode::MeaninglessFit));
            assert(issues@ =~= self.transform_refusals(x));
            return Err(Failure { issues });
        }
        assert(self.transform_refusals(x) =~= Seq::empty());
        let value = select_columns(x, &keep);
        Ok(Qualified { value, report: issues })
    }
}

fn first_variance_error(n: u64, m2: &Vec<Double>, compensation: &Vec<Double>) -> (r: Option<IssueCode>)
    requires
        m2@.len() == compensation@.len(),
    ensures
        r == variance_error(n, m2@, compensation@, m2@.len()),
        r is None ==> forall|j: int|
            0 <= j < m2@.len() ==> sample_variance(n, #[trigger] m2@[j], compensation@[j]) is Ok,
{
    let mut j: usize = 0;
    while j < m2.len()
        invariant
            j <= m2@.len(),
            m2@.len() == compensation@.len(),
            variance_error(n, m2@, compensation@, j as nat) is None,
            forall|k: int| 0 <= k < j ==> sample_variance(n, #[trigger] m2@[k], compensation@[k]) is Ok,
        decreases m2@.len() - j,
    {
        match checked_sample_variance_from_m2(n, m2[j], compensation[j]) {
            Ok(_) => {},
            Err(code) => {
                proof {
                    lemma_variance_error(n, m2@, compensation@, (j + 1) as nat, m2@.len());
                }
                return Some(code);
            },
        }
        j = j + 1;
    }
    None
}

proof fn lemma_variance_error(n: u64, m2: Seq<Double>, compensation: Seq<Double>, k: nat, len: nat)
    requires
        k <= len,
        variance_error(n, m2, compensation, k) is Some,
    ensures
        variance_error(n, m2, compensation, len) == variance_error(n, m2, compensation, k),
    decreases len - k,
{
    if k < len {
        lemma_variance_error(n, m2, compensation, k + 1, len);
    }
}

/// The given columns, in the given order.
pub fn select_columns(x: &Matrix, keep: &Vec<usize>) -> (m: Matrix)
    requires
        x.wf(),
        x.height() > 0 ==> forall|c: int| 0 <= c < keep@.len() ==> (#[trigger] keep@[c]) < x.width,
    ensures
        m.wf(),
        m.height() == x.height(),
        m.width == keep@.len(),
        forall|i: int, c: int|
            0 <= i < x.height() && 0 <= c < keep@.len() ==> #[trigger] m.at(i, c) == x.at(i, keep@[c] as int),
{
    let mut rows: Vec<Vec<Double>> = Vec::new();
    let mut i: usize = 0;
    while i < x.nrows()
        invariant
            i <= x.height(),
            x.wf(),
            x.height() > 0 ==> forall|c: int| 0 <= c < keep@.len() ==> (#[trigger] keep@[c]) < x.width,
            rows@.len() == i,
            forall|a: int|
                0 <= a < i ==> (#[trigger] rows@[a])@ == Seq::new(keep@.len(), |c: int| x.at(a, keep@[c] as int)),
        decreases x.height() - i,
    {
        let mut row: Vec<Double> = Vec::new();
        let mut c: usize = 0;
        while c < keep.len()
            invariant
                i < x.height(),
                c <= keep@.len(),
                x.wf(),
                x.height() > 0 ==> forall|c: int| 0 <= c < keep@.len() ==> (#[trigger] keep@[c]) < x.width,
                row@ == Seq::new(c as nat, |b: int| x.at(i as int, keep@[b] as int)),
            decreases keep@.len() - c,
        {
            row.push(x.get(i, keep[c]));
            c = c + 1;
            assert(row@ =~= Seq::new(c as nat, |b: int| x.at(i as int, keep@[b] as int)));
        }
        rows.push(row);
        i = i + 1;
    }
    let width: usize = keep.len();
    Matrix { rows, width }
}

proof fn lemma_same_prefix(start: ColumnMoments, x1: &Matrix, x2: &Matrix, x: &Matrix, j: int, k: nat)
    requires
        stacked(x1, x2, x),
        0 <= j < x.width,
        k <= x1.height(),
    ensures
        start.after(x, j, k) == start.after(x1, j, k),
    decreases k,
{
    if k > 0 {
        lemma_same_prefix(start, x1, x2, x, j, (k - 1) as nat);
        assert(x.at(k - 1, j) == x1.at(k - 1, j));
    }
}

/// A column taken in over two batches has the moments of the joined column.
pub proof fn law_columns_join(start: ColumnMoments, x1: &Matrix, x2: &Matrix, x: &Matrix, j: int, k: nat)
    requires
        stacked(x1, x2, x),
        0 <= j < x.width,
        k <= x2.height(),
    ensures
        start.after(x, j, x1.height() + k) == (match start.after(x1, j, x1.height()) {
            Ok(moments) => moments.after(x2, j, k),
            Err(code) => Err(code),
        }),
    decreases k,
{
    if k == 0 {
        lemma_same_prefix(start, x1, x2, x, j, x1.height());
    } else {
        law_columns_join(start, x1, x2, x, j, (k - 1) as nat);
        assert(x2.at(k - 1, j) == x.at(x1.height() + k - 1, j));
    }
}

proof fn lemma_count(start: ColumnMoments, x: &Matrix, j: int, k: nat)
    requires
        start.n + k <= u64::MAX,
    ensures
        start.after(x, j, k) matches Ok(m) ==> m.n == start.n + k,
    decreases k,
{
    if k > 0 {
        lemma_count(start, x, j, (k - 1) as nat);
    }
}

proof fn lemma_no_error(s: &OnlineVarianceThreshold, x: &Matrix, k: nat, j: int)
    requires
        0 <= j < k,
        s.column_error(x, k) is None,
    ensures
        s.column_after(x, j) is Ok,
    decreases k,
{
    if j < k - 1 {
        lemma_no_error(s, x, (k - 1) as nat, j);
    }
}

proof fn lemma_all_fine(s: &OnlineVarianceThreshold, x: &Matrix, k: nat)
    requires
        forall|j: int| 0 <= j < k ==> (#[trigger] s.column_after(x, j)) is Ok,
    ensures
        s.column_error(x, k) is None,
    decreases k,
{
    if k > 0 {
        lemma_all_fine(s, x, (k - 1) as nat);
    }
}

/// Partition invariance. Rows that are accepted in two batches are accepted in
/// one, and leave the same columns, bit for bit.
pub proof fn law_threshold_partition_invariance(
    start: &OnlineVarianceThreshold,
    middle: &OnlineVarianceThreshold,
    end: &OnlineVarianceThreshold,
    x1: &Matrix,
    x2: &Matrix,
    x: &Matrix,
)
    requires
        stacked(x1, x2, x),
        start.refusals(x1).len() == 0,
        middle.is_after(start, x1),
        middle.refusals(x2).len() == 0,
        end.is_after(middle, x2),
    ensures
        start.refusals(x).len() == 0,
        end.n_seen == start.n_seen + x.height(),
        end.mean@ == start.mean_after(x),
        end.m2@ == start.m2_after(x),
        end.m2_compensation@ == start.compensation_after(x),
        end.n_features == x.width,
{
    lemma_preflight_covers(x1, None, false, start.updates, start.n_seen);
    lemma_preflight_covers(x2, None, false, middle.updates, middle.n_seen);
    assert forall|j: int| 0 <= j < x.width implies (#[trigger] start.column_after(x, j)) is Ok && start.column_after(x, j)
        == middle.column_after(x2, j) by {
        lemma_no_error(start, x1, x.width as nat, j);
        lemma_no_error(middle, x2, x.width as nat, j);
        lemma_count(start.column(j), x1, j, x1.height());
        law_columns_join(start.column(j), x1, x2, x, j, x2.height());
        assert(middle.column(j) == start.column_after(x1, j)->Ok_0);
    }
    lemma_all_fine(start, x, x.width as nat);
    assert(start.mean_after(x) =~= middle.mean_after(x2));
    assert(start.m2_after(x) =~= middle.m2_after(x2));
    assert(start.compensation_after(x) =~= middle.compensation_after(x2));
    assert(!has_bad_cell(x)) by {
        if has_bad_cell(x) {
            let (i, j) = choose|i: int, j: int| 0 <= i < x.height() && 0 <= j < x.width && #[trigger] bad_cell(x, i, j);
            if i < x1.height() {
                assert(x.at(i, j) == x1.at(i, j));
                assert(bad_cell(x1, i, j));
            } else {
                assert(x2.at(i - x1.height(), j) == x.at(i, j));
                assert(bad_cell(x2, i - x1.height(), j));
            }
        }
    }
    assert forall|i: int| 0 <= i < x.height() implies !#[trigger] crate::online::common::bad_row(x, None, false, i) by {
        assert(!bad_cell(x, i, 0));
    }
    assert(preflight_issues(x, None, false, start.updates, start.n_seen) =~= Seq::empty());
    assert(start.refusals(x) =~= Seq::empty());
}

/// What a batch, accepted or refused, does to a selector.
pub open spec fn stepped(before: OnlineVarianceThreshold, x: Matrix, after: OnlineVarianceThreshold) -> bool {
    if before.refusals(&x).len() > 0 {
        after == before
    } else {
        after.is_after(&before, &x)
    }
}

/// The states of a new selector between some batches.
pub open spec fn recorded(states: Seq<OnlineVarianceThreshold>, batches: Seq<Matrix>) -> bool {
    &&& states.len() == batches.len() + 1
    &&& exists|threshold: Double| #[trigger] states[0].blank(threshold)
    &&& forall|i: int| 0 <= i < batches.len() ==> stepped(#[trigger] states[i], batches[i], states[i + 1])
}

/// Column `j` of the first `k` batches, those left out that are refused.
pub open spec fn column_stream(
    states: Seq<OnlineVarianceThreshold>,
    batches: Seq<Matrix>,
    j: int,
    k: nat,
) -> Seq<Double>
    decreases k,
{
    if k == 0 {
        Seq::empty()
    } else {
        let earlier = column_stream(states, batches, j, (k - 1) as nat);
        let x = batches[k - 1];
        if states[k - 1].refusals(&x).len() > 0 {
            earlier
        } else {
            earlier + Seq::new(x.height(), |i: int| x.at(i, j))
        }
    }
}

proof fn lemma_over_column(start: ColumnMoments, values: Seq<Double>, x: &Matrix, j: int, k: nat)
    requires
        k <= x.height(),
    ensures
        start.over(values + Seq::new(k, |i: int| x.at(i, j))) == (match start.over(values) {
            Ok(moments) => moments.after(x, j, k),
            Err(code) => Err(code),
        }),
    decreases k,
{
    let more = Seq::new(k, |i: int| x.at(i, j));
    if k == 0 {
        assert(values + more =~= values);
    } else {
        lemma_over_column(start, values, x, j, (k - 1) as nat);
        assert((values + more).drop_last() =~= values + Seq::new((k - 1) as nat, |i: int| x.at(i, j)));
        assert((values + more).last() == x.at(k - 1, j));
    }
}

/// The stored moments of every column are those of its whole accepted history, taken in
/// value by value; and once there are two rows, a column is kept exactly if the sample
/// variance of that history is above the threshold.
pub proof fn law_columns_over_history(states: Seq<OnlineVarianceThreshold>, batches: Seq<Matrix>, j: int, k: nat)
    requires
        recorded(states, batches),
        k <= batches.len(),
        states[k as int].n_features > 0 ==> 0 <= j < states[k as int].n_features,
    ensures
        ({
            let s = states[k as int];
            let values = column_stream(states, batches, j, k);
            let moments = ColumnMoments::fresh().over(values);
            &&& s.n_seen == values.len()
            &&& moments == Ok::<ColumnMoments, IssueCode>(s.column(j))
            &&& s.n_features > 0 && s.n_seen >= 2 ==> (s.kept().contains(j) <==> variance_value(
                s.n_seen,
                moments->Ok_0.m2,
                moments->Ok_0.m2_compensation,
            ).gt(s.threshold))
            &&& s.n_features == 0 ==> s.n_seen == 0
        }),
    decreases k,
{
    let s = states[k as int];
    if k > 0 {
        let before = states[k - 1];
        let x = batches[k - 1];
        assert(stepped(states[k - 1], batches[k - 1], states[k - 1 + 1]));
        law_columns_over_history(states, batches, j, (k - 1) as nat);
        if before.refusals(&x).len() == 0 {
            let values = column_stream(states, batches, j, (k - 1) as nat);
            lemma_preflight_covers(&x, None, false, before.updates, before.n_seen);
            lemma_over_column(ColumnMoments::fresh(), values, &x, j, x.height());
            lemma_no_error(&before, &x, x.width as nat, j);
            lemma_count(before.column(j), &x, j, x.height());
            assert(before.column(j).n == before.n_seen);
            assert(s.column(j) == before.column_after(&x, j)->Ok_0);
        }
    }
    if s.n_features > 0 {
        law_kept_columns(s.threshold, s.n_seen, s.m2@, s.m2_compensation@, s.n_features as nat);
    }
}

} // verus!
