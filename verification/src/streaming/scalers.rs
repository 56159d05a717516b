//! Column scalers and imputers.

use crate::constants::{decimal_6, half, neg_half, ten_to_minus_12, three_halves, two};
use crate::data::Matrix;
use crate::double::{infinity, nan, neg_infinity, one, zero, Double};
use crate::online::common::{inspect_online_xy, shape_issues};
use crate::quality::{issue, warning, IncrementalQuality, Issue, IssueCode, Qualified, Update};
use crate::streaming::columns::{
    column_after, is_shown, key_shift, key_shift_of, pass_through, passed_through, plain_report, rejection, reports,
    screened_report, show_matrix, CellMap, ColumnBank, ColumnState,
};
use vstd::prelude::*;

verus! {

/// The larger of `n` and one, as a number.
pub open spec fn at_least_one(n: u64) -> Double {
    Double::from_u64(if n < 1 {
        1
    } else {
        n
    })
}

/// The larger of `n` and one, as a number.
#[verifier::when_used_as_spec(at_least_one)]
pub fn at_least_one_of(n: u64) -> (r: Double)
    ensures
        r == at_least_one(n),
{
    Double::from_u64(if n < 1 {
        1
    } else {
        n
    })
}

/// Running count, mean and sum of squared deviations of the finite entries of a column.
#[derive(Clone, Copy, Debug, PartialEq, Eq, Structural)]
pub struct Welford {
    /// Finite entries seen.
    pub count: Double,
    /// Their mean.
    pub mean: Double,
    /// Sum of their squared deviations from the mean.
    pub m2: Double,
}

impl ColumnState for Welford {
    open spec fn seen(self, rate: Double, v: Double) -> Welford {
        if !v.is_finite() {
            self
        } else {
            let count = self.count.plus(one());
            let d = v.minus(self.mean);
            let mean = self.mean.plus(d.over(count));
            Welford { count, mean, m2: self.m2.plus(d.times(v.minus(mean))) }
        }
    }

    open spec fn key(self) -> Double {
        self.mean
    }

    fn see(&self, rate: Double, v: Double) -> (r: Welford) {
        if !v.is_finite() {
            *self
        } else {
            let count: Double = self.count.plus(one());
            let d: Double = v.minus(self.mean);
            let mean: Double = self.mean.plus(d.over(count));
            Welford { count, mean, m2: self.m2.plus(d.times(v.minus(mean))) }
        }
    }

    fn get_key(&self) -> (r: Double) {
        self.mean
    }
}

/// Column-wise standard scaler over a stream.
#[derive(Clone, Debug)]
pub struct OnlineStandardScaler {
    /// State of each column, with the counters.
    pub bank: ColumnBank<Welford>,
}

impl Default for OnlineStandardScaler {
    fn default() -> (r: OnlineStandardScaler)
        ensures
            r.blank(),
    {
        OnlineStandardScaler::new()
    }
}

impl OnlineStandardScaler {
    /// The state before any row.
    pub open spec fn blank(&self) -> bool {
        &&& self.bank.blank()
    }

    /// An estimator that has seen nothing.
    pub fn new() -> (r: OnlineStandardScaler)
        ensures
            r.blank(),
    {
        OnlineStandardScaler { bank: ColumnBank::new() }
    }

    /// The state of a column before its first entry.
    pub open spec fn fresh() -> Welford {
        Welford { count: zero(), mean: zero(), m2: zero() }
    }

    /// Issues that every batch raises first.
    pub open spec fn early_issues(&self, x: &Matrix) -> Seq<Issue> {
        Seq::<Issue>::empty()
    }

    /// The rate at which a batch is taken in.
    pub open spec fn rate(&self, x: &Matrix) -> Double {
        zero()
    }

    /// Quality figures of a batch, given how far the columns moved.
    pub open spec fn figures(&self, shift: Double, rate: Double, batch: usize) -> IncrementalQuality {
        IncrementalQuality {
            effective_sample_size: Double::from_u64(self.bank.n_seen),
            parameter_delta_norm: Some(shift),
            information_gain: Some(shift),
            still_identified: self.bank.n_seen >= 2,
            warmup: self.bank.n_seen < 2,
            ..IncrementalQuality::new((self.bank.updates - 1) as u64, batch, self.bank.n_seen)
        }
    }

    /// Takes in a batch, unless its column count does not fit.
    pub fn partial_fit(&mut self, x: &Matrix, _y: Option<&Vec<Double>>) -> (r: Update)
        requires
            x.wf(),
            old(self).bank.room(x),
        ensures
            match old(self).bank.refusal(x.width) {
                Some(code) => {
                    &&& final(self).bank.agrees(&old(self).bank)
                    &&& reports(
                        &r,
                        IncrementalQuality::new(old(self).bank.updates, x.height() as usize, old(self).bank.n_seen),
                        old(self).early_issues(x) + seq![issue(code)],
                        false,
                    )
                },
                None => {
                    &&& final(self).bank.is_after(&old(self).bank, x, old(self).rate(x), OnlineStandardScaler::fresh())
                    &&& reports(
                        &r,
                        final(self).figures(
                            key_shift(final(self).bank.columns@, old(self).bank.start(x.width, OnlineStandardScaler::fresh())),
                            old(self).rate(x),
                            x.height() as usize,
                        ),
                        old(self).early_issues(x),
                        true,
                    )
                },
            },
    {
        let mut issues: Vec<Issue> = Vec::new();
        assert(issues@ =~= self.early_issues(x));
        let fresh: Welford = Welford { count: zero(), mean: zero(), m2: zero() };
        match self.bank.enter(x, fresh) {
            Err(code) => {
                issues.push(issue(code));
                assert(issues@ =~= self.early_issues(x) + seq![issue(code)]);
                rejection(self.bank.updates, x.nrows(), self.bank.n_seen, issues)
            },
            Ok(before) => {
                let rate: Double = zero();
                self.bank.absorb(x, rate, &before, fresh);
                let shift: Double = key_shift_of(&self.bank.columns, &before);
                let quality = self.describe(shift, rate, x.nrows());
                screened_report(quality, issues)
            },
        }
    }

    fn describe(&self, shift: Double, rate: Double, batch: usize) -> (q: IncrementalQuality)
        requires
            self.bank.updates > 0,
        ensures
            q == self.figures(shift, rate, batch),
    {
        IncrementalQuality {
            effective_sample_size: Double::from_u64(self.bank.n_seen),
            parameter_delta_norm: Some(shift),
            information_gain: Some(shift),
            still_identified: self.bank.n_seen >= 2,
            warmup: self.bank.n_seen < 2,
            ..IncrementalQuality::new(self.bank.updates - 1, batch, self.bank.n_seen)
        }
    }

    /// Running means.
    pub fn mean(&self) -> (r: Vec<Double>)
        ensures
            r@ == Seq::new(self.bank.columns@.len(), |j: int| self.bank.columns@[j].mean),
    {
        let mut r: Vec<Double> = Vec::new();
        let mut j: usize = 0;
        while j < self.bank.columns.len()
            invariant
                j <= self.bank.columns@.len(),
                r@ == Seq::new(j as nat, |k: int| self.bank.columns@[k].mean),
            decreases self.bank.columns@.len() - j,
        {
            r.push(self.bank.columns[j].mean);
            j = j + 1;
            assert(r@ =~= Seq::new(j as nat, |k: int| self.bank.columns@[k].mean));
        }
        r
    }

    /// Transforms a matrix, cell by cell.
    pub fn transform(&self, x: &Matrix) -> (out: Qualified<Matrix>)
        requires
            x.wf(),
        ensures
            if !self.bank.initialized {
                passed_through(&out, x)
            } else {
                &&& is_shown::<OnlineStandardScaler, Welford>(&out.value, self.bank.columns@, zero(), x)
                &&& out.report@.len() == 0
            },
    {
        if !self.bank.initialized {
            return pass_through(x);
        }
        let value = show_matrix::<OnlineStandardScaler, Welford>(&self.bank.columns, zero(), x);
        Qualified { value, report: Vec::new() }
    }
}

impl CellMap<Welford> for OnlineStandardScaler {
    open spec fn shown(column: Welford, limit: Double, v: Double) -> Double {
        let std = if column.count.ge(two()) {
            column.m2.over(column.count.minus(one())).max(zero()).sqrt()
        } else {
            one()
        };
        let s = if std.gt(zero()) {
            std
        } else {
            one()
        };
        v.minus(column.mean).over(s)
    }

    open spec fn unknown(v: Double) -> Double {
        v
    }

    fn show(column: &Welford, limit: Double, v: Double) -> (r: Double) {
        let std: Double = if column.count.ge(two()) {
            column.m2.over(column.count.minus(one())).max(zero()).sqrt()
        } else {
            one()
        };
        let s: Double = if std.gt(zero()) {
            std
        } else {
            one()
        };
        v.minus(column.mean).over(s)
    }

    fn show_unknown(v: Double) -> (r: Double) {
        v
    }
}

/// Smallest and largest finite entry of a column.
#[derive(Clone, Copy, Debug, PartialEq, Eq, Structural)]
pub struct Extent {
    /// Smallest finite entry.
    pub min: Double,
    /// Largest finite entry.
    pub max: Double,
}

impl ColumnState for Extent {
    open spec fn seen(self, rate: Double, v: Double) -> Extent {
        if !v.is_finite() {
            self
        } else {
            Extent {
                min: if v.lt(self.min) {
                    v
                } else {
                    self.min
                },
                max: if v.gt(self.max) {
                    v
                } else {
                    self.max
                },
            }
        }
    }

    open spec fn key(self) -> Double {
        self.min
    }

    fn see(&self, rate: Double, v: Double) -> (r: Extent) {
        if !v.is_finite() {
            *self
        } else {
            Extent {
                min: if v.lt(self.min) {
                    v
                } else {
                    self.min
                },
                max: if v.gt(self.max) {
                    v
                } else {
                    self.max
                },
            }
        }
    }

    fn get_key(&self) -> (r: Double) {
        self.min
    }
}

/// Column-wise scaler to the range seen so far.
#[derive(Clone, Debug)]
pub struct OnlineMinMaxScaler {
    /// State of each column, with the counters.
    pub bank: ColumnBank<Extent>,
}

impl Default for OnlineMinMaxScaler {
    fn default() -> (r: OnlineMinMaxScaler)
        ensures
            r.blank(),
    {
        OnlineMinMaxScaler::new()
    }
}

impl OnlineMinMaxScaler {
    /// The state before any row.
    pub open spec fn blank(&self) -> bool {
        &&& self.bank.blank()
    }

    /// An estimator that has seen nothing.
    pub fn new() -> (r: OnlineMinMaxScaler)
        ensures
            r.blank(),
    {
        OnlineMinMaxScaler { bank: ColumnBank::new() }
    }

    /// The state of a column before its first entry.
    pub open spec fn fresh() -> Extent {
        Extent { min: infinity(), max: neg_infinity() }
    }

    /// Issues that every batch raises first.
    pub open spec fn early_issues(&self, x: &Matrix) -> Seq<Issue> {
        shape_issues(x, None)
    }

    /// The rate at which a batch is taken in.
    pub open spec fn rate(&self, x: &Matrix) -> Double {
        zero()
    }

    /// Quality figures of a batch, given how far the columns moved.
    pub open spec fn figures(&self, shift: Double, rate: Double, batch: usize) -> IncrementalQuality {
        IncrementalQuality {
            effective_sample_size: Double::from_u64(self.bank.n_seen),
            parameter_delta_norm: Some(shift),
            information_gain: Some(shift.max(one().over(at_least_one_of(self.bank.n_seen)))),
            still_identified: self.bank.n_seen >= 1,
            warmup: self.bank.n_seen < 2,
            ..IncrementalQuality::new((self.bank.updates - 1) as u64, batch, self.bank.n_seen)
        }
    }

    /// Takes in a batch, unless its column count does not fit.
    pub fn partial_fit(&mut self, x: &Matrix, _y: Option<&Vec<Double>>) -> (r: Update)
        requires
            x.wf(),
            old(self).bank.room(x),
        ensures
            match old(self).bank.refusal(x.width) {
                Some(code) => {
                    &&& final(self).bank.agrees(&old(self).bank)
                    &&& reports(
                        &r,
                        IncrementalQuality::new(old(self).bank.updates, x.height() as usize, old(self).bank.n_seen),
                        old(self).early_issues(x) + seq![issue(code)],
                        false,
                    )
                },
                None => {
                    &&& final(self).bank.is_after(&old(self).bank, x, old(self).rate(x), OnlineMinMaxScaler::fresh())
                    &&& reports(
                        &r,
                        final(self).figures(
                            key_shift(final(self).bank.columns@, old(self).bank.start(x.width, OnlineMinMaxScaler::fresh())),
                            old(self).rate(x),
                            x.height() as usize,
                        ),
                        old(self).early_issues(x),
                        true,
                    )
                },
            },
    {
        let mut issues: Vec<Issue> = Vec::new();
        inspect_online_xy(&mut issues, x, None);
        assert(issues@ =~= self.early_issues(x));
        let fresh: Extent = Extent { min: infinity(), max: neg_infinity() };
        match self.bank.enter(x, fresh) {
            Err(code) => {
                issues.push(issue(code));
                assert(issues@ =~= self.early_issues(x) + seq![issue(code)]);
                rejection(self.bank.updates, x.nrows(), self.bank.n_seen, issues)
            },
            Ok(before) => {
                let rate: Double = zero();
                self.bank.absorb(x, rate, &before, fresh);
                let shift: Double = key_shift_of(&self.bank.columns, &before);
                let quality = self.describe(shift, rate, x.nrows());
                screened_report(quality, issues)
            },
        }
    }

    fn describe(&self, shift: Double, rate: Double, batch: usize) -> (q: IncrementalQuality)
        requires
            self.bank.updates > 0,
        ensures
            q == self.figures(shift, rate, batch),
    {
        IncrementalQuality {
            effective_sample_size: Double::from_u64(self.bank.n_seen),
            parameter_delta_norm: Some(shift),
            information_gain: Some(shift.max(one().over(at_least_one_of(self.bank.n_seen)))),
            still_identified: self.bank.n_seen >= 1,
            warmup: self.bank.n_seen < 2,
            ..IncrementalQuality::new(self.bank.updates - 1, batch, self.bank.n_seen)
        }
    }

    /// Transforms a matrix, cell by cell.
    pub fn transform(&self, x: &Matrix, limit: Double) -> (out: Qualified<Matrix>)
        requires
            x.wf(),
        ensures
            if !self.bank.initialized {
                passed_through(&out, x)
            } else {
                &&& is_shown::<OnlineMinMaxScaler, Extent>(&out.value, self.bank.columns@, limit, x)
                &&& out.report@.len() == 0
            },
    {
        if !self.bank.initialized {
            return pass_through(x);
        }
        let value = show_matrix::<OnlineMinMaxScaler, Extent>(&self.bank.columns, limit, x);
        Qualified { value, report: Vec::new() }
    }
}

impl CellMap<Extent> for OnlineMinMaxScaler {
    open spec fn shown(column: Extent, limit: Double, v: Double) -> Double {
        let span = column.max.minus(column.min);
        if !span.is_finite() || span.abs().le(limit) {
            zero()
        } else {
            v.minus(column.min).over(span)
        }
    }

    open spec fn unknown(v: Double) -> Double {
        v
    }

    fn show(column: &Extent, limit: Double, v: Double) -> (r: Double) {
        let span: Double = column.max.minus(column.min);
        if !span.is_finite() || span.abs().le(limit) {
            zero()
        } else {
            v.minus(column.min).over(span)
        }
    }

    fn show_unknown(v: Double) -> (r: Double) {
        v
    }
}

/// Largest magnitude among the finite entries of a column.
#[derive(Clone, Copy, Debug, PartialEq, Eq, Structural)]
pub struct Peak {
    /// Largest magnitude.
    pub max_abs: Double,
}

impl ColumnState for Peak {
    open spec fn seen(self, rate: Double, v: Double) -> Peak {
        let m = v.abs();
        if m.is_finite() && m.gt(self.max_abs) {
            Peak { max_abs: m }
        } else {
            self
        }
    }

    open spec fn key(self) -> Double {
        self.max_abs
    }

    fn see(&self, rate: Double, v: Double) -> (r: Peak) {
        let m: Double = v.abs();
        if m.is_finite() && m.gt(self.max_abs) {
            Peak { max_abs: m }
        } else {
            *self
        }
    }

    fn get_key(&self) -> (r: Double) {
        self.max_abs
    }
}

/// Column-wise scaler by the largest magnitude seen so far.
#[derive(Clone, Debug)]
pub struct OnlineMaxAbsScaler {
    /// State of each column, with the counters.
    pub bank: ColumnBank<Peak>,
}

impl Default for OnlineMaxAbsScaler {
    fn default() -> (r: OnlineMaxAbsScaler)
        ensures
            r.blank(),
    {
        OnlineMaxAbsScaler::new()
    }
}

impl OnlineMaxAbsScaler {
    /// The state before any row.
    pub open spec fn blank(&self) -> bool {
        &&& self.bank.blank()
    }

    /// An estimator that has seen nothing.
    pub fn new() -> (r: OnlineMaxAbsScaler)
        ensures
            r.blank(),
    {
        OnlineMaxAbsScaler { bank: ColumnBank::new() }
    }

    /// The state of a column before its first entry.
    pub open spec fn fresh() -> Peak {
        Peak { max_abs: zero() }
    }

    /// Issues that every batch raises first.
    pub open spec fn early_issues(&self, x: &Matrix) -> Seq<Issue> {
        shape_issues(x, None)
    }

    /// The rate at which a batch is taken in.
    pub open spec fn rate(&self, x: &Matrix) -> Double {
        zero()
    }

    /// Quality figures of a batch, given how far the columns moved.
    pub open spec fn figures(&self, shift: Double, rate: Double, batch: usize) -> IncrementalQuality {
        IncrementalQuality {
            effective_sample_size: Double::from_u64(self.bank.n_seen),
            parameter_delta_norm: Some(shift),
            information_gain: Some(shift.max(one().over(at_least_one_of(self.bank.n_seen)))),
            still_identified: self.bank.n_seen >= 1,
            warmup: self.bank.n_seen < 2,
            ..IncrementalQuality::new((self.bank.updates - 1) as u64, batch, self.bank.n_seen)
        }
    }

    /// Takes in a batch, unless its column count does not fit.
    pub fn partial_fit(&mut self, x: &Matrix, _y: Option<&Vec<Double>>) -> (r: Update)
        requires
            x.wf(),
            old(self).bank.room(x),
        ensures
            match old(self).bank.refusal(x.width) {
                Some(code) => {
                    &&& final(self).bank.agrees(&old(self).bank)
                    &&& reports(
                        &r,
                        IncrementalQuality::new(old(self).bank.updates, x.height() as usize, old(self).bank.n_seen),
                        old(self).early_issues(x) + seq![issue(code)],
                        false,
                    )
                },
                None => {
                    &&& final(self).bank.is_after(&old(self).bank, x, old(self).rate(x), OnlineMaxAbsScaler::fresh())
                    &&& reports(
                        &r,
                        final(self).figures(
                            key_shift(final(self).bank.columns@, old(self).bank.start(x.width, OnlineMaxAbsScaler::fresh())),
                            old(self).rate(x),
                            x.height() as usize,
                        ),
                        old(self).early_issues(x),
                        true,
                    )
                },
            },
    {
        let mut issues: Vec<Issue> = Vec::new();
        inspect_online_xy(&mut issues, x, None);
        assert(issues@ =~= self.early_issues(x));
        let fresh: Peak = Peak { max_abs: zero() };
        match self.bank.enter(x, fresh) {
            Err(code) => {
                issues.push(issue(code));
                assert(issues@ =~= self.early_issues(x) + seq![issue(code)]);
                rejection(self.bank.updates, x.nrows(), self.bank.n_seen, issues)
            },
            Ok(before) => {
                let rate: Double = zero();
                self.bank.absorb(x, rate, &before, fresh);
                let shift: Double = key_shift_of(&self.bank.columns, &before);
                let quality = self.describe(shift, rate, x.nrows());
                screened_report(quality, issues)
            },
        }
    }

    fn describe(&self, shift: Double, rate: Double, batch: usize) -> (q: IncrementalQuality)
        requires
            self.bank.updates > 0,
        ensures
            q == self.figures(shift, rate, batch),
    {
        IncrementalQuality {
            effective_sample_size: Double::from_u64(self.bank.n_seen),
            parameter_delta_norm: Some(shift),
            information_gain: Some(shift.max(one().over(at_least_one_of(self.bank.n_seen)))),
            still_identified: self.bank.n_seen >= 1,
            warmup: self.bank.n_seen < 2,
            ..IncrementalQuality::new(self.bank.updates - 1, batch, self.bank.n_seen)
        }
    }

    /// Transforms a matrix, cell by cell.
    pub fn transform(&self, x: &Matrix, limit: Double) -> (out: Qualified<Matrix>)
        requires
            x.wf(),
        ensures
            if !self.bank.initialized {
                passed_through(&out, x)
            } else {
                &&& is_shown::<OnlineMaxAbsScaler, Peak>(&out.value, self.bank.columns@, limit, x)
                &&& out.report@.len() == 0
            },
    {
        if !self.bank.initialized {
            return pass_through(x);
        }
        let value = show_matrix::<OnlineMaxAbsScaler, Peak>(&self.bank.columns, limit, x);
        Qualified { value, report: Vec::new() }
    }
}

impl CellMap<Peak> for OnlineMaxAbsScaler {
    open spec fn shown(column: Peak, limit: Double, v: Double) -> Double {
        if !column.max_abs.is_finite() || column.max_abs.le(limit) {
            zero()
        } else {
            v.over(column.max_abs)
        }
    }

    open spec fn unknown(v: Double) -> Double {
        v
    }

    fn show(column: &Peak, limit: Double, v: Double) -> (r: Double) {
        if !column.max_abs.is_finite() || column.max_abs.le(limit) {
            zero()
        } else {
            v.over(column.max_abs)
        }
    }

    fn show_unknown(v: Double) -> (r: Double) {
        v
    }
}

/// Stochastic estimates of two quartiles of a column.
#[derive(Clone, Copy, Debug, PartialEq, Eq, Structural)]
pub struct Quartiles {
    /// Lower quartile.
    pub q25: Double,
    /// Upper quartile.
    pub q75: Double,
}

impl ColumnState for Quartiles {
    open spec fn seen(self, rate: Double, v: Double) -> Quartiles {
        if !v.is_finite() {
            self
        } else {
            let low = if v.lt(self.q25) {
                neg_half()
            } else {
                half()
            };
            let high = if v.lt(self.q75) {
                neg_half()
            } else {
                half()
            };
            Quartiles {
                q25: self.q25.plus(rate.times(low.plus(half()).minus(one()))),
                q75: self.q75.plus(rate.times(high.plus(three_halves()).minus(one()))),
            }
        }
    }

    open spec fn key(self) -> Double {
        self.q25
    }

    fn see(&self, rate: Double, v: Double) -> (r: Quartiles) {
        if !v.is_finite() {
            *self
        } else {
            let low: Double = if v.lt(self.q25) {
                neg_half()
            } else {
                half()
            };
            let high: Double = if v.lt(self.q75) {
                neg_half()
            } else {
                half()
            };
            Quartiles {
                q25: self.q25.plus(rate.times(low.plus(half()).minus(one()))),
                q75: self.q75.plus(rate.times(high.plus(three_halves()).minus(one()))),
            }
        }
    }

    fn get_key(&self) -> (r: Double) {
        self.q25
    }
}

/// Column-wise scaler by stochastic quartiles.
#[derive(Clone, Debug)]
pub struct OnlineRobustScaler {
    /// State of each column, with the counters.
    pub bank: ColumnBank<Quartiles>,
}

impl Default for OnlineRobustScaler {
    fn default() -> (r: OnlineRobustScaler)
        ensures
            r.blank(),
    {
        OnlineRobustScaler::new()
    }
}

impl OnlineRobustScaler {
    /// The state before any row.
    pub open spec fn blank(&self) -> bool {
        &&& self.bank.blank()
    }

    /// An estimator that has seen nothing.
    pub fn new() -> (r: OnlineRobustScaler)
        ensures
            r.blank(),
    {
        OnlineRobustScaler { bank: ColumnBank::new() }
    }

    /// The state of a column before its first entry.
    pub open spec fn fresh() -> Quartiles {
        Quartiles { q25: zero(), q75: zero() }
    }

    /// Issues that every batch raises first.
    pub open spec fn early_issues(&self, x: &Matrix) -> Seq<Issue> {
        shape_issues(x, None)
    }

    /// The rate at which a batch is taken in.
    pub open spec fn rate(&self, x: &Matrix) -> Double {
        one().over(Double::from_u64(self.bank.n_seen).plus(Double::from_usize(x.height() as usize)).max(one()))
    }

    /// Quality figures of a batch, given how far the columns moved.
    pub open spec fn figures(&self, shift: Double, rate: Double, batch: usize) -> IncrementalQuality {
        IncrementalQuality {
            effective_sample_size: Double::from_u64(self.bank.n_seen),
            parameter_delta_norm: Some(shift),
            information_gain: Some(shift.max(one().over(at_least_one_of(self.bank.n_seen)))),
            still_identified: self.bank.n_seen >= 2,
            warmup: self.bank.n_seen < 8,
            ..IncrementalQuality::new((self.bank.updates - 1) as u64, batch, self.bank.n_seen)
        }
    }

    /// Takes in a batch, unless its column count does not fit.
    pub fn partial_fit(&mut self, x: &Matrix, _y: Option<&Vec<Double>>) -> (r: Update)
        requires
            x.wf(),
            old(self).bank.room(x),
        ensures
            match old(self).bank.refusal(x.width) {
                Some(code) => {
                    &&& final(self).bank.agrees(&old(self).bank)
                    &&& reports(
                        &r,
                        IncrementalQuality::new(old(self).bank.updates, x.height() as usize, old(self).bank.n_seen),
                        old(self).early_issues(x) + seq![issue(code)],
                        false,
                    )
                },
                None => {
                    &&& final(self).bank.is_after(&old(self).bank, x, old(self).rate(x), OnlineRobustScaler::fresh())
                    &&& reports(
                        &r,
                        final(self).figures(
                            key_shift(final(self).bank.columns@, old(self).bank.start(x.width, OnlineRobustScaler::fresh())),
                            old(self).rate(x),
                            x.height() as usize,
                        ),
                        old(self).early_issues(x),
                        false,
                    )
                },
            },
    {
        let mut issues: Vec<Issue> = Vec::new();
        inspect_online_xy(&mut issues, x, None);
        assert(issues@ =~= self.early_issues(x));
        let fresh: Quartiles = Quartiles { q25: zero(), q75: zero() };
        match self.bank.enter(x, fresh) {
            Err(code) => {
                issues.push(issue(code));
                assert(issues@ =~= self.early_issues(x) + seq![issue(code)]);
                rejection(self.bank.updates, x.nrows(), self.bank.n_seen, issues)
            },
            Ok(before) => {
                let rate: Double = one().over(Double::from_u64(self.bank.n_seen).plus(Double::from_usize(x.nrows())).max(one()));
                self.bank.absorb(x, rate, &before, fresh);
                let shift: Double = key_shift_of(&self.bank.columns, &before);
                let quality = self.describe(shift, rate, x.nrows());
                plain_report(quality, issues)
            },
        }
    }

    fn describe(&self, shift: Double, rate: Double, batch: usize) -> (q: IncrementalQuality)
        requires
            self.bank.updates > 0,
        ensures
            q == self.figures(shift, rate, batch),
    {
        IncrementalQuality {
            effective_sample_size: Double::from_u64(self.bank.n_seen),
            parameter_delta_norm: Some(shift),
            information_gain: Some(shift.max(one().over(at_least_one_of(self.bank.n_seen)))),
            still_identified: self.bank.n_seen >= 2,
            warmup: self.bank.n_seen < 8,
            ..IncrementalQuality::new(self.bank.updates - 1, batch, self.bank.n_seen)
        }
    }

    /// Transforms a matrix, cell by cell.
    pub fn transform(&self, x: &Matrix, limit: Double) -> (out: Qualified<Matrix>)
        requires
            x.wf(),
        ensures
            if !self.bank.initialized {
                passed_through(&out, x)
            } else {
                &&& is_shown::<OnlineRobustScaler, Quartiles>(&out.value, self.bank.columns@, limit, x)
                &&& out.report@.len() == 0
            },
    {
        if !self.bank.initialized {
            return pass_through(x);
        }
        let value = show_matrix::<OnlineRobustScaler, Quartiles>(&self.bank.columns, limit, x);
        Qualified { value, report: Vec::new() }
    }
}

impl CellMap<Quartiles> for OnlineRobustScaler {
    open spec fn shown(column: Quartiles, limit: Double, v: Double) -> Double {
        let iqr = column.q75.minus(column.q25);
        if !iqr.is_finite() || iqr.abs().le(limit) {
            zero()
        } else {
            v.minus(column.q25).over(iqr)
        }
    }

    open spec fn unknown(v: Double) -> Double {
        v
    }

    fn show(column: &Quartiles, limit: Double, v: Double) -> (r: Double) {
        let iqr: Double = column.q75.minus(column.q25);
        if !iqr.is_finite() || iqr.abs().le(limit) {
            zero()
        } else {
            v.minus(column.q25).over(iqr)
        }
    }

    fn show_unknown(v: Double) -> (r: Double) {
        v
    }
}

/// Exponentially weighted mean and variance of a column.
#[derive(Clone, Copy, Debug, PartialEq, Eq, Structural)]
pub struct Faded {
    /// Weighted mean.
    pub mean: Double,
    /// Weighted variance.
    pub var: Double,
}

impl ColumnState for Faded {
    open spec fn seen(self, rate: Double, v: Double) -> Faded {
        if !v.is_finite() {
            self
        } else {
            let d = v.minus(self.mean);
            Faded {
                mean: self.mean.plus(rate.times(d)),
                var: one().minus(rate).times(self.var).plus(rate.times(d).times(d)),
            }
        }
    }

    open spec fn key(self) -> Double {
        self.mean
    }

    fn see(&self, rate: Double, v: Double) -> (r: Faded) {
        if !v.is_finite() {
            *self
        } else {
            let d: Double = v.minus(self.mean);
            Faded {
                mean: self.mean.plus(rate.times(d)),
                var: one().minus(rate).times(self.var).plus(rate.times(d).times(d)),
            }
        }
    }

    fn get_key(&self) -> (r: Double) {
        self.mean
    }
}

/// Exponentially weighted standard scaler.
#[derive(Clone, Debug)]
pub struct AdaptiveStandardScaler {
    /// Forgetting factor in `(0, 1]`.
    pub fading: Double,
    /// State of each column, with the counters.
    pub bank: ColumnBank<Faded>,
}

impl Default for AdaptiveStandardScaler {
    fn default() -> (r: AdaptiveStandardScaler)
        ensures
            r.blank(decimal_6()),
    {
        AdaptiveStandardScaler::new(decimal_6())
    }
}

impl AdaptiveStandardScaler {
    /// The state before any row.
    pub open spec fn blank(&self, fading: Double) -> bool {
        &&& self.fading == fading
        &&& self.bank.blank()
    }

    /// An estimator that has seen nothing.
    pub fn new(fading: Double) -> (r: AdaptiveStandardScaler)
        ensures
            r.blank(fading),
    {
        AdaptiveStandardScaler { fading, bank: ColumnBank::new() }
    }

    /// The state of a column before its first entry.
    pub open spec fn fresh() -> Faded {
        Faded { mean: zero(), var: one() }
    }

    /// Issues that every batch raises first.
    pub open spec fn early_issues(&self, x: &Matrix) -> Seq<Issue> {
        shape_issues(x, None) + (if !(self.fading.is_finite() && self.fading.gt(zero()) && self.fading.le(one())) { seq![warning(IssueCode::InvalidWeight)] } else { Seq::empty() })
    }

    /// The rate at which a batch is taken in.
    pub open spec fn rate(&self, x: &Matrix) -> Double {
        if self.fading.is_finite() && self.fading.gt(zero()) && self.fading.le(one()) {
            self.fading
        } else {
            decimal_6()
        }
    }

    /// Quality figures of a batch, given how far the columns moved.
    pub open spec fn figures(&self, shift: Double, rate: Double, batch: usize) -> IncrementalQuality {
        IncrementalQuality {
            effective_sample_size: one().over(rate).min(Double::from_u64(self.bank.n_seen)),
            parameter_delta_norm: Some(shift),
            information_gain: Some(shift.max(rate)),
            still_identified: self.bank.n_seen >= 2,
            warmup: self.bank.n_seen < 4,
            ..IncrementalQuality::new((self.bank.updates - 1) as u64, batch, self.bank.n_seen)
        }
    }

    /// Takes in a batch, unless its column count does not fit.
    pub fn partial_fit(&mut self, x: &Matrix, _y: Option<&Vec<Double>>) -> (r: Update)
        requires
            x.wf(),
            old(self).bank.room(x),
        ensures
            final(self).fading == old(self).fading,
            match old(self).bank.refusal(x.width) {
                Some(code) => {
                    &&& final(self).bank.agrees(&old(self).bank)
                    &&& reports(
                        &r,
                        IncrementalQuality::new(old(self).bank.updates, x.height() as usize, old(self).bank.n_seen),
                        old(self).early_issues(x) + seq![issue(code)],
                        false,
                    )
                },
                None => {
                    &&& final(self).bank.is_after(&old(self).bank, x, old(self).rate(x), AdaptiveStandardScaler::fresh())
                    &&& reports(
                        &r,
                        final(self).figures(
                            key_shift(final(self).bank.columns@, old(self).bank.start(x.width, AdaptiveStandardScaler::fresh())),
                            old(self).rate(x),
                            x.height() as usize,
                        ),
                        old(self).early_issues(x),
                        true,
                    )
                },
            },
    {
        let mut issues: Vec<Issue> = Vec::new();
        inspect_online_xy(&mut issues, x, None);
        if !(self.fading.is_finite() && self.fading.gt(zero()) && self.fading.le(one())) {
            issues.push(warning(IssueCode::InvalidWeight));
        }
        assert(issues@ =~= self.early_issues(x));
        let fresh: Faded = Faded { mean: zero(), var: one() };
        match self.bank.enter(x, fresh) {
            Err(code) => {
                issues.push(issue(code));
                assert(issues@ =~= self.early_issues(x) + seq![issue(code)]);
                rejection(self.bank.updates, x.nrows(), self.bank.n_seen, issues)
            },
            Ok(before) => {
                let rate: Double = if self.fading.is_finite() && self.fading.gt(zero()) && self.fading.le(one()) {
            self.fading
        } else {
            decimal_6()
        };
                self.bank.absorb(x, rate, &before, fresh);
                let shift: Double = key_shift_of(&self.bank.columns, &before);
                let quality = self.describe(shift, rate, x.nrows());
                screened_report(quality, issues)
            },
        }
    }

    fn describe(&self, shift: Double, rate: Double, batch: usize) -> (q: IncrementalQuality)
        requires
            self.bank.updates > 0,
        ensures
            q == self.figures(shift, rate, batch),
    {
        IncrementalQuality {
            effective_sample_size: one().over(rate).min(Double::from_u64(self.bank.n_seen)),
            parameter_delta_norm: Some(shift),
            information_gain: Some(shift.max(rate)),
            still_identified: self.bank.n_seen >= 2,
            warmup: self.bank.n_seen < 4,
            ..IncrementalQuality::new(self.bank.updates - 1, batch, self.bank.n_seen)
        }
    }

    /// Transforms a matrix, cell by cell.
    pub fn transform(&self, x: &Matrix) -> (out: Qualified<Matrix>)
        requires
            x.wf(),
        ensures
            if !self.bank.initialized {
                passed_through(&out, x)
            } else {
                &&& is_shown::<AdaptiveStandardScaler, Faded>(&out.value, self.bank.columns@, zero(), x)
                &&& out.report@.len() == 0
            },
    {
        if !self.bank.initialized {
            return pass_through(x);
        }
        let value = show_matrix::<AdaptiveStandardScaler, Faded>(&self.bank.columns, zero(), x);
        Qualified { value, report: Vec::new() }
    }
}

impl CellMap<Faded> for AdaptiveStandardScaler {
    open spec fn shown(column: Faded, limit: Double, v: Double) -> Double {
        let s = column.var.sqrt().max(ten_to_minus_12());
        v.minus(column.mean).over(s)
    }

    open spec fn unknown(v: Double) -> Double {
        v
    }

    fn show(column: &Faded, limit: Double, v: Double) -> (r: Double) {
        let s: Double = column.var.sqrt().max(ten_to_minus_12());
        v.minus(column.mean).over(s)
    }

    fn show_unknown(v: Double) -> (r: Double) {
        v
    }
}

/// Distance from the running column mean in standard deviations.
#[derive(Clone, Debug)]
pub struct GaussianScorer {
    /// State of each column, with the counters.
    pub bank: ColumnBank<Welford>,
}

impl Default for GaussianScorer {
    fn default() -> (r: GaussianScorer)
        ensures
            r.blank(),
    {
        GaussianScorer::new()
    }
}

impl GaussianScorer {
    /// The state before any row.
    pub open spec fn blank(&self) -> bool {
        &&& self.bank.blank()
    }

    /// An estimator that has seen nothing.
    pub fn new() -> (r: GaussianScorer)
        ensures
            r.blank(),
    {
        GaussianScorer { bank: ColumnBank::new() }
    }

    /// The state of a column before its first entry.
    pub open spec fn fresh() -> Welford {
        Welford { count: zero(), mean: zero(), m2: zero() }
    }

    /// Issues that every batch raises first.
    pub open spec fn early_issues(&self, x: &Matrix) -> Seq<Issue> {
        shape_issues(x, None)
    }

    /// The rate at which a batch is taken in.
    pub open spec fn rate(&self, x: &Matrix) -> Double {
        zero()
    }

    /// Quality figures of a batch, given how far the columns moved.
    pub open spec fn figures(&self, shift: Double, rate: Double, batch: usize) -> IncrementalQuality {
        IncrementalQuality {
            effective_sample_size: Double::from_u64(self.bank.n_seen),
            parameter_delta_norm: Some(shift),
            information_gain: Some(shift.max(one().over(at_least_one_of(self.bank.n_seen)))),
            still_identified: self.identified(),
            warmup: self.bank.n_seen < 4,
            ..IncrementalQuality::new((self.bank.updates - 1) as u64, batch, self.bank.n_seen)
        }
    }

    /// Takes in a batch, unless its column count does not fit.
    pub fn partial_fit(&mut self, x: &Matrix, _y: Option<&Vec<Double>>) -> (r: Update)
        requires
            x.wf(),
            old(self).bank.room(x),
        ensures
            match old(self).bank.refusal(x.width) {
                Some(code) => {
                    &&& final(self).bank.agrees(&old(self).bank)
                    &&& reports(
                        &r,
                        IncrementalQuality::new(old(self).bank.updates, x.height() as usize, old(self).bank.n_seen),
                        old(self).early_issues(x) + seq![issue(code)],
                        false,
                    )
                },
                None => {
                    &&& final(self).bank.is_after(&old(self).bank, x, old(self).rate(x), GaussianScorer::fresh())
                    &&& reports(
                        &r,
                        final(self).figures(
                            key_shift(final(self).bank.columns@, old(self).bank.start(x.width, GaussianScorer::fresh())),
                            old(self).rate(x),
                            x.height() as usize,
                        ),
                        old(self).early_issues(x),
                        true,
                    )
                },
            },
    {
        let mut issues: Vec<Issue> = Vec::new();
        inspect_online_xy(&mut issues, x, None);
        assert(issues@ =~= self.early_issues(x));
        let fresh: Welford = Welford { count: zero(), mean: zero(), m2: zero() };
        match self.bank.enter(x, fresh) {
            Err(code) => {
                issues.push(issue(code));
                assert(issues@ =~= self.early_issues(x) + seq![issue(code)]);
                rejection(self.bank.updates, x.nrows(), self.bank.n_seen, issues)
            },
            Ok(before) => {
                let rate: Double = zero();
                self.bank.absorb(x, rate, &before, fresh);
                let shift: Double = key_shift_of(&self.bank.columns, &before);
                let quality = self.describe(shift, rate, x.nrows());
                screened_report(quality, issues)
            },
        }
    }

    fn describe(&self, shift: Double, rate: Double, batch: usize) -> (q: IncrementalQuality)
        requires
            self.bank.updates > 0,
        ensures
            q == self.figures(shift, rate, batch),
    {
        IncrementalQuality {
            effective_sample_size: Double::from_u64(self.bank.n_seen),
            parameter_delta_norm: Some(shift),
            information_gain: Some(shift.max(one().over(at_least_one_of(self.bank.n_seen)))),
            still_identified: self.identified_holds(),
            warmup: self.bank.n_seen < 4,
            ..IncrementalQuality::new(self.bank.updates - 1, batch, self.bank.n_seen)
        }
    }

    /// Every column has two finite entries.
    pub open spec fn identified(&self) -> bool {
        forall|j: int| 0 <= j < self.bank.columns@.len() ==> (#[trigger] self.bank.columns@[j]).count.ge(two())
    }

    fn identified_holds(&self) -> (r: bool)
        ensures
            r == self.identified(),
    {
        let mut j: usize = 0;
        while j < self.bank.columns.len()
            invariant
                j <= self.bank.columns@.len(),
                forall|k: int| 0 <= k < j ==> (#[trigger] self.bank.columns@[k]).count.ge(two()),
            decreases self.bank.columns@.len() - j,
        {
            if !self.bank.columns[j].count.ge(two()) {
                return false;
            }
            j = j + 1;
        }
        true
    }

    /// Transforms a matrix, cell by cell.
    pub fn transform(&self, x: &Matrix) -> (out: Qualified<Matrix>)
        requires
            x.wf(),
        ensures
            if !self.bank.initialized {
                {
                    &&& out.value.wf()
                    &&& out.value.height() == x.height()
                    &&& out.value.width == x.width
                    &&& forall|i: int, j: int|
                        0 <= i < x.height() && 0 <= j < x.width ==> #[trigger] out.value.at(i, j) == zero()
                    &&& out.report@ == seq![issue(IssueCode::PartialFitBeforeInit)]
                }
            } else {
                &&& is_shown::<GaussianScorer, Welford>(&out.value, self.bank.columns@, zero(), x)
                &&& out.report@.len() == 0
            },
    {
        if !self.bank.initialized {
            return {
                let mut report: Vec<Issue> = Vec::new();
                report.push(issue(IssueCode::PartialFitBeforeInit));
                assert(report@ =~= seq![issue(IssueCode::PartialFitBeforeInit)]);
                Qualified { value: Matrix::zeros(x.nrows(), x.ncols()), report }
            };
        }
        let value = show_matrix::<GaussianScorer, Welford>(&self.bank.columns, zero(), x);
        Qualified { value, report: Vec::new() }
    }
}

impl CellMap<Welford> for GaussianScorer {
    open spec fn shown(column: Welford, limit: Double, v: Double) -> Double {
        if column.count.lt(two()) {
            zero()
        } else {
            let var = column.m2.over(column.count).max(ten_to_minus_12());
            v.minus(column.mean).over(var.sqrt()).abs()
        }
    }

    open spec fn unknown(v: Double) -> Double {
        zero()
    }

    fn show(column: &Welford, limit: Double, v: Double) -> (r: Double) {
        if column.count.lt(two()) {
            zero()
        } else {
            let var: Double = column.m2.over(column.count).max(ten_to_minus_12());
            v.minus(column.mean).over(var.sqrt()).abs()
        }
    }

    fn show_unknown(v: Double) -> (r: Double) {
        zero()
    }
}

/// One warning for each of the first `k` columns without a replacement value.
pub open spec fn undefined_columns<T>(columns: Seq<T>, missing: spec_fn(T) -> bool, k: nat) -> Seq<Issue>
    decreases k,
{
    if k == 0 {
        Seq::empty()
    } else {
        let earlier = undefined_columns(columns, missing, (k - 1) as nat);
        if missing(columns[k - 1]) {
            earlier.push(warning(IssueCode::ImputationUndefined))
        } else {
            earlier
        }
    }
}

/// Largest count among the first `k` columns, or 0.
pub open spec fn largest_count(columns: Seq<Welford>, k: nat) -> Double
    decreases k,
{
    if k == 0 {
        zero()
    } else {
        largest_count(columns, (k - 1) as nat).max(columns[k - 1].count)
    }
}

/// Replaces entries that are not finite by the running column mean.
#[derive(Clone, Debug)]
pub struct StatImputer {
    /// State of each column, with the counters.
    pub bank: ColumnBank<Welford>,
}

impl Default for StatImputer {
    fn default() -> (r: StatImputer)
        ensures
            r.blank(),
    {
        StatImputer::new()
    }
}

impl StatImputer {
    /// The state before any row.
    pub open spec fn blank(&self) -> bool {
        &&& self.bank.blank()
    }

    /// An estimator that has seen nothing.
    pub fn new() -> (r: StatImputer)
        ensures
            r.blank(),
    {
        StatImputer { bank: ColumnBank::new() }
    }

    /// The state of a column before its first entry.
    pub open spec fn fresh() -> Welford {
        Welford { count: zero(), mean: zero(), m2: zero() }
    }

    /// Issues that every batch raises first.
    pub open spec fn early_issues(&self, x: &Matrix) -> Seq<Issue> {
        shape_issues(x, None)
    }

    /// The rate at which a batch is taken in.
    pub open spec fn rate(&self, x: &Matrix) -> Double {
        zero()
    }

    /// Quality figures of a batch, given how far the columns moved.
    pub open spec fn figures(&self, shift: Double, rate: Double, batch: usize) -> IncrementalQuality {
        IncrementalQuality {
            effective_sample_size: self.most_seen(),
            parameter_delta_norm: Some(shift),
            information_gain: Some(shift.max(one().over(at_least_one_of(self.bank.n_seen)))),
            still_identified: self.identified(),
            warmup: self.bank.n_seen < 2,
            ..IncrementalQuality::new((self.bank.updates - 1) as u64, batch, self.bank.n_seen)
        }
    }

    /// Takes in a batch, unless its column count does not fit.
    pub fn partial_fit(&mut self, x: &Matrix, _y: Option<&Vec<Double>>) -> (r: Update)
        requires
            x.wf(),
            old(self).bank.room(x),
        ensures
            match old(self).bank.refusal(x.width) {
                Some(code) => {
                    &&& final(self).bank.agrees(&old(self).bank)
                    &&& reports(
                        &r,
                        IncrementalQuality::new(old(self).bank.updates, x.height() as usize, old(self).bank.n_seen),
                        old(self).early_issues(x) + seq![issue(code)],
                        false,
                    )
                },
                None => {
                    &&& final(self).bank.is_after(&old(self).bank, x, old(self).rate(x), StatImputer::fresh())
                    &&& reports(
                        &r,
                        final(self).figures(
                            key_shift(final(self).bank.columns@, old(self).bank.start(x.width, StatImputer::fresh())),
                            old(self).rate(x),
                            x.height() as usize,
                        ),
                        old(self).early_issues(x),
                        true,
                    )
                },
            },
    {
        let mut issues: Vec<Issue> = Vec::new();
        inspect_online_xy(&mut issues, x, None);
        assert(issues@ =~= self.early_issues(x));
        let fresh: Welford = Welford { count: zero(), mean: zero(), m2: zero() };
        match self.bank.enter(x, fresh) {
            Err(code) => {
                issues.push(issue(code));
                assert(issues@ =~= self.early_issues(x) + seq![issue(code)]);
                rejection(self.bank.updates, x.nrows(), self.bank.n_seen, issues)
            },
            Ok(before) => {
                let rate: Double = zero();
                self.bank.absorb(x, rate, &before, fresh);
                let shift: Double = key_shift_of(&self.bank.columns, &before);
                let quality = self.describe(shift, rate, x.nrows());
                screened_report(quality, issues)
            },
        }
    }

    fn describe(&self, shift: Double, rate: Double, batch: usize) -> (q: IncrementalQuality)
        requires
            self.bank.updates > 0,
        ensures
            q == self.figures(shift, rate, batch),
    {
        IncrementalQuality {
            effective_sample_size: self.most_seen_of(),
            parameter_delta_norm: Some(shift),
            information_gain: Some(shift.max(one().over(at_least_one_of(self.bank.n_seen)))),
            still_identified: self.identified_holds(),
            warmup: self.bank.n_seen < 2,
            ..IncrementalQuality::new(self.bank.updates - 1, batch, self.bank.n_seen)
        }
    }

    /// Every column has a finite entry.
    pub open spec fn identified(&self) -> bool {
        forall|j: int| 0 <= j < self.bank.columns@.len() ==> (#[trigger] self.bank.columns@[j]).count.ge(one())
    }

    fn identified_holds(&self) -> (r: bool)
        ensures
            r == self.identified(),
    {
        let mut j: usize = 0;
        while j < self.bank.columns.len()
            invariant
                j <= self.bank.columns@.len(),
                forall|k: int| 0 <= k < j ==> (#[trigger] self.bank.columns@[k]).count.ge(one()),
            decreases self.bank.columns@.len() - j,
        {
            if !self.bank.columns[j].count.ge(one()) {
                return false;
            }
            j = j + 1;
        }
        true
    }

    /// Largest number of finite entries of a column.
    pub open spec fn most_seen(&self) -> Double {
        largest_count(self.bank.columns@, self.bank.columns@.len())
    }

    fn most_seen_of(&self) -> (r: Double)
        ensures
            r == self.most_seen(),
    {
        let mut m: Double = zero();
        let mut j: usize = 0;
        while j < self.bank.columns.len()
            invariant
                j <= self.bank.columns@.len(),
                m == largest_count(self.bank.columns@, j as nat),
            decreases self.bank.columns@.len() - j,
        {
            m = m.max(self.bank.columns[j].count);
            j = j + 1;
        }
        m
    }

    /// Transforms a matrix, cell by cell.
    pub fn transform(&self, x: &Matrix) -> (out: Qualified<Matrix>)
        requires
            x.wf(),
        ensures
            if !self.bank.initialized {
                passed_through(&out, x)
            } else {
                &&& is_shown::<StatImputer, Welford>(&out.value, self.bank.columns@, zero(), x)
                &&& out.report@ == undefined_columns(
                    self.bank.columns@,
                    |c: Welford| c.count.lt(one()),
                    if x.width < self.bank.columns@.len() {
                        x.width as nat
                    } else {
                        self.bank.columns@.len()
                    },
                )
            },
    {
        if !self.bank.initialized {
            return pass_through(x);
        }
        let value = show_matrix::<StatImputer, Welford>(&self.bank.columns, zero(), x);
        let mut report: Vec<Issue> = Vec::new();
        let p: usize = if x.ncols() < self.bank.columns.len() {
            x.ncols()
        } else {
            self.bank.columns.len()
        };
        let ghost missing = |c: Welford| c.count.lt(one());
        let mut j: usize = 0;
        while j < p
            invariant
                j <= p,
                p <= self.bank.columns@.len(),
                missing == (|c: Welford| c.count.lt(one())),
                report@ == undefined_columns(self.bank.columns@, missing, j as nat),
            decreases p - j,
        {
            let c: Welford = self.bank.columns[j];
            if c.count.lt(one()) {
                report.push(warning(IssueCode::ImputationUndefined));
            }
            j = j + 1;
        }
        Qualified { value, report }
    }
}

impl CellMap<Welford> for StatImputer {
    open spec fn shown(column: Welford, limit: Double, v: Double) -> Double {
        if v.is_finite() {
            v
        } else if column.count.lt(one()) {
            zero()
        } else {
            column.mean
        }
    }

    open spec fn unknown(v: Double) -> Double {
        if v.is_finite() {
            v
        } else {
            zero()
        }
    }

    fn show(column: &Welford, limit: Double, v: Double) -> (r: Double) {
        if v.is_finite() {
            v
        } else if column.count.lt(one()) {
            zero()
        } else {
            column.mean
        }
    }

    fn show_unknown(v: Double) -> (r: Double) {
        if v.is_finite() {
            v
        } else {
            zero()
        }
    }
}

/// Latest finite entry of a column, NaN before the first.
#[derive(Clone, Copy, Debug, PartialEq, Eq, Structural)]
pub struct Latest {
    /// Latest finite entry.
    pub last: Double,
}

impl ColumnState for Latest {
    open spec fn seen(self, rate: Double, v: Double) -> Latest {
        if v.is_finite() {
            Latest { last: v }
        } else {
            self
        }
    }

    open spec fn key(self) -> Double {
        self.last
    }

    fn see(&self, rate: Double, v: Double) -> (r: Latest) {
        if v.is_finite() {
            Latest { last: v }
        } else {
            *self
        }
    }

    fn get_key(&self) -> (r: Double) {
        self.last
    }
}

/// Replaces entries that are not finite by the latest finite entry of the column.
#[derive(Clone, Debug)]
pub struct PreviousImputer {
    /// State of each column, with the counters.
    pub bank: ColumnBank<Latest>,
}

impl Default for PreviousImputer {
    fn default() -> (r: PreviousImputer)
        ensures
            r.blank(),
    {
        PreviousImputer::new()
    }
}

impl PreviousImputer {
    /// The state before any row.
    pub open spec fn blank(&self) -> bool {
        &&& self.bank.blank()
    }

    /// An estimator that has seen nothing.
    pub fn new() -> (r: PreviousImputer)
        ensures
            r.blank(),
    {
        PreviousImputer { bank: ColumnBank::new() }
    }

    /// The state of a column before its first entry.
    pub open spec fn fresh() -> Latest {
        Latest { last: nan() }
    }

    /// Issues that every batch raises first.
    pub open spec fn early_issues(&self, x: &Matrix) -> Seq<Issue> {
        shape_issues(x, None)
    }

    /// The rate at which a batch is taken in.
    pub open spec fn rate(&self, x: &Matrix) -> Double {
        zero()
    }

    /// Quality figures of a batch, given how far the columns moved.
    pub open spec fn figures(&self, shift: Double, rate: Double, batch: usize) -> IncrementalQuality {
        IncrementalQuality {
            effective_sample_size: Double::from_u64(self.bank.n_seen),
            parameter_delta_norm: Some(shift),
            information_gain: Some(shift.max(one().over(at_least_one_of(self.bank.n_seen)))),
            still_identified: self.identified(),
            warmup: !self.identified(),
            ..IncrementalQuality::new((self.bank.updates - 1) as u64, batch, self.bank.n_seen)
        }
    }

    /// Takes in a batch, unless its column count does not fit.
    pub fn partial_fit(&mut self, x: &Matrix, _y: Option<&Vec<Double>>) -> (r: Update)
        requires
            x.wf(),
            old(self).bank.room(x),
        ensures
            match old(self).bank.refusal(x.width) {
                Some(code) => {
                    &&& final(self).bank.agrees(&old(self).bank)
                    &&& reports(
                        &r,
                        IncrementalQuality::new(old(self).bank.updates, x.height() as usize, old(self).bank.n_seen),
                        old(self).early_issues(x) + seq![issue(code)],
                        false,
                    )
                },
                None => {
                    &&& final(self).bank.is_after(&old(self).bank, x, old(self).rate(x), PreviousImputer::fresh())
                    &&& reports(
                        &r,
                        final(self).figures(
                            total_change(final(self).bank.columns@, old(self).bank.start(x.width, PreviousImputer::fresh()), x.width as nat),
                            old(self).rate(x),
                            x.height() as usize,
                        ),
                        old(self).early_issues(x),
                        true,
                    )
                },
            },
    {
        let mut issues: Vec<Issue> = Vec::new();
        inspect_online_xy(&mut issues, x, None);
        assert(issues@ =~= self.early_issues(x));
        let fresh: Latest = Latest { last: nan() };
        match self.bank.enter(x, fresh) {
            Err(code) => {
                issues.push(issue(code));
                assert(issues@ =~= self.early_issues(x) + seq![issue(code)]);
                rejection(self.bank.updates, x.nrows(), self.bank.n_seen, issues)
            },
            Ok(before) => {
                let rate: Double = zero();
                self.bank.absorb(x, rate, &before, fresh);
                let shift: Double = total_change_of(&self.bank.columns, &before);
                let quality = self.describe(shift, rate, x.nrows());
                screened_report(quality, issues)
            },
        }
    }

    fn describe(&self, shift: Double, rate: Double, batch: usize) -> (q: IncrementalQuality)
        requires
            self.bank.updates > 0,
        ensures
            q == self.figures(shift, rate, batch),
    {
        IncrementalQuality {
            effective_sample_size: Double::from_u64(self.bank.n_seen),
            parameter_delta_norm: Some(shift),
            information_gain: Some(shift.max(one().over(at_least_one_of(self.bank.n_seen)))),
            still_identified: self.identified_holds(),
            warmup: !self.identified_holds(),
            ..IncrementalQuality::new(self.bank.updates - 1, batch, self.bank.n_seen)
        }
    }

    /// Some column has had a finite entry.
    pub open spec fn identified(&self) -> bool {
        exists|j: int| 0 <= j < self.bank.columns@.len() && (#[trigger] self.bank.columns@[j]).last.is_finite()
    }

    fn identified_holds(&self) -> (r: bool)
        ensures
            r == self.identified(),
    {
        let mut j: usize = 0;
        while j < self.bank.columns.len()
            invariant
                j <= self.bank.columns@.len(),
                forall|k: int| 0 <= k < j ==> !(#[trigger] self.bank.columns@[k]).last.is_finite(),
            decreases self.bank.columns@.len() - j,
        {
            if self.bank.columns[j].last.is_finite() {
                return true;
            }
            j = j + 1;
        }
        false
    }

    /// Transforms a matrix, cell by cell.
    pub fn transform(&self, x: &Matrix) -> (out: Qualified<Matrix>)
        requires
            x.wf(),
        ensures
            if !self.bank.initialized {
                passed_through(&out, x)
            } else {
                &&& is_shown::<PreviousImputer, Latest>(&out.value, self.bank.columns@, zero(), x)
                &&& out.report@ == undefined_columns(
                    self.bank.columns@,
                    |c: Latest| !c.last.is_finite(),
                    if x.width < self.bank.columns@.len() {
                        x.width as nat
                    } else {
                        self.bank.columns@.len()
                    },
                )
            },
    {
        if !self.bank.initialized {
            return pass_through(x);
        }
        let value = show_matrix::<PreviousImputer, Latest>(&self.bank.columns, zero(), x);
        let mut report: Vec<Issue> = Vec::new();
        let p: usize = if x.ncols() < self.bank.columns.len() {
            x.ncols()
        } else {
            self.bank.columns.len()
        };
        let ghost missing = |c: Latest| !c.last.is_finite();
        let mut j: usize = 0;
        while j < p
            invariant
                j <= p,
                p <= self.bank.columns@.len(),
                missing == (|c: Latest| !c.last.is_finite()),
                report@ == undefined_columns(self.bank.columns@, missing, j as nat),
            decreases p - j,
        {
            let c: Latest = self.bank.columns[j];
            if !c.last.is_finite() {
                report.push(warning(IssueCode::ImputationUndefined));
            }
            j = j + 1;
        }
        Qualified { value, report }
    }
}

impl CellMap<Latest> for PreviousImputer {
    open spec fn shown(column: Latest, limit: Double, v: Double) -> Double {
        if v.is_finite() {
            v
        } else if column.last.is_finite() {
            column.last
        } else {
            zero()
        }
    }

    open spec fn unknown(v: Double) -> Double {
        if v.is_finite() {
            v
        } else {
            zero()
        }
    }

    fn show(column: &Latest, limit: Double, v: Double) -> (r: Double) {
        if v.is_finite() {
            v
        } else if column.last.is_finite() {
            column.last
        } else {
            zero()
        }
    }

    fn show_unknown(v: Double) -> (r: Double) {
        if v.is_finite() {
            v
        } else {
            zero()
        }
    }
}

/// Sum of the changes of the first `k` columns that had a finite entry before.
pub open spec fn total_change(after: Seq<Latest>, before: Seq<Latest>, k: nat) -> Double
    decreases k,
{
    if k == 0 {
        zero()
    } else {
        let earlier = total_change(after, before, (k - 1) as nat);
        if before[k - 1].last.is_finite() && after[k - 1].last.is_finite() {
            earlier.plus(after[k - 1].last.minus(before[k - 1].last).abs())
        } else {
            earlier
        }
    }
}

fn total_change_of(after: &Vec<Latest>, before: &Vec<Latest>) -> (r: Double)
    requires
        after@.len() == before@.len(),
    ensures
        r == total_change(after@, before@, after@.len()),
{
    let mut s: Double = zero();
    let mut j: usize = 0;
    while j < after.len()
        invariant
            j <= after@.len(),
            after@.len() == before@.len(),
            s == total_change(after@, before@, j as nat),
        decreases after@.len() - j,
    {
        if before[j].last.is_finite() && after[j].last.is_finite() {
            s = s.plus(after[j].last.minus(before[j].last).abs());
        }
        j = j + 1;
    }
    s
}

/// After any entries the smallest is at most, and the largest at least, each
/// finite entry that was seen.
pub proof fn law_extent_bounds(start: Extent, x: &Matrix, j: int, k: nat, i: int)
    requires
        0 <= i < k,
        x.at(i, j).is_finite(),
        !start.min.is_nan(),
        !start.max.is_nan(),
    ensures
        column_after(start, zero(), x, j, k).min.le(x.at(i, j)),
        column_after(start, zero(), x, j, k).max.ge(x.at(i, j)),
    decreases k,
{
    lemma_extent_not_nan(start, x, j, (k - 1) as nat);
    if i < k - 1 {
        law_extent_bounds(start, x, j, (k - 1) as nat, i);
    }
}

proof fn lemma_extent_not_nan(start: Extent, x: &Matrix, j: int, k: nat)
    requires
        !start.min.is_nan(),
        !start.max.is_nan(),
    ensures
        !column_after(start, zero(), x, j, k).min.is_nan(),
        !column_after(start, zero(), x, j, k).max.is_nan(),
    decreases k,
{
    if k > 0 {
        lemma_extent_not_nan(start, x, j, (k - 1) as nat);
    }
}

/// An imputed matrix keeps every finite entry.
pub proof fn law_imputation_keeps_finite(v: Double, mean: Welford, last: Latest)
    requires
        v.is_finite(),
    ensures
        StatImputer::shown(mean, zero(), v) == v,
        PreviousImputer::shown(last, zero(), v) == v,
{
}

/// The latest finite entry is what a missing one is replaced by.
pub proof fn law_previous_value_replaces(start: Latest, seen: Double, missing: Double)
    requires
        seen.is_finite(),
        !missing.is_finite(),
    ensures
        PreviousImputer::shown(start.seen(zero(), seen), zero(), missing) == seen,
        PreviousImputer::shown(start.seen(zero(), seen).seen(zero(), missing), zero(), missing) == seen,
{
}

} // verus!
