//! Statistics of a stream of numbers.

use crate::constants::{four, half, neg_half, six, ten_to_minus_12, ten_to_minus_18, three, three_halves, two};
use crate::data::{filled, zero_seq, Matrix};
use crate::double::{nan, one, zero, Double};
use crate::functions::{apply, apply_two, curve, is_function, is_function_of_two, surface, Curve, Surface};
use crate::online::common::{inspect_online_xy, shape_issues, target};
use crate::quality::{issue, warning, IncrementalQuality, Issue, IssueCode, Qualified, Update};
use crate::streaming::columns::{reports, screened_report};
use crate::streaming::linear::unready;
use vstd::prelude::*;

verus! {

/// The first column of a batch.
pub open spec fn front(x: &Matrix) -> Seq<Double> {
    Seq::new(x.height(), |i: int| x.at(i, 0))
}

/// How far a score moved, zero unless both are finite.
#[verifier::allow_in_spec]
pub fn finite_shift(before: Double, after: Double) -> (r: Double)
    returns
        (if before.is_finite() && after.is_finite() {
            after.minus(before).abs()
        } else {
            zero()
        }),
{
    if before.is_finite() && after.is_finite() {
        after.minus(before).abs()
    } else {
        zero()
    }
}

/// Mean of the finite numbers in a stream.
#[derive(Clone, Copy, Debug, PartialEq, Eq, Structural)]
pub struct OnlineMean {
    /// Number of values.
    pub n: Double,
    /// Mean.
    pub mean: Double,
    /// Batches read.
    pub updates: u64,
}

impl Default for OnlineMean {
    fn default() -> (r: OnlineMean)
        ensures
            r == OnlineMean::blank(),
    {
        OnlineMean::new()
    }
}

impl OnlineMean {
    /// The state before any number.
    pub open spec fn blank() -> OnlineMean {
        OnlineMean { n: zero(), mean: zero(), updates: 0 }
    }

    /// No numbers yet.
    pub fn new() -> (r: OnlineMean)
        ensures
            r == OnlineMean::blank(),
    {
        OnlineMean { n: zero(), mean: zero(), updates: 0 }
    }

    /// The mean, NaN without values.
    pub open spec fn value(self) -> Double {
        if self.n.le(zero()) {
            nan()
        } else {
            self.mean
        }
    }

    /// The mean, NaN without values.
    pub fn score(&self) -> (r: Double)
        ensures
            r == self.value(),
    {
        if self.n.le(zero()) {
            nan()
        } else {
            self.mean
        }
    }

    /// After one more number; one that is not finite is skipped.
    pub open spec fn shown(self, v: Double) -> OnlineMean {
        if !v.is_finite() {
            self
        } else {
            let n = self.n.plus(one());
            OnlineMean { n, mean: self.mean.plus(v.minus(self.mean).over(n)), ..self }
        }
    }

    fn show(self, v: Double) -> (r: OnlineMean)
        ensures
            r == self.shown(v),
    {
        if !v.is_finite() {
            self
        } else {
            let n: Double = self.n.plus(one());
            OnlineMean { n, mean: self.mean.plus(v.minus(self.mean).over(n)), ..self }
        }
    }

    /// After the first `k` numbers.
    pub open spec fn after(self, values: Seq<Double>, k: nat) -> OnlineMean
        decreases k,
    {
        if k == 0 {
            self
        } else {
            self.after(values, (k - 1) as nat).shown(values[k - 1])
        }
    }

    /// Quality figures after a batch.
    pub open spec fn figures(self, before: OnlineMean, batch: usize) -> IncrementalQuality {
        IncrementalQuality {
            effective_sample_size: self.n,
            parameter_delta_norm: Some(finite_shift(before.value(), self.value())),
            information_gain: Some(Double::from_usize(batch)),
            still_identified: self.n.ge(one()),
            warmup: self.n.lt(one()),
            ..IncrementalQuality::new(before.updates, batch, self.n.truncate_to_u64())
        }
    }

    /// What a batch does: its first column is read.
    pub open spec fn answers(self, after: OnlineMean, x: &Matrix, r: &Update) -> bool {
        &&& after == (OnlineMean { updates: (self.updates + 1) as u64, ..self.after(front(x), x.height()) })
        &&& reports(r, after.figures(self, x.height() as usize), shape_issues(x, None), true)
    }

    /// Reads the first column of a batch.
    pub fn partial_fit(&mut self, x: &Matrix, _y: Option<&Vec<Double>>) -> (r: Update)
        requires
            x.wf(),
            x.width > 0 || x.height() == 0,
            old(self).updates < u64::MAX,
        ensures
            old(self).answers(*final(self), x, &r),
    {
        let n: usize = x.nrows();
        let mut issues: Vec<Issue> = Vec::new();
        inspect_online_xy(&mut issues, x, None);
        assert(issues@ =~= shape_issues(x, None));
        let old_value: Double = self.score();
        let ghost start = *self;
        let mut i: usize = 0;
        while i < n
            invariant
                i <= n,
                n == x.height(),
                x.wf(),
                x.width > 0 || x.height() == 0,
                start == *old(self),
                *self == start.after(front(x), i as nat),
                self.updates == start.updates,
            decreases n - i,
        {
            *self = self.show(x.get(i, 0));
            i = i + 1;
        }
        self.updates = self.updates + 1;
        let quality = IncrementalQuality {
            effective_sample_size: self.n,
            parameter_delta_norm: Some(finite_shift(old_value, self.score())),
            information_gain: Some(Double::from_usize(n)),
            still_identified: self.n.ge(one()),
            warmup: self.n.lt(one()),
            ..IncrementalQuality::new(self.updates - 1, n, self.n.truncate_to_u64())
        };
        screened_report(quality, issues)
    }
}

/// Sample variance of the finite numbers in a stream.
#[derive(Clone, Copy, Debug, PartialEq, Eq, Structural)]
pub struct OnlineVar {
    /// Number of values.
    pub n: Double,
    /// Mean.
    pub mean: Double,
    /// Sum of squared deviations.
    pub m2: Double,
    /// Batches read.
    pub updates: u64,
}

impl Default for OnlineVar {
    fn default() -> (r: OnlineVar)
        ensures
            r == OnlineVar::blank(),
    {
        OnlineVar::new()
    }
}

impl OnlineVar {
    /// The state before any number.
    pub open spec fn blank() -> OnlineVar {
        OnlineVar { n: zero(), mean: zero(), m2: zero(), updates: 0 }
    }

    /// No numbers yet.
    pub fn new() -> (r: OnlineVar)
        ensures
            r == OnlineVar::blank(),
    {
        OnlineVar { n: zero(), mean: zero(), m2: zero(), updates: 0 }
    }

    /// The sample variance, NaN for fewer than two values.
    pub open spec fn value(self) -> Double {
        if self.n.lt(two()) {
            nan()
        } else {
            self.m2.over(self.n.minus(one()))
        }
    }

    /// The sample variance, NaN for fewer than two values.
    pub fn score(&self) -> (r: Double)
        ensures
            r == self.value(),
    {
        if self.n.lt(two()) {
            nan()
        } else {
            self.m2.over(self.n.minus(one()))
        }
    }

    /// After one more number; one that is not finite is skipped.
    pub open spec fn shown(self, v: Double) -> OnlineVar {
        if !v.is_finite() {
            self
        } else {
            let n = self.n.plus(one());
            let d = v.minus(self.mean);
            let mean = self.mean.plus(d.over(n));
            OnlineVar { n, mean, m2: self.m2.plus(d.times(v.minus(mean))), ..self }
        }
    }

    fn show(self, v: Double) -> (r: OnlineVar)
        ensures
            r == self.shown(v),
    {
        if !v.is_finite() {
            self
        } else {
            let n: Double = self.n.plus(one());
            let d: Double = v.minus(self.mean);
            let mean: Double = self.mean.plus(d.over(n));
            OnlineVar { n, mean, m2: self.m2.plus(d.times(v.minus(mean))), ..self }
        }
    }

    /// After the first `k` numbers.
    pub open spec fn after(self, values: Seq<Double>, k: nat) -> OnlineVar
        decreases k,
    {
        if k == 0 {
            self
        } else {
            self.after(values, (k - 1) as nat).shown(values[k - 1])
        }
    }

    /// Quality figures after a batch.
    pub open spec fn figures(self, before: OnlineVar, batch: usize) -> IncrementalQuality {
        IncrementalQuality {
            effective_sample_size: self.n,
            parameter_delta_norm: Some(finite_shift(before.value(), self.value())),
            information_gain: Some(Double::from_usize(batch)),
            still_identified: self.n.ge(two()),
            warmup: self.n.lt(two()),
            ..IncrementalQuality::new(before.updates, batch, self.n.truncate_to_u64())
        }
    }

    /// What a batch does: its first column is read.
    pub open spec fn answers(self, after: OnlineVar, x: &Matrix, r: &Update) -> bool {
        &&& after == (OnlineVar { updates: (self.updates + 1) as u64, ..self.after(front(x), x.height()) })
        &&& reports(r, after.figures(self, x.height() as usize), shape_issues(x, None), true)
    }

    /// Reads the first column of a batch.
    pub fn partial_fit(&mut self, x: &Matrix, _y: Option<&Vec<Double>>) -> (r: Update)
        requires
            x.wf(),
            x.width > 0 || x.height() == 0,
            old(self).updates < u64::MAX,
        ensures
            old(self).answers(*final(self), x, &r),
    {
        let n: usize = x.nrows();
        let mut issues: Vec<Issue> = Vec::new();
        inspect_online_xy(&mut issues, x, None);
        assert(issues@ =~= shape_issues(x, None));
        let old_value: Double = self.score();
        let ghost start = *self;
        let mut i: usize = 0;
        while i < n
            invariant
                i <= n,
                n == x.height(),
                x.wf(),
                x.width > 0 || x.height() == 0,
                start == *old(self),
                *self == start.after(front(x), i as nat),
                self.updates == start.updates,
            decreases n - i,
        {
            *self = self.show(x.get(i, 0));
            i = i + 1;
        }
        self.updates = self.updates + 1;
        let quality = IncrementalQuality {
            effective_sample_size: self.n,
            parameter_delta_norm: Some(finite_shift(old_value, self.score())),
            information_gain: Some(Double::from_usize(n)),
            still_identified: self.n.ge(two()),
            warmup: self.n.lt(two()),
            ..IncrementalQuality::new(self.updates - 1, n, self.n.truncate_to_u64())
        };
        screened_report(quality, issues)
    }
}

/// Number of finite numbers in a stream.
#[derive(Clone, Copy, Debug, PartialEq, Eq, Structural)]
pub struct OnlineCount {
    /// Number of values.
    pub n: u64,
    /// Batches read.
    pub updates: u64,
}

impl Default for OnlineCount {
    fn default() -> (r: OnlineCount)
        ensures
            r == OnlineCount::blank(),
    {
        OnlineCount::new()
    }
}

impl OnlineCount {
    /// The state before any number.
    pub open spec fn blank() -> OnlineCount {
        OnlineCount { n: 0, updates: 0 }
    }

    /// No numbers yet.
    pub fn new() -> (r: OnlineCount)
        ensures
            r == OnlineCount::blank(),
    {
        OnlineCount { n: 0, updates: 0 }
    }

    /// The count.
    pub open spec fn value(self) -> Double {
        Double::from_u64(self.n)
    }

    /// The count.
    pub fn score(&self) -> (r: Double)
        ensures
            r == self.value(),
    {
        Double::from_u64(self.n)
    }

    /// After one more number; one that is not finite is skipped.
    pub open spec fn shown(self, v: Double) -> OnlineCount {
        if !v.is_finite() {
            self
        } else {
            OnlineCount { n: (self.n + 1) as u64, ..self }
        }
    }

    fn show(self, v: Double) -> (r: OnlineCount)
        requires
            self.n < u64::MAX,
        ensures
            r == self.shown(v),
    {
        if !v.is_finite() {
            self
        } else {
            OnlineCount { n: self.n + 1, ..self }
        }
    }

    /// After the first `k` numbers.
    pub open spec fn after(self, values: Seq<Double>, k: nat) -> OnlineCount
        decreases k,
    {
        if k == 0 {
            self
        } else {
            self.after(values, (k - 1) as nat).shown(values[k - 1])
        }
    }

    /// Quality figures after a batch.
    pub open spec fn figures(self, before: OnlineCount, batch: usize) -> IncrementalQuality {
        IncrementalQuality {
            effective_sample_size: Double::from_u64(self.n),
            parameter_delta_norm: Some(self.value().minus(before.value()).abs()),
            information_gain: Some(Double::from_usize(batch)),
            still_identified: self.n > 0,
            warmup: self.n == 0,
            ..IncrementalQuality::new(before.updates, batch, self.n)
        }
    }

    /// What a batch does: its first column is read.
    pub open spec fn answers(self, after: OnlineCount, x: &Matrix, r: &Update) -> bool {
        &&& after == (OnlineCount { updates: (self.updates + 1) as u64, ..self.after(front(x), x.height()) })
        &&& reports(r, after.figures(self, x.height() as usize), shape_issues(x, None), true)
    }

    /// Reads the first column of a batch.
    pub fn partial_fit(&mut self, x: &Matrix, _y: Option<&Vec<Double>>) -> (r: Update)
        requires
            x.wf(),
            x.width > 0 || x.height() == 0,
            old(self).n + x.height() <= u64::MAX,
            old(self).updates < u64::MAX,
        ensures
            old(self).answers(*final(self), x, &r),
    {
        let n: usize = x.nrows();
        let mut issues: Vec<Issue> = Vec::new();
        inspect_online_xy(&mut issues, x, None);
        assert(issues@ =~= shape_issues(x, None));
        let old_value: Double = self.score();
        let ghost start = *self;
        let mut i: usize = 0;
        while i < n
            invariant
                i <= n,
                n == x.height(),
                x.wf(),
                x.width > 0 || x.height() == 0,
                start == *old(self),
                start.n + x.height() <= u64::MAX,
                self.n <= start.n + i,
                *self == start.after(front(x), i as nat),
                self.updates == start.updates,
            decreases n - i,
        {
            *self = self.show(x.get(i, 0));
            i = i + 1;
        }
        self.updates = self.updates + 1;
        let quality = IncrementalQuality {
            effective_sample_size: Double::from_u64(self.n),
            parameter_delta_norm: Some(self.score().minus(old_value).abs()),
            information_gain: Some(Double::from_usize(n)),
            still_identified: self.n > 0,
            warmup: self.n == 0,
            ..IncrementalQuality::new(self.updates - 1, n, self.n)
        };
        screened_report(quality, issues)
    }
}

/// Skewness of the finite numbers in a stream.
#[derive(Clone, Copy, Debug, PartialEq, Eq, Structural)]
pub struct OnlineSkew {
    /// Number of values.
    pub n: Double,
    /// Mean.
    pub mean: Double,
    /// Second central sum.
    pub m2: Double,
    /// Third central sum.
    pub m3: Double,
    /// Batches read.
    pub updates: u64,
}

impl Default for OnlineSkew {
    fn default() -> (r: OnlineSkew)
        ensures
            r == OnlineSkew::blank(),
    {
        OnlineSkew::new()
    }
}

impl OnlineSkew {
    /// The state before any number.
    pub open spec fn blank() -> OnlineSkew {
        OnlineSkew { n: zero(), mean: zero(), m2: zero(), m3: zero(), updates: 0 }
    }

    /// No numbers yet.
    pub fn new() -> (r: OnlineSkew)
        ensures
            r == OnlineSkew::blank(),
    {
        OnlineSkew { n: zero(), mean: zero(), m2: zero(), m3: zero(), updates: 0 }
    }

    /// The skewness, NaN for fewer than three values or without spread. `pow` raises its
    /// first argument to its second.
    pub open spec fn value(self, pow: Surface) -> Double {
        if self.n.lt(three()) || self.m2.le(ten_to_minus_18()) {
            nan()
        } else {
            self.n.sqrt().times(self.m3).over(pow(self.m2, three_halves()))
        }
    }

    /// The skewness, NaN for fewer than three values or without spread. `pow` raises its
    /// first argument to its second.
    pub fn score<P: Fn(Double, Double) -> Double>(&self, pow: &P) -> (r: Double)
        requires
            is_function_of_two(*pow),
        ensures
            r == self.value(surface(*pow)),
    {
        if self.n.lt(three()) || self.m2.le(ten_to_minus_18()) {
            nan()
        } else {
            self.n.sqrt().times(self.m3).over(apply_two(pow, self.m2, three_halves()))
        }
    }

    /// After one more number; one that is not finite is skipped.
    pub open spec fn shown(self, v: Double) -> OnlineSkew {
        if !v.is_finite() {
            self
        } else {
            let n = self.n.plus(one());
            let delta = v.minus(self.mean);
            let step = delta.over(n);
            let term = delta.times(step).times(n.minus(one()));
            OnlineSkew {
                n,
                mean: self.mean.plus(step),
                m2: self.m2.plus(term),
                m3: self.m3.plus(
                    term.times(step).times(n.minus(two())).minus(three().times(step).times(self.m2)),
                ),
                ..self
            }
        }
    }

    fn show(self, v: Double) -> (r: OnlineSkew)
        ensures
            r == self.shown(v),
    {
        if !v.is_finite() {
            self
        } else {
            let n: Double = self.n.plus(one());
            let delta: Double = v.minus(self.mean);
            let step: Double = delta.over(n);
            let term: Double = delta.times(step).times(n.minus(one()));
            OnlineSkew {
                n,
                mean: self.mean.plus(step),
                m2: self.m2.plus(term),
                m3: self.m3.plus(
                    term.times(step).times(n.minus(two())).minus(three().times(step).times(self.m2)),
                ),
                ..self
            }
        }
    }

    /// After the first `k` numbers.
    pub open spec fn after(self, values: Seq<Double>, k: nat) -> OnlineSkew
        decreases k,
    {
        if k == 0 {
            self
        } else {
            self.after(values, (k - 1) as nat).shown(values[k - 1])
        }
    }

    /// Quality figures after a batch.
    pub open spec fn figures(self, before: OnlineSkew, batch: usize, pow: Surface) -> IncrementalQuality {
        IncrementalQuality {
            effective_sample_size: self.n,
            parameter_delta_norm: Some(finite_shift(before.value(pow), self.value(pow))),
            information_gain: Some(Double::from_usize(batch)),
            still_identified: self.n.ge(three()),
            warmup: self.n.lt(three()),
            ..IncrementalQuality::new(before.updates, batch, self.n.truncate_to_u64())
        }
    }

    /// What a batch does: its first column is read.
    pub open spec fn answers(self, after: OnlineSkew, x: &Matrix, pow: Surface, r: &Update) -> bool {
        &&& after == (OnlineSkew { updates: (self.updates + 1) as u64, ..self.after(front(x), x.height()) })
        &&& reports(r, after.figures(self, x.height() as usize, pow), shape_issues(x, None), true)
    }

    /// Reads the first column of a batch.
    pub fn partial_fit<P: Fn(Double, Double) -> Double>(&mut self, x: &Matrix, _y: Option<&Vec<Double>>, pow: &P) -> (r: Update)
        requires
            x.wf(),
            x.width > 0 || x.height() == 0,
            old(self).updates < u64::MAX,
            is_function_of_two(*pow),
        ensures
            old(self).answers(*final(self), x, surface(*pow), &r),
    {
        let n: usize = x.nrows();
        let mut issues: Vec<Issue> = Vec::new();
        inspect_online_xy(&mut issues, x, None);
        assert(issues@ =~= shape_issues(x, None));
        let old_value: Double = self.score(pow);
        let ghost start = *self;
        let mut i: usize = 0;
        while i < n
            invariant
                i <= n,
                n == x.height(),
                x.wf(),
                x.width > 0 || x.height() == 0,
                start == *old(self),
                *self == start.after(front(x), i as nat),
                self.updates == start.updates,
            decreases n - i,
        {
            *self = self.show(x.get(i, 0));
            i = i + 1;
        }
        self.updates = self.updates + 1;
        let quality = IncrementalQuality {
            effective_sample_size: self.n,
            parameter_delta_norm: Some(finite_shift(old_value, self.score(pow))),
            information_gain: Some(Double::from_usize(n)),
            still_identified: self.n.ge(three()),
            warmup: self.n.lt(three()),
            ..IncrementalQuality::new(self.updates - 1, n, self.n.truncate_to_u64())
        };
        screened_report(quality, issues)
    }
}

/// Excess kurtosis of the finite numbers in a stream.
#[derive(Clone, Copy, Debug, PartialEq, Eq, Structural)]
pub struct OnlineKurtosis {
    /// Number of values.
    pub n: Double,
    /// Mean.
    pub mean: Double,
    /// Second central sum.
    pub m2: Double,
    /// Third central sum.
    pub m3: Double,
    /// Fourth central sum.
    pub m4: Double,
    /// Batches read.
    pub updates: u64,
}

impl Default for OnlineKurtosis {
    fn default() -> (r: OnlineKurtosis)
        ensures
            r == OnlineKurtosis::blank(),
    {
        OnlineKurtosis::new()
    }
}

impl OnlineKurtosis {
    /// The state before any number.
    pub open spec fn blank() -> OnlineKurtosis {
        OnlineKurtosis { n: zero(), mean: zero(), m2: zero(), m3: zero(), m4: zero(), updates: 0 }
    }

    /// No numbers yet.
    pub fn new() -> (r: OnlineKurtosis)
        ensures
            r == OnlineKurtosis::blank(),
    {
        OnlineKurtosis { n: zero(), mean: zero(), m2: zero(), m3: zero(), m4: zero(), updates: 0 }
    }

    /// The excess kurtosis, NaN for fewer than four values or without spread.
    pub open spec fn value(self) -> Double {
        if self.n.lt(four()) || self.m2.le(ten_to_minus_18()) {
            nan()
        } else {
            self.n.times(self.m4).over(self.m2.times(self.m2)).minus(three())
        }
    }

    /// The excess kurtosis, NaN for fewer than four values or without spread.
    pub fn score(&self) -> (r: Double)
        ensures
            r == self.value(),
    {
        if self.n.lt(four()) || self.m2.le(ten_to_minus_18()) {
            nan()
        } else {
            self.n.times(self.m4).over(self.m2.times(self.m2)).minus(three())
        }
    }

    /// After one more number; one that is not finite is skipped.
    pub open spec fn shown(self, v: Double) -> OnlineKurtosis {
        if !v.is_finite() {
            self
        } else {
            let n = self.n.plus(one());
            let delta = v.minus(self.mean);
            let step = delta.over(n);
            let step2 = step.times(step);
            let term = delta.times(step).times(n.minus(one()));
            OnlineKurtosis {
                n,
                mean: self.mean.plus(step),
                m2: self.m2.plus(term),
                m3: self.m3.plus(
                    term.times(step).times(n.minus(two())).minus(three().times(step).times(self.m2)),
                ),
                m4: self.m4.plus(
                    term.times(step2).times(n.times(n).minus(three().times(n)).plus(three())).plus(
                        six().times(step2).times(self.m2),
                    ).minus(four().times(step).times(self.m3)),
                ),
                ..self
            }
        }
    }

    fn show(self, v: Double) -> (r: OnlineKurtosis)
        ensures
            r == self.shown(v),
    {
        if !v.is_finite() {
            self
        } else {
            let n: Double = self.n.plus(one());
            let delta: Double = v.minus(self.mean);
            let step: Double = delta.over(n);
            let step2: Double = step.times(step);
            let term: Double = delta.times(step).times(n.minus(one()));
            OnlineKurtosis {
                n,
                mean: self.mean.plus(step),
                m2: self.m2.plus(term),
                m3: self.m3.plus(
                    term.times(step).times(n.minus(two())).minus(three().times(step).times(self.m2)),
                ),
                m4: self.m4.plus(
                    term.times(step2).times(n.times(n).minus(three().times(n)).plus(three())).plus(
                        six().times(step2).times(self.m2),
                    ).minus(four().times(step).times(self.m3)),
                ),
                ..self
            }
        }
    }

    /// After the first `k` numbers.
    pub open spec fn after(self, values: Seq<Double>, k: nat) -> OnlineKurtosis
        decreases k,
    {
        if k == 0 {
            self
        } else {
            self.after(values, (k - 1) as nat).shown(values[k - 1])
        }
    }

    /// Quality figures after a batch.
    pub open spec fn figures(self, before: OnlineKurtosis, batch: usize) -> IncrementalQuality {
        IncrementalQuality {
            effective_sample_size: self.n,
            parameter_delta_norm: Some(finite_shift(before.value(), self.value())),
            information_gain: Some(Double::from_usize(batch)),
            still_identified: self.n.ge(four()),
            warmup: self.n.lt(four()),
            ..IncrementalQuality::new(before.updates, batch, self.n.truncate_to_u64())
        }
    }

    /// What a batch does: its first column is read.
    pub open spec fn answers(self, after: OnlineKurtosis, x: &Matrix, r: &Update) -> bool {
        &&& after == (OnlineKurtosis { updates: (self.updates + 1) as u64, ..self.after(front(x), x.height()) })
        &&& reports(r, after.figures(self, x.height() as usize), shape_issues(x, None), true)
    }

    /// Reads the first column of a batch.
    pub fn partial_fit(&mut self, x: &Matrix, _y: Option<&Vec<Double>>) -> (r: Update)
        requires
            x.wf(),
            x.width > 0 || x.height() == 0,
            old(self).updates < u64::MAX,
        ensures
            old(self).answers(*final(self), x, &r),
    {
        let n: usize = x.nrows();
        let mut issues: Vec<Issue> = Vec::new();
        inspect_online_xy(&mut issues, x, None);
        assert(issues@ =~= shape_issues(x, None));
        let old_value: Double = self.score();
        let ghost start = *self;
        let mut i: usize = 0;
        while i < n
            invariant
                i <= n,
                n == x.height(),
                x.wf(),
                x.width > 0 || x.height() == 0,
                start == *old(self),
                *self == start.after(front(x), i as nat),
                self.updates == start.updates,
            decreases n - i,
        {
            *self = self.show(x.get(i, 0));
            i = i + 1;
        }
        self.updates = self.updates + 1;
        let quality = IncrementalQuality {
            effective_sample_size: self.n,
            parameter_delta_norm: Some(finite_shift(old_value, self.score())),
            information_gain: Some(Double::from_usize(n)),
            still_identified: self.n.ge(four()),
            warmup: self.n.lt(four()),
            ..IncrementalQuality::new(self.updates - 1, n, self.n.truncate_to_u64())
        };
        screened_report(quality, issues)
    }
}

/// Means, products and squares of pairs of numbers.
#[derive(Clone, Copy, Debug, PartialEq, Eq, Structural)]
pub struct PairMoments {
    /// Number of pairs.
    pub n: Double,
    /// Mean of the first numbers.
    pub mx: Double,
    /// Mean of the second numbers.
    pub my: Double,
    /// Sum of products of deviations.
    pub c: Double,
    /// Sum of squared deviations of the first numbers.
    pub vx: Double,
    /// Sum of squared deviations of the second numbers.
    pub vy: Double,
}

impl PairMoments {
    /// No pairs yet.
    #[verifier::allow_in_spec]
    pub fn fresh() -> (r: PairMoments)
        returns
            (PairMoments { n: zero(), mx: zero(), my: zero(), c: zero(), vx: zero(), vy: zero() }),
    {
        PairMoments { n: zero(), mx: zero(), my: zero(), c: zero(), vx: zero(), vy: zero() }
    }

    /// After one more pair.
    pub open spec fn spec_joined(self, a: Double, b: Double) -> PairMoments {
        let n = self.n.plus(one());
        let dx = a.minus(self.mx);
        let mx = self.mx.plus(dx.over(n));
        let dy = b.minus(self.my);
        let my = self.my.plus(dy.over(n));
        PairMoments {
            n,
            mx,
            my,
            c: self.c.plus(dx.times(b.minus(my))),
            vx: self.vx.plus(dx.times(a.minus(mx))),
            vy: self.vy.plus(dy.times(b.minus(my))),
        }
    }

    /// After one more pair.
    #[verifier::when_used_as_spec(spec_joined)]
    pub fn joined(self, a: Double, b: Double) -> (r: PairMoments)
        ensures
            r == self.spec_joined(a, b),
    {
        let n: Double = self.n.plus(one());
        let dx: Double = a.minus(self.mx);
        let mx: Double = self.mx.plus(dx.over(n));
        let dy: Double = b.minus(self.my);
        let my: Double = self.my.plus(dy.over(n));
        PairMoments {
            n,
            mx,
            my,
            c: self.c.plus(dx.times(b.minus(my))),
            vx: self.vx.plus(dx.times(a.minus(mx))),
            vy: self.vy.plus(dy.times(b.minus(my))),
        }
    }

    /// Sample covariance, NaN for fewer than two pairs.
    pub open spec fn spec_covariance(self) -> Double {
        if self.n.lt(two()) {
            nan()
        } else {
            self.c.over(self.n.minus(one()))
        }
    }

    /// Sample covariance, NaN for fewer than two pairs.
    #[verifier::when_used_as_spec(spec_covariance)]
    pub fn covariance(self) -> (r: Double)
        ensures
            r == self.spec_covariance(),
    {
        if self.n.lt(two()) {
            nan()
        } else {
            self.c.over(self.n.minus(one()))
        }
    }

    /// Correlation, NaN for fewer than three pairs or without spread.
    pub open spec fn spec_correlation(self) -> Double {
        let den = self.vx.times(self.vy).sqrt();
        if self.n.lt(three()) || den.le(ten_to_minus_18()) {
            nan()
        } else {
            self.c.over(den)
        }
    }

    /// Correlation, NaN for fewer than three pairs or without spread.
    #[verifier::when_used_as_spec(spec_correlation)]
    pub fn correlation(self) -> (r: Double)
        ensures
            r == self.spec_correlation(),
    {
        if self.n.lt(three()) {
            return nan();
        }
        let den: Double = self.vx.times(self.vy).sqrt();
        if den.le(ten_to_minus_18()) {
            nan()
        } else {
            self.c.over(den)
        }
    }
}

/// Correlation of each finite number in a stream with the one before it.
#[derive(Clone, Copy, Debug, PartialEq, Eq, Structural)]
pub struct OnlineAutoCorr {
    /// The last number.
    pub last: Option<Double>,
    /// Moments of consecutive numbers.
    pub moments: PairMoments,
    /// Batches read.
    pub updates: u64,
}

impl Default for OnlineAutoCorr {
    fn default() -> (r: OnlineAutoCorr)
        ensures
            r == OnlineAutoCorr::blank(),
    {
        OnlineAutoCorr::new()
    }
}

impl OnlineAutoCorr {
    /// The state before any number.
    pub open spec fn blank() -> OnlineAutoCorr {
        OnlineAutoCorr { last: None, moments: PairMoments::fresh(), updates: 0 }
    }

    /// No numbers yet.
    pub fn new() -> (r: OnlineAutoCorr)
        ensures
            r == OnlineAutoCorr::blank(),
    {
        OnlineAutoCorr { last: None, moments: PairMoments::fresh(), updates: 0 }
    }

    /// The correlation, NaN for fewer than three pairs or without spread.
    pub open spec fn value(self) -> Double {
        self.moments.correlation()
    }

    /// The correlation, NaN for fewer than three pairs or without spread.
    pub fn score(&self) -> (r: Double)
        ensures
            r == self.value(),
    {
        self.moments.correlation()
    }

    /// After one more number; one that is not finite is skipped.
    pub open spec fn shown(self, v: Double) -> OnlineAutoCorr {
        if !v.is_finite() {
            self
        } else {
            match self.last {
                None => OnlineAutoCorr { last: Some(v), ..self },
                Some(u) => OnlineAutoCorr { last: Some(v), moments: self.moments.joined(u, v), ..self },
            }
        }
    }

    fn show(self, v: Double) -> (r: OnlineAutoCorr)
        ensures
            r == self.shown(v),
    {
        if !v.is_finite() {
            self
        } else {
            match self.last {
                None => OnlineAutoCorr { last: Some(v), ..self },
                Some(u) => OnlineAutoCorr { last: Some(v), moments: self.moments.joined(u, v), ..self },
            }
        }
    }

    /// After the first `k` numbers.
    pub open spec fn after(self, values: Seq<Double>, k: nat) -> OnlineAutoCorr
        decreases k,
    {
        if k == 0 {
            self
        } else {
            self.after(values, (k - 1) as nat).shown(values[k - 1])
        }
    }

    /// Quality figures after a batch.
    pub open spec fn figures(self, before: OnlineAutoCorr, batch: usize) -> IncrementalQuality {
        IncrementalQuality {
            effective_sample_size: self.moments.n,
            parameter_delta_norm: Some(finite_shift(before.value(), self.value())),
            information_gain: Some(Double::from_usize(batch)),
            still_identified: self.moments.n.ge(three()),
            warmup: self.moments.n.lt(three()),
            ..IncrementalQuality::new(before.updates, batch, self.moments.n.truncate_to_u64())
        }
    }

    /// What a batch does: its first column is read.
    pub open spec fn answers(self, after: OnlineAutoCorr, x: &Matrix, r: &Update) -> bool {
        &&& after == (OnlineAutoCorr { updates: (self.updates + 1) as u64, ..self.after(front(x), x.height()) })
        &&& reports(r, after.figures(self, x.height() as usize), shape_issues(x, None), true)
    }

    /// Reads the first column of a batch.
    pub fn partial_fit(&mut self, x: &Matrix, _y: Option<&Vec<Double>>) -> (r: Update)
        requires
            x.wf(),
            x.width > 0 || x.height() == 0,
            old(self).updates < u64::MAX,
        ensures
            old(self).answers(*final(self), x, &r),
    {
        let n: usize = x.nrows();
        let mut issues: Vec<Issue> = Vec::new();
        inspect_online_xy(&mut issues, x, None);
        assert(issues@ =~= shape_issues(x, None));
        let old_value: Double = self.score();
        let ghost start = *self;
        let mut i: usize = 0;
        while i < n
            invariant
                i <= n,
                n == x.height(),
                x.wf(),
                x.width > 0 || x.height() == 0,
                start == *old(self),
                *self == start.after(front(x), i as nat),
                self.updates == start.updates,
            decreases n - i,
        {
            *self = self.show(x.get(i, 0));
            i = i + 1;
        }
        self.updates = self.updates + 1;
        let quality = IncrementalQuality {
            effective_sample_size: self.moments.n,
            parameter_delta_norm: Some(finite_shift(old_value, self.score())),
            information_gain: Some(Double::from_usize(n)),
            still_identified: self.moments.n.ge(three()),
            warmup: self.moments.n.lt(three()),
            ..IncrementalQuality::new(self.updates - 1, n, self.moments.n.truncate_to_u64())
        };
        screened_report(quality, issues)
    }
}

/// Normal law fitted to the finite numbers in a stream.
#[derive(Clone, Copy, Debug, PartialEq, Eq, Structural)]
pub struct OnlineGaussian {
    /// Number of values.
    pub n: Double,
    /// Mean.
    pub mean: Double,
    /// Sum of squared deviations.
    pub m2: Double,
    /// Batches read.
    pub updates: u64,
}

impl Default for OnlineGaussian {
    fn default() -> (r: OnlineGaussian)
        ensures
            r == OnlineGaussian::blank(),
    {
        OnlineGaussian::new()
    }
}

impl OnlineGaussian {
    /// The state before any number.
    pub open spec fn blank() -> OnlineGaussian {
        OnlineGaussian { n: zero(), mean: zero(), m2: zero(), updates: 0 }
    }

    /// No numbers yet.
    pub fn new() -> (r: OnlineGaussian)
        ensures
            r == OnlineGaussian::blank(),
    {
        OnlineGaussian { n: zero(), mean: zero(), m2: zero(), updates: 0 }
    }

    /// The mean.
    pub open spec fn value(self) -> Double {
        self.mean
    }

    /// The mean.
    pub fn mean(&self) -> (r: Double)
        ensures
            r == self.value(),
    {
        self.mean
    }

    /// After one more number; one that is not finite is skipped.
    pub open spec fn shown(self, v: Double) -> OnlineGaussian {
        if !v.is_finite() {
            self
        } else {
            let n = self.n.plus(one());
            let d = v.minus(self.mean);
            let mean = self.mean.plus(d.over(n));
            OnlineGaussian { n, mean, m2: self.m2.plus(d.times(v.minus(mean))), ..self }
        }
    }

    fn show(self, v: Double) -> (r: OnlineGaussian)
        ensures
            r == self.shown(v),
    {
        if !v.is_finite() {
            self
        } else {
            let n: Double = self.n.plus(one());
            let d: Double = v.minus(self.mean);
            let mean: Double = self.mean.plus(d.over(n));
            OnlineGaussian { n, mean, m2: self.m2.plus(d.times(v.minus(mean))), ..self }
        }
    }

    /// After the first `k` numbers.
    pub open spec fn after(self, values: Seq<Double>, k: nat) -> OnlineGaussian
        decreases k,
    {
        if k == 0 {
            self
        } else {
            self.after(values, (k - 1) as nat).shown(values[k - 1])
        }
    }

    /// Quality figures after a batch.
    pub open spec fn figures(self, before: OnlineGaussian, batch: usize) -> IncrementalQuality {
        IncrementalQuality {
            effective_sample_size: self.n,
            parameter_delta_norm: Some(self.mean.minus(before.mean).abs()),
            information_gain: Some(Double::from_usize(batch)),
            still_identified: self.n.ge(two()) && self.m2.gt(ten_to_minus_18()),
            warmup: self.n.lt(two()),
            ..IncrementalQuality::new(before.updates, batch, self.n.truncate_to_u64())
        }
    }

    /// What a batch does: its first column is read.
    pub open spec fn answers(self, after: OnlineGaussian, x: &Matrix, r: &Update) -> bool {
        &&& after == (OnlineGaussian { updates: (self.updates + 1) as u64, ..self.after(front(x), x.height()) })
        &&& reports(r, after.figures(self, x.height() as usize), after.issues(x), true)
    }

    /// Reads the first column of a batch.
    pub fn partial_fit(&mut self, x: &Matrix, _y: Option<&Vec<Double>>) -> (r: Update)
        requires
            x.wf(),
            x.width > 0 || x.height() == 0,
            old(self).updates < u64::MAX,
        ensures
            old(self).answers(*final(self), x, &r),
    {
        let n: usize = x.nrows();
        let mut issues: Vec<Issue> = Vec::new();
        inspect_online_xy(&mut issues, x, None);
        assert(issues@ =~= shape_issues(x, None));
        let old_mean: Double = self.mean;
        let ghost start = *self;
        let mut i: usize = 0;
        while i < n
            invariant
                i <= n,
                n == x.height(),
                x.wf(),
                x.width > 0 || x.height() == 0,
                start == *old(self),
                *self == start.after(front(x), i as nat),
                self.updates == start.updates,
            decreases n - i,
        {
            *self = self.show(x.get(i, 0));
            i = i + 1;
        }
        self.updates = self.updates + 1;
        if self.n.ge(two()) && self.m2.over(self.n.minus(one())).le(ten_to_minus_18()) {
            issues.push(issue(IssueCode::DegenerateDistribution));
        }
        assert(issues@ =~= self.issues(x));
        let quality = IncrementalQuality {
            effective_sample_size: self.n,
            parameter_delta_norm: Some(self.mean.minus(old_mean).abs()),
            information_gain: Some(Double::from_usize(n)),
            still_identified: self.n.ge(two()) && self.m2.gt(ten_to_minus_18()),
            warmup: self.n.lt(two()),
            ..IncrementalQuality::new(self.updates - 1, n, self.n.truncate_to_u64())
        };
        screened_report(quality, issues)
    }

    /// Density at `x`, NaN for fewer than two values or without spread.
    pub open spec fn density(self, x: Double, exp: Curve) -> Double {
        let var = self.m2.over(self.n.minus(one()));
        let z = x.minus(self.mean).over(var.sqrt());
        if self.n.lt(two()) || var.le(ten_to_minus_18()) {
            nan()
        } else {
            exp(neg_half().times(z).times(z)).over(full_circle().times(var).sqrt())
        }
    }

    /// Density at `x`, NaN for fewer than two values or without spread. `exp` is the
    /// exponential.
    pub fn pdf<E: Fn(Double) -> Double>(&self, x: Double, exp: &E) -> (r: Double)
        requires
            is_function(*exp),
        ensures
            r == self.density(x, curve(*exp)),
    {
        if self.n.lt(two()) {
            return nan();
        }
        let var: Double = self.m2.over(self.n.minus(one()));
        if var.le(ten_to_minus_18()) {
            return nan();
        }
        let z: Double = x.minus(self.mean).over(var.sqrt());
        apply(exp, neg_half().times(z).times(z)).over(full_circle().times(var).sqrt())
    }

    /// Issues about a batch and the spread after it.
    pub open spec fn issues(self, x: &Matrix) -> Seq<Issue> {
        if self.n.ge(two()) && self.m2.over(self.n.minus(one())).le(ten_to_minus_18()) {
            shape_issues(x, None).push(issue(IssueCode::DegenerateDistribution))
        } else {
            shape_issues(x, None)
        }
    }
}

/// What the first column of row `i` is paired with: the second column, or the target
/// if there is none.
pub open spec fn partner(x: &Matrix, y: Option<Seq<Double>>, i: int) -> Double {
    if x.width >= 2 {
        x.at(i, 1)
    } else {
        match y {
            Some(t) => if i < t.len() {
                t[i]
            } else {
                nan()
            },
            None => nan(),
        }
    }
}

/// The moments after the first `k` rows; pairs that are not finite are skipped.
pub open spec fn pairs_after(m: PairMoments, x: &Matrix, y: Option<Seq<Double>>, k: nat) -> PairMoments
    decreases k,
{
    if k == 0 {
        m
    } else {
        let before = pairs_after(m, x, y, (k - 1) as nat);
        let a = x.at(k - 1, 0);
        let b = partner(x, y, k - 1);
        if a.is_finite() && b.is_finite() {
            before.joined(a, b)
        } else {
            before
        }
    }
}

/// Issues about a batch of pairs.
pub open spec fn pair_issues(x: &Matrix, y: Option<Seq<Double>>) -> Seq<Issue> {
    if x.width < 2 && y is None {
        shape_issues(x, y).push(warning(IssueCode::InsufficientSample))
    } else {
        shape_issues(x, y)
    }
}

fn examine_pairs(x: &Matrix, y: Option<&Vec<Double>>) -> (issues: Vec<Issue>)
    requires
        x.wf(),
    ensures
        issues@ == pair_issues(x, target(y)),
{
    let mut issues: Vec<Issue> = Vec::new();
    inspect_online_xy(&mut issues, x, y);
    assert(issues@ =~= shape_issues(x, target(y)));
    if x.ncols() < 2 && y.is_none() {
        issues.push(warning(IssueCode::InsufficientSample));
    }
    issues
}

fn read_pairs(m: PairMoments, x: &Matrix, y: Option<&Vec<Double>>) -> (r: PairMoments)
    requires
        x.wf(),
        x.width > 0 || x.height() == 0,
    ensures
        r == pairs_after(m, x, target(y), x.height()),
{
    let mut r: PairMoments = m;
    let mut i: usize = 0;
    while i < x.nrows()
        invariant
            i <= x.height(),
            x.wf(),
            x.width > 0 || x.height() == 0,
            r == pairs_after(m, x, target(y), i as nat),
        decreases x.height() - i,
    {
        let a: Double = x.get(i, 0);
        let b: Double = if x.ncols() >= 2 {
            x.get(i, 1)
        } else {
            match y {
                Some(t) => if i < t.len() {
                    t[i]
                } else {
                    nan()
                },
                None => nan(),
            }
        };
        if a.is_finite() && b.is_finite() {
            r = r.joined(a, b);
        }
        i = i + 1;
    }
    r
}

/// Sample covariance of pairs of numbers.
#[derive(Clone, Copy, Debug, PartialEq, Eq, Structural)]
pub struct OnlineCovariance {
    /// Moments of the pairs.
    pub moments: PairMoments,
    /// Batches read.
    pub updates: u64,
}

impl Default for OnlineCovariance {
    fn default() -> (r: OnlineCovariance)
        ensures
            r == OnlineCovariance::blank(),
    {
        OnlineCovariance::new()
    }
}

impl OnlineCovariance {
    /// The state before any pair.
    pub open spec fn blank() -> OnlineCovariance {
        OnlineCovariance { moments: PairMoments::fresh(), updates: 0 }
    }

    /// No pairs yet.
    pub fn new() -> (r: OnlineCovariance)
        ensures
            r == OnlineCovariance::blank(),
    {
        OnlineCovariance { moments: PairMoments::fresh(), updates: 0 }
    }

    /// The covariance, NaN for fewer than two pairs.
    pub fn score(&self) -> (r: Double)
        ensures
            r == self.moments.covariance(),
    {
        self.moments.covariance()
    }

    /// What a batch does: its first column is paired with the second, or with the
    /// targets if there is none.
    pub open spec fn answers(self, after: OnlineCovariance, x: &Matrix, y: Option<Seq<Double>>, r: &Update) -> bool {
        &&& after == (OnlineCovariance {
            moments: pairs_after(self.moments, x, y, x.height()),
            updates: (self.updates + 1) as u64,
        })
        &&& reports(
            r,
            IncrementalQuality {
                effective_sample_size: after.moments.n,
                parameter_delta_norm: Some(finite_shift(self.moments.covariance(), after.moments.covariance())),
                information_gain: Some(Double::from_usize(x.height() as usize)),
                still_identified: after.moments.n.ge(two()),
                warmup: after.moments.n.lt(two()),
                ..IncrementalQuality::new(self.updates, x.height() as usize, after.moments.n.truncate_to_u64())
            },
            pair_issues(x, y),
            true,
        )
    }

    /// Reads the pairs of a batch.
    pub fn partial_fit(&mut self, x: &Matrix, y: Option<&Vec<Double>>) -> (r: Update)
        requires
            x.wf(),
            x.width > 0 || x.height() == 0,
            old(self).updates < u64::MAX,
        ensures
            old(self).answers(*final(self), x, target(y), &r),
    {
        let n: usize = x.nrows();
        let issues: Vec<Issue> = examine_pairs(x, y);
        let before: Double = self.score();
        self.moments = read_pairs(self.moments, x, y);
        self.updates = self.updates + 1;
        let quality = IncrementalQuality {
            effective_sample_size: self.moments.n,
            parameter_delta_norm: Some(finite_shift(before, self.score())),
            information_gain: Some(Double::from_usize(n)),
            still_identified: self.moments.n.ge(two()),
            warmup: self.moments.n.lt(two()),
            ..IncrementalQuality::new(self.updates - 1, n, self.moments.n.truncate_to_u64())
        };
        screened_report(quality, issues)
    }
}

/// Correlation of pairs of numbers.
#[derive(Clone, Copy, Debug, PartialEq, Eq, Structural)]
pub struct OnlinePearson {
    /// Moments of the pairs.
    pub moments: PairMoments,
    /// Batches read.
    pub updates: u64,
}

impl Default for OnlinePearson {
    fn default() -> (r: OnlinePearson)
        ensures
            r == OnlinePearson::blank(),
    {
        OnlinePearson::new()
    }
}

impl OnlinePearson {
    /// The state before any pair.
    pub open spec fn blank() -> OnlinePearson {
        OnlinePearson { moments: PairMoments::fresh(), updates: 0 }
    }

    /// No pairs yet.
    pub fn new() -> (r: OnlinePearson)
        ensures
            r == OnlinePearson::blank(),
    {
        OnlinePearson { moments: PairMoments::fresh(), updates: 0 }
    }

    /// The correlation, NaN for fewer than three pairs or without spread.
    pub fn score(&self) -> (r: Double)
        ensures
            r == self.moments.correlation(),
    {
        self.moments.correlation()
    }

    /// What a batch does: its first column is paired with the second, or with the
    /// targets if there is none.
    pub open spec fn answers(self, after: OnlinePearson, x: &Matrix, y: Option<Seq<Double>>, r: &Update) -> bool {
        &&& after == (OnlinePearson {
            moments: pairs_after(self.moments, x, y, x.height()),
            updates: (self.updates + 1) as u64,
        })
        &&& reports(
            r,
            IncrementalQuality {
                effective_sample_size: after.moments.n,
                parameter_delta_norm: Some(finite_shift(self.moments.correlation(), after.moments.correlation())),
                information_gain: Some(Double::from_usize(x.height() as usize)),
                still_identified: after.moments.n.ge(three()),
                warmup: after.moments.n.lt(three()),
                ..IncrementalQuality::new(self.updates, x.height() as usize, after.moments.n.truncate_to_u64())
            },
            pair_issues(x, y),
            true,
        )
    }

    /// Reads the pairs of a batch.
    pub fn partial_fit(&mut self, x: &Matrix, y: Option<&Vec<Double>>) -> (r: Update)
        requires
            x.wf(),
            x.width > 0 || x.height() == 0,
            old(self).updates < u64::MAX,
        ensures
            old(self).answers(*final(self), x, target(y), &r),
    {
        let n: usize = x.nrows();
        let issues: Vec<Issue> = examine_pairs(x, y);
        let before: Double = self.score();
        self.moments = read_pairs(self.moments, x, y);
        self.updates = self.updates + 1;
        let quality = IncrementalQuality {
            effective_sample_size: self.moments.n,
            parameter_delta_norm: Some(finite_shift(before, self.score())),
            information_gain: Some(Double::from_usize(n)),
            still_identified: self.moments.n.ge(three()),
            warmup: self.moments.n.lt(three()),
            ..IncrementalQuality::new(self.updates - 1, n, self.moments.n.truncate_to_u64())
        };
        screened_report(quality, issues)
    }
}

/// Exponentially weighted mean; a fading factor of one gives the plain mean.
#[derive(Clone, Copy, Debug, PartialEq, Eq, Structural)]
pub struct EwMean {
    /// Fading factor, above zero and at most one.
    pub fading: Double,
    /// Mean.
    pub mean: Double,
    /// Finite numbers read.
    pub n_seen: u64,
    /// Batches read.
    pub updates: u64,
    /// Whether a number was read.
    pub initialized: bool,
}

impl Default for EwMean {
    fn default() -> (r: EwMean)
        ensures
            r == EwMean::blank(half()),
    {
        EwMean::new(half())
    }
}

impl EwMean {
    /// The state before any number.
    pub open spec fn blank(fading: Double) -> EwMean {
        EwMean { fading: fading, mean: zero(), n_seen: 0, updates: 0, initialized: false }
    }

    /// No numbers yet.
    pub fn new(fading: Double) -> (r: EwMean)
        ensures
            r == EwMean::blank(fading),
    {
        EwMean { fading: fading, mean: zero(), n_seen: 0, updates: 0, initialized: false }
    }

    /// Whether the fading factor can be used.
    pub open spec fn proper(self) -> bool {
        self.fading.is_finite() && self.fading.gt(zero()) && self.fading.le(one())
    }

    /// The fading factor in use.
    pub open spec fn fade(self) -> Double {
        if self.proper() {
            self.fading
        } else {
            half()
        }
    }

    /// Issues about a batch and the fading factor.
    pub open spec fn early_issues(self, x: &Matrix) -> Seq<Issue> {
        if self.proper() {
            shape_issues(x, None)
        } else {
            shape_issues(x, None).push(warning(IssueCode::InvalidWeight))
        }
    }

    /// The mean, NaN before the first number.
    pub open spec fn value(self) -> Double {
        if self.initialized {
            self.mean
        } else {
            nan()
        }
    }

    /// The mean, NaN before the first number.
    pub fn score(&self) -> (r: Double)
        ensures
            r == self.value(),
    {
        if self.initialized {
            self.mean
        } else {
            nan()
        }
    }

    /// After one more number; one that is not finite is skipped.
    pub open spec fn shown(self, v: Double, fade: Double) -> EwMean {
        if !v.is_finite() {
            self
        } else {
            if !self.initialized {
                EwMean { mean: v, initialized: true, n_seen: (self.n_seen + 1) as u64, ..self }
            } else if fade.ge(one()) {
                let n = Double::from_u64(self.n_seen);
                EwMean { mean: self.mean.times(n).plus(v).over(n.plus(one())), n_seen: (self.n_seen + 1) as u64, ..self }
            } else {
                EwMean { mean: fade.times(self.mean).plus(one().minus(fade).times(v)), n_seen: (self.n_seen + 1) as u64, ..self }
            }
        }
    }

    fn show(self, v: Double, fade: Double) -> (r: EwMean)
        requires
            self.n_seen < u64::MAX,
        ensures
            r == self.shown(v, fade),
    {
        if !v.is_finite() {
            self
        } else {
            if !self.initialized {
                EwMean { mean: v, initialized: true, n_seen: self.n_seen + 1, ..self }
            } else if fade.ge(one()) {
                let n: Double = Double::from_u64(self.n_seen);
                EwMean { mean: self.mean.times(n).plus(v).over(n.plus(one())), n_seen: self.n_seen + 1, ..self }
            } else {
                EwMean { mean: fade.times(self.mean).plus(one().minus(fade).times(v)), n_seen: self.n_seen + 1, ..self }
            }
        }
    }

    /// After the first `k` numbers.
    pub open spec fn after(self, values: Seq<Double>, fade: Double, k: nat) -> EwMean
        decreases k,
    {
        if k == 0 {
            self
        } else {
            self.after(values, fade, (k - 1) as nat).shown(values[k - 1], fade)
        }
    }

    /// Quality figures after a batch.
    pub open spec fn figures(self, before: EwMean, batch: usize) -> IncrementalQuality {
        IncrementalQuality {
            effective_sample_size: if self.fade().ge(one()) {
                Double::from_u64(self.n_seen)
            } else {
                one().over(one().minus(self.fade())).min(Double::from_u64(self.n_seen))
            },
            parameter_delta_norm: Some(self.mean.minus(before.mean).abs()),
            information_gain: Some(
                self.mean.minus(before.mean).abs().max(
                    one().over(
                        Double::from_u64(
                            if self.n_seen < 1 {
                                1
                            } else {
                                self.n_seen
                            },
                        ),
                    ),
                ),
            ),
            still_identified: self.initialized,
            warmup: self.n_seen < 2,
            ..IncrementalQuality::new(before.updates, batch, self.n_seen)
        }
    }

    /// What a batch does: its first column is read.
    pub open spec fn answers(self, after: EwMean, x: &Matrix, r: &Update) -> bool {
        &&& after == (EwMean { updates: (self.updates + 1) as u64, ..self.after(front(x), self.fade(), x.height()) })
        &&& reports(r, after.figures(self, x.height() as usize), self.early_issues(x), true)
    }

    /// Reads the first column of a batch.
    pub fn partial_fit(&mut self, x: &Matrix, _y: Option<&Vec<Double>>) -> (r: Update)
        requires
            x.wf(),
            x.width > 0 || x.height() == 0,
            old(self).n_seen + x.height() <= u64::MAX,
            old(self).updates < u64::MAX,
        ensures
            old(self).answers(*final(self), x, &r),
    {
        let n: usize = x.nrows();
        let mut issues: Vec<Issue> = Vec::new();
        inspect_online_xy(&mut issues, x, None);
        assert(issues@ =~= shape_issues(x, None));
        let fade: Double = if self.fading.is_finite() && self.fading.gt(zero()) && self.fading.le(one()) {
            self.fading
        } else {
            issues.push(warning(IssueCode::InvalidWeight));
            half()
        };
        assert(issues@ =~= self.early_issues(x));
        let old_mean: Double = self.mean;
        let ghost start = *self;
        let mut i: usize = 0;
        while i < n
            invariant
                i <= n,
                n == x.height(),
                x.wf(),
                x.width > 0 || x.height() == 0,
                start == *old(self),
                start.n_seen + x.height() <= u64::MAX,
                self.n_seen <= start.n_seen + i,
                self.fading == start.fading,
                fade == start.fade(),
                *self == start.after(front(x), fade, i as nat),
                self.updates == start.updates,
            decreases n - i,
        {
            *self = self.show(x.get(i, 0), fade);
            i = i + 1;
        }
        self.updates = self.updates + 1;
        let count: u64 = if self.n_seen < 1 {
            1
        } else {
            self.n_seen
        };
        let quality = IncrementalQuality {
            effective_sample_size: if fade.ge(one()) {
                Double::from_u64(self.n_seen)
            } else {
                one().over(one().minus(fade)).min(Double::from_u64(self.n_seen))
            },
            parameter_delta_norm: Some(self.mean.minus(old_mean).abs()),
            information_gain: Some(self.mean.minus(old_mean).abs().max(one().over(Double::from_u64(count)))),
            still_identified: self.initialized,
            warmup: self.n_seen < 2,
            ..IncrementalQuality::new(self.updates - 1, n, self.n_seen)
        };
        screened_report(quality, issues)
    }
}

/// Exponentially weighted variance.
#[derive(Clone, Copy, Debug, PartialEq, Eq, Structural)]
pub struct EwVar {
    /// Fading factor, above zero and at most one.
    pub fading: Double,
    /// Mean.
    pub mean: Double,
    /// Weighted sum of squared deviations.
    pub m2: Double,
    /// Sum of the weights.
    pub w: Double,
    /// Finite numbers read.
    pub n_seen: u64,
    /// Batches read.
    pub updates: u64,
}

impl Default for EwVar {
    fn default() -> (r: EwVar)
        ensures
            r == EwVar::blank(half()),
    {
        EwVar::new(half())
    }
}

impl EwVar {
    /// The state before any number.
    pub open spec fn blank(fading: Double) -> EwVar {
        EwVar { fading: fading, mean: zero(), m2: zero(), w: zero(), n_seen: 0, updates: 0 }
    }

    /// No numbers yet.
    pub fn new(fading: Double) -> (r: EwVar)
        ensures
            r == EwVar::blank(fading),
    {
        EwVar { fading: fading, mean: zero(), m2: zero(), w: zero(), n_seen: 0, updates: 0 }
    }

    /// Whether the fading factor can be used.
    pub open spec fn proper(self) -> bool {
        self.fading.is_finite() && self.fading.gt(zero()) && self.fading.le(one())
    }

    /// The fading factor in use.
    pub open spec fn fade(self) -> Double {
        if self.proper() {
            self.fading
        } else {
            half()
        }
    }

    /// Issues about a batch and the fading factor.
    pub open spec fn early_issues(self, x: &Matrix) -> Seq<Issue> {
        if self.proper() {
            shape_issues(x, None)
        } else {
            shape_issues(x, None).push(warning(IssueCode::InvalidWeight))
        }
    }

    /// The variance, NaN before the second number.
    pub open spec fn value(self) -> Double {
        if self.n_seen < 2 || self.w.le(ten_to_minus_12()) {
            nan()
        } else {
            self.m2.over(self.w)
        }
    }

    /// The variance, NaN before the second number.
    pub fn score(&self) -> (r: Double)
        ensures
            r == self.value(),
    {
        if self.n_seen < 2 || self.w.le(ten_to_minus_12()) {
            nan()
        } else {
            self.m2.over(self.w)
        }
    }

    /// After one more number; one that is not finite is skipped.
    pub open spec fn shown(self, v: Double, fade: Double) -> EwVar {
        if !v.is_finite() {
            self
        } else {
            if self.w.le(zero()) {
                EwVar { mean: v, m2: zero(), w: one(), n_seen: (self.n_seen + 1) as u64, ..self }
            } else {
                let w = fade.times(self.w).plus(one());
                let d = v.minus(self.mean);
                let mean = self.mean.plus(d.over(w));
                EwVar { w, mean, m2: fade.times(self.m2).plus(d.times(v.minus(mean))), n_seen: (self.n_seen + 1) as u64, ..self }
            }
        }
    }

    fn show(self, v: Double, fade: Double) -> (r: EwVar)
        requires
            self.n_seen < u64::MAX,
        ensures
            r == self.shown(v, fade),
    {
        if !v.is_finite() {
            self
        } else {
            if self.w.le(zero()) {
                EwVar { mean: v, m2: zero(), w: one(), n_seen: self.n_seen + 1, ..self }
            } else {
                let w: Double = fade.times(self.w).plus(one());
                let d: Double = v.minus(self.mean);
                let mean: Double = self.mean.plus(d.over(w));
                EwVar { w, mean, m2: fade.times(self.m2).plus(d.times(v.minus(mean))), n_seen: self.n_seen + 1, ..self }
            }
        }
    }

    /// After the first `k` numbers.
    pub open spec fn after(self, values: Seq<Double>, fade: Double, k: nat) -> EwVar
        decreases k,
    {
        if k == 0 {
            self
        } else {
            self.after(values, fade, (k - 1) as nat).shown(values[k - 1], fade)
        }
    }

    /// Quality figures after a batch.
    pub open spec fn figures(self, before: EwVar, batch: usize) -> IncrementalQuality {
        IncrementalQuality {
            effective_sample_size: self.w,
            parameter_delta_norm: Some(self.value().minus(before.value()).abs()),
            information_gain: Some(Double::from_usize(batch)),
            still_identified: self.n_seen >= 2,
            warmup: self.n_seen < 2,
            loss_after: Some(self.value()),
            ..IncrementalQuality::new(before.updates, batch, self.n_seen)
        }
    }

    /// What a batch does: its first column is read.
    pub open spec fn answers(self, after: EwVar, x: &Matrix, r: &Update) -> bool {
        &&& after == (EwVar { updates: (self.updates + 1) as u64, ..self.after(front(x), self.fade(), x.height()) })
        &&& reports(r, after.figures(self, x.height() as usize), self.early_issues(x), true)
    }

    /// Reads the first column of a batch.
    pub fn partial_fit(&mut self, x: &Matrix, _y: Option<&Vec<Double>>) -> (r: Update)
        requires
            x.wf(),
            x.width > 0 || x.height() == 0,
            old(self).n_seen + x.height() <= u64::MAX,
            old(self).updates < u64::MAX,
        ensures
            old(self).answers(*final(self), x, &r),
    {
        let n: usize = x.nrows();
        let mut issues: Vec<Issue> = Vec::new();
        inspect_online_xy(&mut issues, x, None);
        assert(issues@ =~= shape_issues(x, None));
        let fade: Double = if self.fading.is_finite() && self.fading.gt(zero()) && self.fading.le(one()) {
            self.fading
        } else {
            issues.push(warning(IssueCode::InvalidWeight));
            half()
        };
        assert(issues@ =~= self.early_issues(x));
        let old_value: Double = self.score();
        let ghost start = *self;
        let mut i: usize = 0;
        while i < n
            invariant
                i <= n,
                n == x.height(),
                x.wf(),
                x.width > 0 || x.height() == 0,
                start == *old(self),
                start.n_seen + x.height() <= u64::MAX,
                self.n_seen <= start.n_seen + i,
                self.fading == start.fading,
                fade == start.fade(),
                *self == start.after(front(x), fade, i as nat),
                self.updates == start.updates,
            decreases n - i,
        {
            *self = self.show(x.get(i, 0), fade);
            i = i + 1;
        }
        self.updates = self.updates + 1;
        let quality = IncrementalQuality {
            effective_sample_size: self.w,
            parameter_delta_norm: Some(self.score().minus(old_value).abs()),
            information_gain: Some(Double::from_usize(n)),
            still_identified: self.n_seen >= 2,
            warmup: self.n_seen < 2,
            loss_after: Some(self.score()),
            ..IncrementalQuality::new(self.updates - 1, n, self.n_seen)
        };
        screened_report(quality, issues)
    }
}

impl EwMean {
    /// The mean for every row, or zeros before the first number.
    pub fn predict(&self, x: &Matrix) -> (out: Qualified<Vec<Double>>)
        ensures
            if !self.initialized {
                &&& out.value@ == zero_seq(x.height())
                &&& out.report@ == seq![issue(IssueCode::PartialFitBeforeInit)]
            } else {
                &&& out.value@ == Seq::new(x.height(), |i: int| self.mean)
                &&& out.report@.len() == 0
            },
    {
        if !self.initialized {
            return unready(x.nrows());
        }
        let value = filled(x.nrows(), self.mean);
        assert(value@ =~= Seq::new(x.height(), |i: int| self.mean));
        Qualified { value, report: Vec::new() }
    }
}

/// The ratio of a circle to its radius, rounded.
#[verifier::allow_in_spec]
pub fn full_circle() -> (x: Double)
    returns
        (Double { bits: 0x4019_21fb_5444_2d18 }),
{
    Double { bits: 0x4019_21fb_5444_2d18 }
}

} // verus!
