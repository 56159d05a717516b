//! Streaming count, sum, mean, variance and covariance.

use crate::data::Matrix;
use crate::double::{
    lemma_minus_equal, lemma_over_whole, lemma_plus_zero, lemma_same_as_zero, lemma_share_is_finite, lemma_times_zero, lemma_zero_over_whole,
    nan, one, zero, Double,
};
use crate::online::accumulator::{
    fit_batch, fits, history, law_history_is_a_stream, lemma_seen, observe_all, stream, Accumulator,
};
use crate::online::common::{
    checked_compensated_add, checked_difference_product, checked_online_covariance_step, compensated_add,
    covariance_step, difference_product, finite_score_delta, lemma_preflight_covers, lemma_preflight_joins, mean_step, online_mean_step,
    online_moment_preflight, preflight_issues, score_delta, target,
};
use crate::quality::{Failure, IncrementalQuality, Issue, IssueCode, Update};
use vstd::prelude::*;

verus! {

/// Quality figures of a scalar statistic with equally weighted observations.
pub open spec fn scalar_figures(
    updates: u64,
    batch: usize,
    n_seen: u64,
    before: Double,
    after: Double,
    identified: bool,
    warmup: bool,
) -> IncrementalQuality {
    IncrementalQuality {
        effective_sample_size: Double::from_u64(n_seen),
        parameter_delta_norm: score_delta(before, after),
        information_gain: Some(Double::from_usize(batch)),
        still_identified: identified,
        warmup,
        ..IncrementalQuality::new((updates - 1) as u64, batch, n_seen)
    }
}

fn scalar_quality(
    updates: u64,
    batch: usize,
    n_seen: u64,
    before: Double,
    after: Double,
    identified: bool,
    warmup: bool,
) -> (q: IncrementalQuality)
    requires
        updates > 0,
    ensures
        q == scalar_figures(updates, batch, n_seen, before, after, identified, warmup),
{
    IncrementalQuality {
        effective_sample_size: Double::from_u64(n_seen),
        parameter_delta_norm: finite_score_delta(before, after),
        information_gain: Some(Double::from_usize(batch)),
        still_identified: identified,
        warmup,
        ..IncrementalQuality::new(updates - 1, batch, n_seen)
    }
}

/// Streaming pairwise sample covariance of column 0 with column 1 or the target.
#[derive(Clone, Copy, Debug, PartialEq, Eq, Structural)]
pub struct OnlineCovariance {
    /// Observations taken in.
    pub n: u64,
    /// Mean of the first observations.
    pub mean_x: Double,
    /// Mean of the second observations.
    pub mean_y: Double,
    /// Sum of the products of centred observations.
    pub cross: Double,
    /// Rounding error kept back from `cross`.
    pub cross_compensation: Double,
    /// Batches accepted.
    pub updates: u64,
}

impl Default for OnlineCovariance {
    fn default() -> (r: OnlineCovariance)
        ensures
            r == OnlineCovariance::empty(),
    {
        OnlineCovariance::new()
    }
}

impl OnlineCovariance {
    /// The state before any observation.
    pub open spec fn empty() -> OnlineCovariance {
        OnlineCovariance { n: 0, mean_x: zero(), mean_y: zero(), cross: zero(), cross_compensation: zero(), updates: 0 }
    }

    /// Construct an empty accumulator.
    pub fn new() -> (r: OnlineCovariance)
        ensures
            r == OnlineCovariance::empty(),
    {
        OnlineCovariance { n: 0, mean_x: zero(), mean_y: zero(), cross: zero(), cross_compensation: zero(), updates: 0 }
    }

    /// The current sample covariance, or NaN during warmup.
    pub open spec fn level(self) -> Double {
        if self.n < 2 {
            nan()
        } else {
            self.cross.plus(self.cross_compensation).over(Double::from_u64((self.n - 1) as u64))
        }
    }

    /// The current sample covariance, or NaN during warmup.
    pub fn score(&self) -> (r: Double)
        ensures
            r == self.level(),
    {
        if self.n < 2 {
            nan()
        } else {
            self.cross.plus(self.cross_compensation).over(Double::from_u64(self.n - 1))
        }
    }

    /// Takes in a batch of pairs, or refuses it and changes nothing.
    pub fn partial_fit(&mut self, x: &Matrix, y: Option<&Vec<Double>>) -> (r: Result<Update, Failure>)
        requires
            x.wf(),
        ensures
            fits(*old(self), *final(self), x, target(y), r),
    {
        fit_batch(self, x, y)
    }
}

impl Accumulator for OnlineCovariance {
    open spec fn pairwise() -> bool {
        true
    }

    open spec fn seen(self) -> u64 {
        self.n
    }

    open spec fn rounds(self) -> u64 {
        self.updates
    }

    open spec fn with_rounds(self, rounds: u64) -> OnlineCovariance {
        OnlineCovariance { updates: rounds, ..self }
    }

    open spec fn refusals(self, x: &Matrix, y: Option<Seq<Double>>) -> Seq<Issue> {
        preflight_issues(x, y, true, self.updates, self.n)
    }

    open spec fn sound(self) -> bool {
        if self.n == 0 {
            self.mean_x.same(zero()) && self.mean_y.same(zero()) && self.cross.same(zero()) && self.cross_compensation.same(zero())
        } else {
            self.mean_x.is_finite() && self.mean_y.is_finite() && self.cross.is_finite()
                && self.cross_compensation.is_finite() && self.cross.plus(self.cross_compensation).is_finite()
        }
    }

    open spec fn coherent(self) -> bool {
        true
    }

    open spec fn observed(self, left: Double, right: Double) -> Result<OnlineCovariance, IssueCode> {
        match covariance_step(self.n, self.mean_x, self.mean_y, left, right) {
            Err(code) => Err(code),
            Ok((mean_x, mean_y, increment)) => match compensated_add(self.cross, self.cross_compensation, increment) {
                Err(code) => Err(code),
                Ok((cross, cross_compensation)) => Ok(
                    OnlineCovariance { n: (self.n + 1) as u64, mean_x, mean_y, cross, cross_compensation, ..self },
                ),
            },
        }
    }

    open spec fn objection(self) -> Option<IssueCode> {
        None
    }

    open spec fn figures(self, before: OnlineCovariance, batch: usize) -> IncrementalQuality {
        scalar_figures(self.updates, batch, self.n, before.level(), self.level(), self.n >= 2, self.n < 2)
    }

    open spec fn remarks(self) -> Seq<Issue> {
        Seq::empty()
    }

    proof fn rounds_are_inert(self, left: Double, right: Double, rounds: u64) {
    }

    proof fn with_rounds_twice(self, first: u64, second: u64) {
    }

    proof fn observation_counts(self, left: Double, right: Double) {
    }

    proof fn refusals_cover(self, x: &Matrix, y: Option<Seq<Double>>) {
        lemma_preflight_covers(x, y, true, self.updates, self.n);
    }

    proof fn refusals_join(
        self,
        middle: Self,
        x1: &Matrix,
        y1: Option<Seq<Double>>,
        x2: &Matrix,
        y2: Option<Seq<Double>>,
        x: &Matrix,
    ) {
        lemma_preflight_joins(x1, y1, x2, y2, x, true, self.updates, middle.updates, self.n, middle.n);
    }

    fn takes_pairs() -> (r: bool) {
        true
    }

    fn refuse(&self, x: &Matrix, y: Option<&Vec<Double>>) -> (issues: Vec<Issue>) {
        online_moment_preflight(x, y, true, self.updates, self.n)
    }

    fn is_sound(&self) -> (r: bool) {
        if self.n == 0 {
            self.mean_x.same(zero()) && self.mean_y.same(zero()) && self.cross.same(zero()) && self.cross_compensation.same(zero())
        } else {
            self.mean_x.is_finite() && self.mean_y.is_finite() && self.cross.is_finite()
                && self.cross_compensation.is_finite() && self.cross.plus(self.cross_compensation).is_finite()
        }
    }

    fn observe(&self, left: Double, right: Double) -> (r: Result<OnlineCovariance, IssueCode>) {
        match checked_online_covariance_step(self.n, self.mean_x, self.mean_y, left, right) {
            Err(code) => Err(code),
            Ok((mean_x, mean_y, increment)) => match checked_compensated_add(self.cross, self.cross_compensation, increment) {
                Err(code) => Err(code),
                Ok((cross, cross_compensation)) => Ok(
                    OnlineCovariance { n: self.n + 1, mean_x, mean_y, cross, cross_compensation, ..*self },
                ),
            },
        }
    }

    fn object(&self) -> (r: Option<IssueCode>) {
        None
    }

    fn count_round(&self) -> (r: OnlineCovariance) {
        OnlineCovariance { updates: self.updates + 1, ..*self }
    }

    fn describe(&self, before: &OnlineCovariance, batch: usize) -> (q: IncrementalQuality) {
        scalar_quality(self.updates, batch, self.n, before.score(), self.score(), self.n >= 2, self.n < 2)
    }

    fn remark(&self) -> (issues: Vec<Issue>) {
        Vec::new()
    }
}

/// Streaming arithmetic mean of column 0.
#[derive(Clone, Copy, Debug, PartialEq, Eq, Structural)]
pub struct OnlineMean {
    /// Observations taken in.
    pub n: u64,
    /// Mean of the observations.
    pub mean: Double,
    /// Batches accepted.
    pub updates: u64,
}

impl Default for OnlineMean {
    fn default() -> (r: OnlineMean)
        ensures
            r == OnlineMean::empty(),
    {
        OnlineMean::new()
    }
}

impl OnlineMean {
    /// The state before any observation.
    pub open spec fn empty() -> OnlineMean {
        OnlineMean { n: 0, mean: zero(), updates: 0 }
    }

    /// Construct an empty accumulator.
    pub fn new() -> (r: OnlineMean)
        ensures
            r == OnlineMean::empty(),
    {
        OnlineMean { n: 0, mean: zero(), updates: 0 }
    }

    /// The current mean, or NaN when empty.
    pub open spec fn level(self) -> Double {
        if self.n == 0 {
            nan()
        } else {
            self.mean
        }
    }

    /// The current mean, or NaN when empty.
    pub fn score(&self) -> (r: Double)
        ensures
            r == self.level(),
    {
        if self.n == 0 {
            nan()
        } else {
            self.mean
        }
    }

    /// Takes in a batch, or refuses it and changes nothing.
    pub fn partial_fit(&mut self, x: &Matrix, y: Option<&Vec<Double>>) -> (r: Result<Update, Failure>)
        requires
            x.wf(),
        ensures
            fits(*old(self), *final(self), x, target(y), r),
    {
        fit_batch(self, x, y)
    }
}

impl Accumulator for OnlineMean {
    open spec fn pairwise() -> bool {
        false
    }

    open spec fn seen(self) -> u64 {
        self.n
    }

    open spec fn rounds(self) -> u64 {
        self.updates
    }

    open spec fn with_rounds(self, rounds: u64) -> OnlineMean {
        OnlineMean { updates: rounds, ..self }
    }

    open spec fn refusals(self, x: &Matrix, y: Option<Seq<Double>>) -> Seq<Issue> {
        preflight_issues(x, None, false, self.updates, self.n)
    }

    open spec fn sound(self) -> bool {
        if self.n == 0 {
            self.mean.same(zero())
        } else {
            self.mean.is_finite()
        }
    }

    open spec fn coherent(self) -> bool {
        true
    }

    open spec fn observed(self, left: Double, right: Double) -> Result<OnlineMean, IssueCode> {
        let next_n = (self.n + 1) as u64;
        let mean = if self.n == 0 {
            left
        } else {
            mean_step(self.mean, left, next_n)
        };
        if !mean.is_finite() {
            Err(IssueCode::NumericalOverflow)
        } else {
            Ok(OnlineMean { n: next_n, mean, ..self })
        }
    }

    open spec fn objection(self) -> Option<IssueCode> {
        None
    }

    open spec fn figures(self, before: OnlineMean, batch: usize) -> IncrementalQuality {
        scalar_figures(self.updates, batch, self.n, before.level(), self.level(), self.n >= 1, self.n < 1)
    }

    open spec fn remarks(self) -> Seq<Issue> {
        Seq::empty()
    }

    proof fn rounds_are_inert(self, left: Double, right: Double, rounds: u64) {
    }

    proof fn with_rounds_twice(self, first: u64, second: u64) {
    }

    proof fn observation_counts(self, left: Double, right: Double) {
    }

    proof fn refusals_cover(self, x: &Matrix, y: Option<Seq<Double>>) {
        lemma_preflight_covers(x, None, false, self.updates, self.n);
    }

    proof fn refusals_join(
        self,
        middle: Self,
        x1: &Matrix,
        y1: Option<Seq<Double>>,
        x2: &Matrix,
        y2: Option<Seq<Double>>,
        x: &Matrix,
    ) {
        lemma_preflight_joins(x1, None, x2, None, x, false, self.updates, middle.updates, self.n, middle.n);
    }

    fn takes_pairs() -> (r: bool) {
        false
    }

    fn refuse(&self, x: &Matrix, y: Option<&Vec<Double>>) -> (issues: Vec<Issue>) {
        online_moment_preflight(x, None, false, self.updates, self.n)
    }

    fn is_sound(&self) -> (r: bool) {
        if self.n == 0 {
            self.mean.same(zero())
        } else {
            self.mean.is_finite()
        }
    }

    fn observe(&self, left: Double, right: Double) -> (r: Result<OnlineMean, IssueCode>) {
        let next_n: u64 = self.n + 1;
        let mean: Double = if self.n == 0 {
            left
        } else {
            online_mean_step(self.mean, left, next_n)
        };
        if !mean.is_finite() {
            Err(IssueCode::NumericalOverflow)
        } else {
            Ok(OnlineMean { n: next_n, mean, ..*self })
        }
    }

    fn object(&self) -> (r: Option<IssueCode>) {
        None
    }

    fn count_round(&self) -> (r: OnlineMean) {
        OnlineMean { updates: self.updates + 1, ..*self }
    }

    fn describe(&self, before: &OnlineMean, batch: usize) -> (q: IncrementalQuality) {
        scalar_quality(self.updates, batch, self.n, before.score(), self.score(), self.n >= 1, self.n < 1)
    }

    fn remark(&self) -> (issues: Vec<Issue>) {
        Vec::new()
    }
}

/// Streaming compensated sum of column 0.
#[derive(Clone, Copy, Debug, PartialEq, Eq, Structural)]
pub struct OnlineSum {
    /// Observations taken in.
    pub n: u64,
    /// Rounded running sum.
    pub sum: Double,
    /// Rounding error kept back from `sum`.
    pub compensation: Double,
    /// Batches accepted.
    pub updates: u64,
}

impl Default for OnlineSum {
    fn default() -> (r: OnlineSum)
        ensures
            r == OnlineSum::empty(),
    {
        OnlineSum::new()
    }
}

impl OnlineSum {
    /// The state before any observation.
    pub open spec fn empty() -> OnlineSum {
        OnlineSum { n: 0, sum: zero(), compensation: zero(), updates: 0 }
    }

    /// Construct an empty accumulator.
    pub fn new() -> (r: OnlineSum)
        ensures
            r == OnlineSum::empty(),
    {
        OnlineSum { n: 0, sum: zero(), compensation: zero(), updates: 0 }
    }

    /// The current compensated sum.
    pub open spec fn level(self) -> Double {
        self.sum.plus(self.compensation)
    }

    /// The current compensated sum.
    pub fn score(&self) -> (r: Double)
        ensures
            r == self.level(),
    {
        self.sum.plus(self.compensation)
    }

    /// Takes in a batch, or refuses it and changes nothing.
    pub fn partial_fit(&mut self, x: &Matrix, y: Option<&Vec<Double>>) -> (r: Result<Update, Failure>)
        requires
            x.wf(),
        ensures
            fits(*old(self), *final(self), x, target(y), r),
    {
        fit_batch(self, x, y)
    }
}

impl Accumulator for OnlineSum {
    open spec fn pairwise() -> bool {
        false
    }

    open spec fn seen(self) -> u64 {
        self.n
    }

    open spec fn rounds(self) -> u64 {
        self.updates
    }

    open spec fn with_rounds(self, rounds: u64) -> OnlineSum {
        OnlineSum { updates: rounds, ..self }
    }

    open spec fn refusals(self, x: &Matrix, y: Option<Seq<Double>>) -> Seq<Issue> {
        preflight_issues(x, None, false, self.updates, self.n)
    }

    open spec fn sound(self) -> bool {
        if self.n == 0 {
            self.sum.same(zero()) && self.compensation.same(zero())
        } else {
            self.sum.is_finite() && self.compensation.is_finite() && self.level().is_finite()
        }
    }

    open spec fn coherent(self) -> bool {
        true
    }

    open spec fn observed(self, left: Double, right: Double) -> Result<OnlineSum, IssueCode> {
        match compensated_add(self.sum, self.compensation, left) {
            Err(code) => Err(code),
            Ok((sum, compensation)) => Ok(OnlineSum { n: (self.n + 1) as u64, sum, compensation, ..self }),
        }
    }

    open spec fn objection(self) -> Option<IssueCode> {
        None
    }

    open spec fn figures(self, before: OnlineSum, batch: usize) -> IncrementalQuality {
        scalar_figures(self.updates, batch, self.n, before.level(), self.level(), self.n > 0, self.n == 0)
    }

    open spec fn remarks(self) -> Seq<Issue> {
        Seq::empty()
    }

    proof fn rounds_are_inert(self, left: Double, right: Double, rounds: u64) {
    }

    proof fn with_rounds_twice(self, first: u64, second: u64) {
    }

    proof fn observation_counts(self, left: Double, right: Double) {
    }

    proof fn refusals_cover(self, x: &Matrix, y: Option<Seq<Double>>) {
        lemma_preflight_covers(x, None, false, self.updates, self.n);
    }

    proof fn refusals_join(
        self,
        middle: Self,
        x1: &Matrix,
        y1: Option<Seq<Double>>,
        x2: &Matrix,
        y2: Option<Seq<Double>>,
        x: &Matrix,
    ) {
        lemma_preflight_joins(x1, None, x2, None, x, false, self.updates, middle.updates, self.n, middle.n);
    }

    fn takes_pairs() -> (r: bool) {
        false
    }

    fn refuse(&self, x: &Matrix, y: Option<&Vec<Double>>) -> (issues: Vec<Issue>) {
        online_moment_preflight(x, None, false, self.updates, self.n)
    }

    fn is_sound(&self) -> (r: bool) {
        if self.n == 0 {
            self.sum.same(zero()) && self.compensation.same(zero())
        } else {
            self.sum.is_finite() && self.compensation.is_finite() && self.score().is_finite()
        }
    }

    fn observe(&self, left: Double, right: Double) -> (r: Result<OnlineSum, IssueCode>) {
        match checked_compensated_add(self.sum, self.compensation, left) {
            Err(code) => Err(code),
            Ok((sum, compensation)) => Ok(OnlineSum { n: self.n + 1, sum, compensation, ..*self }),
        }
    }

    fn object(&self) -> (r: Option<IssueCode>) {
        None
    }

    fn count_round(&self) -> (r: OnlineSum) {
        OnlineSum { updates: self.updates + 1, ..*self }
    }

    fn describe(&self, before: &OnlineSum, batch: usize) -> (q: IncrementalQuality) {
        scalar_quality(self.updates, batch, self.n, before.score(), self.score(), self.n > 0, self.n == 0)
    }

    fn remark(&self) -> (issues: Vec<Issue>) {
        Vec::new()
    }
}

/// Streaming sample variance of column 0.
#[derive(Clone, Copy, Debug, PartialEq, Eq, Structural)]
pub struct OnlineVar {
    /// Observations taken in.
    pub n: u64,
    /// Mean of the observations.
    pub mean: Double,
    /// Sum of squared deviations from the mean.
    pub m2: Double,
    /// Rounding error kept back from `m2`.
    pub m2_compensation: Double,
    /// Batches accepted.
    pub updates: u64,
}

impl Default for OnlineVar {
    fn default() -> (r: OnlineVar)
        ensures
            r == OnlineVar::empty(),
    {
        OnlineVar::new()
    }
}

impl OnlineVar {
    /// The state before any observation.
    pub open spec fn empty() -> OnlineVar {
        OnlineVar { n: 0, mean: zero(), m2: zero(), m2_compensation: zero(), updates: 0 }
    }

    /// Construct an empty accumulator.
    pub fn new() -> (r: OnlineVar)
        ensures
            r == OnlineVar::empty(),
    {
        OnlineVar { n: 0, mean: zero(), m2: zero(), m2_compensation: zero(), updates: 0 }
    }

    /// The current sample variance, or NaN during warmup.
    pub open spec fn level(self) -> Double {
        if self.n < 2 {
            nan()
        } else {
            self.m2.plus(self.m2_compensation).over(Double::from_u64((self.n - 1) as u64))
        }
    }

    /// The current sample variance, or NaN during warmup.
    pub fn score(&self) -> (r: Double)
        ensures
            r == self.level(),
    {
        if self.n < 2 {
            nan()
        } else {
            self.m2.plus(self.m2_compensation).over(Double::from_u64(self.n - 1))
        }
    }

    /// Takes in a batch, or refuses it and changes nothing.
    pub fn partial_fit(&mut self, x: &Matrix, y: Option<&Vec<Double>>) -> (r: Result<Update, Failure>)
        requires
            x.wf(),
        ensures
            fits(*old(self), *final(self), x, target(y), r),
    {
        fit_batch(self, x, y)
    }
}

impl Accumulator for OnlineVar {
    open spec fn pairwise() -> bool {
        false
    }

    open spec fn seen(self) -> u64 {
        self.n
    }

    open spec fn rounds(self) -> u64 {
        self.updates
    }

    open spec fn with_rounds(self, rounds: u64) -> OnlineVar {
        OnlineVar { updates: rounds, ..self }
    }

    open spec fn refusals(self, x: &Matrix, y: Option<Seq<Double>>) -> Seq<Issue> {
        preflight_issues(x, None, false, self.updates, self.n)
    }

    open spec fn sound(self) -> bool {
        if self.n == 0 {
            self.mean.same(zero()) && self.m2.same(zero()) && self.m2_compensation.same(zero())
        } else {
            self.mean.is_finite() && self.m2.is_finite() && self.m2_compensation.is_finite()
                && self.m2.plus(self.m2_compensation).is_finite() && self.m2.plus(
                self.m2_compensation,
            ).ge(zero())
        }
    }

    open spec fn coherent(self) -> bool {
        true
    }

    open spec fn observed(self, left: Double, right: Double) -> Result<OnlineVar, IssueCode> {
        let next_n = (self.n + 1) as u64;
        let mean = if self.n == 0 {
            left
        } else {
            mean_step(self.mean, left, next_n)
        };
        let increment = if self.n == 0 {
            Ok(zero())
        } else {
            difference_product(left, self.mean, left, mean)
        };
        match increment {
            Err(code) => Err(code),
            Ok(increment) => if increment.lt(zero()) {
                Err(IssueCode::NonFiniteOutput)
            } else {
                match compensated_add(self.m2, self.m2_compensation, increment) {
                    Err(code) => Err(code),
                    Ok((m2, m2_compensation)) => if !mean.is_finite() || m2.plus(m2_compensation).lt(zero()) {
                        Err(IssueCode::NonFiniteOutput)
                    } else {
                        Ok(OnlineVar { n: next_n, mean, m2, m2_compensation, ..self })
                    },
                }
            },
        }
    }

    open spec fn objection(self) -> Option<IssueCode> {
        None
    }

    open spec fn figures(self, before: OnlineVar, batch: usize) -> IncrementalQuality {
        scalar_figures(self.updates, batch, self.n, before.level(), self.level(), self.n >= 2, self.n < 2)
    }

    open spec fn remarks(self) -> Seq<Issue> {
        Seq::empty()
    }

    proof fn rounds_are_inert(self, left: Double, right: Double, rounds: u64) {
    }

    proof fn with_rounds_twice(self, first: u64, second: u64) {
    }

    proof fn observation_counts(self, left: Double, right: Double) {
    }

    proof fn refusals_cover(self, x: &Matrix, y: Option<Seq<Double>>) {
        lemma_preflight_covers(x, None, false, self.updates, self.n);
    }

    proof fn refusals_join(
        self,
        middle: Self,
        x1: &Matrix,
        y1: Option<Seq<Double>>,
        x2: &Matrix,
        y2: Option<Seq<Double>>,
        x: &Matrix,
    ) {
        lemma_preflight_joins(x1, None, x2, None, x, false, self.updates, middle.updates, self.n, middle.n);
    }

    fn takes_pairs() -> (r: bool) {
        false
    }

    fn refuse(&self, x: &Matrix, y: Option<&Vec<Double>>) -> (issues: Vec<Issue>) {
        online_moment_preflight(x, None, false, self.updates, self.n)
    }

    fn is_sound(&self) -> (r: bool) {
        if self.n == 0 {
            self.mean.same(zero()) && self.m2.same(zero()) && self.m2_compensation.same(zero())
        } else {
            self.mean.is_finite() && self.m2.is_finite() && self.m2_compensation.is_finite()
                && self.m2.plus(self.m2_compensation).is_finite() && self.m2.plus(
                self.m2_compensation,
            ).ge(zero())
        }
    }

    fn observe(&self, left: Double, right: Double) -> (r: Result<OnlineVar, IssueCode>) {
        let next_n: u64 = self.n + 1;
        let mean: Double = if self.n == 0 {
            left
        } else {
            online_mean_step(self.mean, left, next_n)
        };
        let increment: Result<Double, IssueCode> = if self.n == 0 {
            Ok(zero())
        } else {
            checked_difference_product(left, self.mean, left, mean)
        };
        match increment {
            Err(code) => Err(code),
            Ok(increment) => if increment.lt(zero()) {
                Err(IssueCode::NonFiniteOutput)
            } else {
                match checked_compensated_add(self.m2, self.m2_compensation, increment) {
                    Err(code) => Err(code),
                    Ok((m2, m2_compensation)) => if !mean.is_finite() || m2.plus(m2_compensation).lt(zero()) {
                        Err(IssueCode::NonFiniteOutput)
                    } else {
                        Ok(OnlineVar { n: next_n, mean, m2, m2_compensation, ..*self })
                    },
                }
            },
        }
    }

    fn object(&self) -> (r: Option<IssueCode>) {
        None
    }

    fn count_round(&self) -> (r: OnlineVar) {
        OnlineVar { updates: self.updates + 1, ..*self }
    }

    fn describe(&self, before: &OnlineVar, batch: usize) -> (q: IncrementalQuality) {
        scalar_quality(self.updates, batch, self.n, before.score(), self.score(), self.n >= 2, self.n < 2)
    }

    fn remark(&self) -> (issues: Vec<Issue>) {
        Vec::new()
    }
}

/// Streaming count of the finite observations in column 0.
#[derive(Clone, Copy, Debug, PartialEq, Eq, Structural)]
pub struct OnlineCount {
    /// Observations taken in.
    pub n: u64,
    /// Batches accepted.
    pub updates: u64,
}

impl Default for OnlineCount {
    fn default() -> (r: OnlineCount)
        ensures
            r == OnlineCount::empty(),
    {
        OnlineCount::new()
    }
}

impl OnlineCount {
    /// The state before any observation.
    pub open spec fn empty() -> OnlineCount {
        OnlineCount { n: 0, updates: 0 }
    }

    /// Construct an empty accumulator.
    pub fn new() -> (r: OnlineCount)
        ensures
            r == OnlineCount::empty(),
    {
        OnlineCount { n: 0, updates: 0 }
    }

    /// The current count as a score.
    pub open spec fn level(self) -> Double {
        Double::from_u64(self.n)
    }

    /// The current count as a score.
    pub fn score(&self) -> (r: Double)
        ensures
            r == self.level(),
    {
        Double::from_u64(self.n)
    }

    /// Takes in a batch, or refuses it and changes nothing.
    pub fn partial_fit(&mut self, x: &Matrix, y: Option<&Vec<Double>>) -> (r: Result<Update, Failure>)
        requires
            x.wf(),
        ensures
            fits(*old(self), *final(self), x, target(y), r),
    {
        fit_batch(self, x, y)
    }
}

impl Accumulator for OnlineCount {
    open spec fn pairwise() -> bool {
        false
    }

    open spec fn seen(self) -> u64 {
        self.n
    }

    open spec fn rounds(self) -> u64 {
        self.updates
    }

    open spec fn with_rounds(self, rounds: u64) -> OnlineCount {
        OnlineCount { updates: rounds, ..self }
    }

    open spec fn refusals(self, x: &Matrix, y: Option<Seq<Double>>) -> Seq<Issue> {
        preflight_issues(x, None, false, self.updates, self.n)
    }

    open spec fn sound(self) -> bool {
        true
    }

    open spec fn coherent(self) -> bool {
        true
    }

    open spec fn observed(self, left: Double, right: Double) -> Result<OnlineCount, IssueCode> {
        Ok(OnlineCount { n: (self.n + 1) as u64, ..self })
    }

    open spec fn objection(self) -> Option<IssueCode> {
        None
    }

    open spec fn figures(self, before: OnlineCount, batch: usize) -> IncrementalQuality {
        scalar_figures(self.updates, batch, self.n, before.level(), self.level(), self.n > 0, self.n == 0)
    }

    open spec fn remarks(self) -> Seq<Issue> {
        Seq::empty()
    }

    proof fn rounds_are_inert(self, left: Double, right: Double, rounds: u64) {
    }

    proof fn with_rounds_twice(self, first: u64, second: u64) {
    }

    proof fn observation_counts(self, left: Double, right: Double) {
    }

    proof fn refusals_cover(self, x: &Matrix, y: Option<Seq<Double>>) {
        lemma_preflight_covers(x, None, false, self.updates, self.n);
    }

    proof fn refusals_join(
        self,
        middle: Self,
        x1: &Matrix,
        y1: Option<Seq<Double>>,
        x2: &Matrix,
        y2: Option<Seq<Double>>,
        x: &Matrix,
    ) {
        lemma_preflight_joins(x1, None, x2, None, x, false, self.updates, middle.updates, self.n, middle.n);
    }

    fn takes_pairs() -> (r: bool) {
        false
    }

    fn refuse(&self, x: &Matrix, y: Option<&Vec<Double>>) -> (issues: Vec<Issue>) {
        online_moment_preflight(x, None, false, self.updates, self.n)
    }

    fn is_sound(&self) -> (r: bool) {
        true
    }

    fn observe(&self, left: Double, right: Double) -> (r: Result<OnlineCount, IssueCode>) {
        Ok(OnlineCount { n: self.n + 1, ..*self })
    }

    fn object(&self) -> (r: Option<IssueCode>) {
        None
    }

    fn count_round(&self) -> (r: OnlineCount) {
        OnlineCount { updates: self.updates + 1, ..*self }
    }

    fn describe(&self, before: &OnlineCount, batch: usize) -> (q: IncrementalQuality) {
        scalar_quality(self.updates, batch, self.n, before.score(), self.score(), self.n > 0, self.n == 0)
    }

    fn remark(&self) -> (issues: Vec<Issue>) {
        Vec::new()
    }
}

/// A sum that can be continued from stays so after every observation.
pub proof fn law_sum_stays_sound(start: OnlineSum, value: Double)
    requires
        start.n < u64::MAX,
    ensures
        start.observed(value, zero()) matches Ok(next) ==> next.sound(),
{
}

/// A mean that can be continued from stays so after every observation.
pub proof fn law_mean_stays_sound(start: OnlineMean, value: Double)
    requires
        start.n < u64::MAX,
    ensures
        start.observed(value, zero()) matches Ok(next) ==> next.sound(),
{
}

/// A variance stays sound, and in particular never negative.
pub proof fn law_variance_stays_sound(start: OnlineVar, value: Double)
    requires
        start.n < u64::MAX,
    ensures
        start.observed(value, zero()) matches Ok(next) ==> next.sound() && next.m2.plus(next.m2_compensation).ge(zero()),
{
}

/// A covariance that can be continued from stays so after every finite pair.
pub proof fn law_covariance_stays_sound(start: OnlineCovariance, left: Double, right: Double)
    requires
        start.n < u64::MAX,
        left.is_finite(),
        right.is_finite(),
    ensures
        start.observed(left, right) matches Ok(next) ==> next.sound(),
{
}

/// A count never refuses an observation, and counts every one.
pub proof fn law_count_counts(start: OnlineCount, values: Seq<(Double, Double)>)
    requires
        start.n + values.len() <= u64::MAX,
    ensures
        observe_all(start, values) == Ok::<OnlineCount, IssueCode>(
            OnlineCount { n: (start.n + values.len()) as u64, ..start },
        ),
    decreases values.len(),
{
    if values.len() > 0 {
        law_count_counts(start, values.drop_last());
    }
}

/// The mean of equal observations stays where it is.
pub proof fn lemma_mean_of_equal(previous: Double, v: Double, n: u64)
    requires
        v.finite(),
        n > 0,
        previous == v || (v.code() == 0 && previous.code() == 0),
    ensures
        v.code() != 0 ==> mean_step(previous, v, n) == v,
        v.code() == 0 ==> mean_step(previous, v, n).code() == 0,
{
    let share = one().over(Double::from_u64(n));
    lemma_share_is_finite(n);
    lemma_same_as_zero(v, previous);
    lemma_minus_equal(v, previous);
    lemma_times_zero(v.minus(previous), share);
    lemma_plus_zero(previous, v.minus(previous).times(share));
    if v.code() == 0 {
        lemma_times_zero(previous, one().minus(share));
        lemma_times_zero(v, share);
        lemma_plus_zero(one().minus(share).times(previous), share.times(v));
    }
}

/// The state after `n` equal observations.
pub open spec fn level_state(v: Double, n: nat, s: OnlineVar) -> bool {
    &&& s.n == n
    &&& s.m2 == zero()
    &&& s.m2_compensation == zero()
    &&& s.mean.same(v)
    &&& v.code() != 0 ==> s.mean == v
}

/// Equal observations have no variance, whatever their size.
pub proof fn law_constant_has_no_variance(v: Double, n: nat)
    requires
        v.is_finite(),
        0 < n <= u64::MAX,
    ensures
        observe_all(OnlineVar::empty(), Seq::new(n, |i: int| (v, zero()))) is Ok,
        level_state(v, n, observe_all(OnlineVar::empty(), Seq::new(n, |i: int| (v, zero())))->Ok_0),
        n >= 2 ==> observe_all(OnlineVar::empty(), Seq::new(n, |i: int| (v, zero())))->Ok_0.level() == zero(),
    decreases n,
{
    let values = Seq::new(n, |i: int| (v, zero()));
    let earlier = values.drop_last();
    let z = zero();
    assert(z.code() == 0);
    assert(z.abs() == z);
    lemma_minus_equal(z, z);
    lemma_plus_zero(z, z);
    if n == 1 {
        assert(earlier =~= Seq::empty());
        assert(observe_all(OnlineVar::empty(), earlier) == Ok::<OnlineVar, IssueCode>(OnlineVar::empty()));
    } else {
        law_constant_has_no_variance(v, (n - 1) as nat);
        assert(earlier =~= Seq::new((n - 1) as nat, |i: int| (v, zero())));
        let s = observe_all(OnlineVar::empty(), earlier)->Ok_0;
        lemma_same_as_zero(s.mean, v);
        lemma_mean_of_equal(s.mean, v, n as u64);
        lemma_minus_equal(v, s.mean);
        lemma_same_as_zero(v.minus(s.mean), z);
        let mean = mean_step(s.mean, v, n as u64);
        lemma_same_as_zero(mean, v);
    }
    if n >= 2 {
        lemma_zero_over_whole((n - 1) as u64);
    }
}

proof fn lemma_variance_soundness(start: OnlineVar, values: Seq<(Double, Double)>)
    requires
        start.sound(),
        start.n + values.len() <= u64::MAX,
    ensures
        observe_all(start, values) matches Ok(s) ==> s.sound(),
    decreases values.len(),
{
    if values.len() > 0 {
        lemma_variance_soundness(start, values.drop_last());
        lemma_seen(start, values.drop_last());
        match observe_all(start, values.drop_last()) {
            Ok(s) => {
                law_variance_stays_sound(s, values.last().0);
            },
            Err(_) => {},
        }
    }
}

/// Whatever batches came, refused ones among them, the score is NaN exactly below two
/// accepted observations, and otherwise finite and not negative.
pub proof fn law_variance_after_any_batches(batches: Seq<(Matrix, Option<Seq<Double>>)>)
    ensures
        ({
            let s = history(OnlineVar::empty(), batches);
            &&& s.n == stream(OnlineVar::empty(), batches).len()
            &&& s.sound()
            &&& s.level().is_nan() <==> s.n < 2
            &&& s.n >= 2 ==> s.level().is_finite() && s.level().ge(zero())
        }),
{
    let start = OnlineVar::empty();
    let s = history(start, batches);
    law_history_is_a_stream(start, batches);
    lemma_variance_soundness(start, stream(start, batches));
    let z = zero();
    assert(z.code() == 0);
    if s.n >= 2 {
        let total = s.m2.plus(s.m2_compensation);
        lemma_over_whole(total, (s.n - 1) as u64);
    }
}

/// Whatever batches bring equal observations, they have no variance.
pub proof fn law_constant_batches_have_no_variance(batches: Seq<(Matrix, Option<Seq<Double>>)>, v: Double)
    requires
        v.is_finite(),
        stream(OnlineVar::empty(), batches).len() >= 2,
        forall|i: int|
            0 <= i < stream(OnlineVar::empty(), batches).len() ==> #[trigger] stream(OnlineVar::empty(), batches)[i] == (
                v,
                zero(),
            ),
    ensures
        history(OnlineVar::empty(), batches).level() == zero(),
{
    let start = OnlineVar::empty();
    let values = stream(start, batches);
    law_history_is_a_stream(start, batches);
    assert(values =~= Seq::new(values.len(), |i: int| (v, zero())));
    law_constant_has_no_variance(v, values.len());
}

} // verus!
