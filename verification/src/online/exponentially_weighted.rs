//! Exponentially weighted mean and variance.

use crate::constants::half;
use crate::data::Matrix;
use crate::double::{nan, one, zero, Double};
use crate::online::accumulator::{fit_batch, fits, Accumulator};
use crate::online::common::{bad_row, misshapen, stacked, target};
use crate::quality::{given, raise, Failure, IncrementalQuality, Issue, IssueCode, Update};
use vstd::prelude::*;

verus! {

/// Whether `alpha` is outside `(0, 1]`.
pub open spec fn invalid_alpha(alpha: Double) -> bool {
    !alpha.is_finite() || alpha.le(zero()) || alpha.gt(one())
}

/// Whether `alpha` is too small to leave a trace in `1 - alpha`.
pub open spec fn vanishing_alpha(alpha: Double) -> bool {
    !invalid_alpha(alpha) && alpha.lt(one()) && one().minus(alpha).same(one())
}

/// All reasons to refuse a batch before any arithmetic, in order.
pub open spec fn weighted_refusals(x: &Matrix, alpha: Double, updates: u64, n_seen: u64) -> Seq<Issue> {
    given(x.height() == 0 || x.width == 0, IssueCode::EmptyMatrix) + given(
        invalid_alpha(alpha),
        IssueCode::InvalidWeight,
    ) + given(vanishing_alpha(alpha), IssueCode::NumericalUnderflow) + given(
        x.width > 0 && exists|i: int| 0 <= i < x.height() && #[trigger] bad_row(x, None, false, i),
        IssueCode::NonFiniteInput,
    ) + given(n_seen + x.height() > u64::MAX, IssueCode::InvalidParameter) + given(
        updates == u64::MAX,
        IssueCode::InvalidParameter,
    )
}

fn preflight(x: &Matrix, alpha: Double, updates: u64, n_seen: u64) -> (issues: Vec<Issue>)
    requires
        x.wf(),
    ensures
        issues@ == weighted_refusals(x, alpha, updates, n_seen),
{
    let mut issues: Vec<Issue> = Vec::new();
    let n: usize = x.nrows();
    raise(&mut issues, n == 0 || x.ncols() == 0, IssueCode::EmptyMatrix);
    let invalid: bool = !alpha.is_finite() || alpha.le(zero()) || alpha.gt(one());
    raise(&mut issues, invalid, IssueCode::InvalidWeight);
    raise(
        &mut issues,
        !invalid && alpha.lt(one()) && one().minus(alpha).same(one()),
        IssueCode::NumericalUnderflow,
    );
    let mut bad: bool = false;
    if x.ncols() > 0 {
        let mut i: usize = 0;
        while i < n
            invariant
                i <= n,
                n == x.height(),
                x.wf(),
                x.width > 0,
                bad == exists|k: int| 0 <= k < i && #[trigger] bad_row(x, None, false, k),
            decreases n - i,
        {
            if !x.get(i, 0).is_finite() {
                assert(bad_row(x, None, false, i as int));
                bad = true;
            }
            i = i + 1;
        }
    }
    raise(&mut issues, bad, IssueCode::NonFiniteInput);
    raise(&mut issues, n as u64 > u64::MAX - n_seen, IssueCode::InvalidParameter);
    raise(&mut issues, updates == u64::MAX, IssueCode::InvalidParameter);
    assert(issues@ =~= weighted_refusals(x, alpha, updates, n_seen));
    issues
}

proof fn lemma_refusals_join(
    x1: &Matrix,
    x2: &Matrix,
    x: &Matrix,
    alpha: Double,
    alpha_then: Double,
    updates: u64,
    later: u64,
    n_seen: u64,
    n_then: u64,
)
    requires
        stacked(x1, x2, x),
        n_then == n_seen + x1.height(),
        weighted_refusals(x1, alpha, updates, n_seen).len() == 0,
        weighted_refusals(x2, alpha_then, later, n_then).len() == 0,
    ensures
        weighted_refusals(x, alpha, updates, n_seen).len() == 0,
{
    assert forall|i: int| 0 <= i < x.height() implies !#[trigger] bad_row(x, None, false, i) by {
        if i < x1.height() {
            assert(!bad_row(x1, None, false, i));
            assert(x.at(i, 0) == x1.at(i, 0));
        } else {
            assert(!bad_row(x2, None, false, i - x1.height()));
            assert(x2.at(i - x1.height(), 0) == x.at(x1.height() + (i - x1.height()), 0));
        }
    }
    assert(weighted_refusals(x, alpha, updates, n_seen) =~= Seq::empty());
}

proof fn lemma_refusals_cover(x: &Matrix, alpha: Double, updates: u64, n_seen: u64)
    ensures
        weighted_refusals(x, alpha, updates, n_seen).len() == 0 ==> {
            &&& !misshapen(x, None, false)
            &&& n_seen + x.height() <= u64::MAX
            &&& updates < u64::MAX
            &&& !invalid_alpha(alpha)
        },
{
}

/// Weighted mean after one more observation of weight `alpha`.
pub open spec fn weighted_mean_step(previous: Double, observation: Double, alpha: Double) -> Double {
    alpha.mul_add(observation, one().minus(alpha).times(previous))
}

#[verifier::when_used_as_spec(weighted_mean_step)]
fn mean_step(previous: Double, observation: Double, alpha: Double) -> (r: Double)
    ensures
        r == weighted_mean_step(previous, observation, alpha),
{
    alpha.mul_add(observation, one().minus(alpha).times(previous))
}

/// Sum of the squared weights after one more observation; the first one has
/// weight one.
pub open spec fn squared_weights(current: Double, started: bool, alpha: Double) -> Double {
    if started {
        one().minus(alpha).times(one().minus(alpha)).mul_add(current, alpha.times(alpha))
    } else {
        one()
    }
}

fn weight_square_step(current: Double, started: bool, alpha: Double) -> (r: Double)
    ensures
        r == squared_weights(current, started, alpha),
{
    if started {
        let decay: Double = one().minus(alpha);
        decay.times(decay).mul_add(current, alpha.times(alpha))
    } else {
        one()
    }
}

/// Number of equally weighted observations with the same sum of squared weights.
pub open spec fn kish_size(n_seen: u64, weight_square_sum: Double) -> Double {
    if n_seen == 0 {
        zero()
    } else {
        one().over(weight_square_sum)
    }
}

/// Number of equally weighted observations with the same sum of squared weights.
#[verifier::when_used_as_spec(kish_size)]
pub fn effective_sample_size(n_seen: u64, weight_square_sum: Double) -> (r: Double)
    ensures
        r == kish_size(n_seen, weight_square_sum),
{
    if n_seen == 0 {
        zero()
    } else {
        one().over(weight_square_sum)
    }
}

/// Distance between two scores, where the first is finite.
pub open spec fn step_length(before: Double, after: Double) -> Option<Double> {
    if before.is_finite() {
        Some(after.minus(before).abs())
    } else {
        None
    }
}

fn step_length_of(before: Double, after: Double) -> (r: Option<Double>)
    ensures
        r == step_length(before, after),
{
    if before.is_finite() {
        Some(after.minus(before).abs())
    } else {
        None
    }
}

/// Exponentially weighted mean.
///
/// The first observation has unit weight. Each later one scales the old weights
/// by `1 - alpha` and has weight `alpha`.
#[derive(Clone, Copy, Debug, PartialEq, Eq, Structural)]
pub struct OnlineEwMean {
    /// Smoothing parameter in `(0, 1]`.
    pub alpha: Double,
    /// Weighted mean.
    pub mean: Double,
    /// Sum of the squared weights.
    pub weight_square_sum: Double,
    /// Observations taken in.
    pub n_seen: u64,
    /// Batches accepted.
    pub updates: u64,
}

impl Default for OnlineEwMean {
    fn default() -> (r: OnlineEwMean)
        ensures
            r == OnlineEwMean::empty(half()),
    {
        OnlineEwMean::new(half())
    }
}

impl OnlineEwMean {
    /// The state before any observation.
    pub open spec fn empty(alpha: Double) -> OnlineEwMean {
        OnlineEwMean { alpha, mean: zero(), weight_square_sum: zero(), n_seen: 0, updates: 0 }
    }

    /// Construct an empty statistic with the given `alpha`.
    pub fn new(alpha: Double) -> (r: OnlineEwMean)
        ensures
            r == OnlineEwMean::empty(alpha),
    {
        OnlineEwMean { alpha, mean: zero(), weight_square_sum: zero(), n_seen: 0, updates: 0 }
    }

    /// The current mean, or NaN before the first observation.
    pub open spec fn level(self) -> Double {
        if self.n_seen == 0 {
            nan()
        } else {
            self.mean
        }
    }

    /// The current mean, or NaN before the first observation.
    pub fn score(&self) -> (r: Double)
        ensures
            r == self.level(),
    {
        if self.n_seen == 0 {
            nan()
        } else {
            self.mean
        }
    }

    /// Number of equally weighted observations that carry the same information.
    pub fn effective_sample_size(&self) -> (r: Double)
        ensures
            r == kish_size(self.n_seen, self.weight_square_sum),
    {
        effective_sample_size(self.n_seen, self.weight_square_sum)
    }

    /// Takes in a batch, or refuses it and changes nothing.
    pub fn partial_fit(&mut self, x: &Matrix, y: Option<&Vec<Double>>) -> (r: Result<Update, Failure>)
        requires
            x.wf(),
        ensures
            fits(*old(self), *final(self), x, target(y), r),
    {
        fit_batch(self, x, y)
    }
}

impl Accumulator for OnlineEwMean {
    open spec fn pairwise() -> bool {
        false
    }

    open spec fn seen(self) -> u64 {
        self.n_seen
    }

    open spec fn rounds(self) -> u64 {
        self.updates
    }

    open spec fn with_rounds(self, rounds: u64) -> OnlineEwMean {
        OnlineEwMean { updates: rounds, ..self }
    }

    open spec fn refusals(self, x: &Matrix, y: Option<Seq<Double>>) -> Seq<Issue> {
        weighted_refusals(x, self.alpha, self.updates, self.n_seen)
    }

    open spec fn sound(self) -> bool {
        if self.n_seen == 0 {
            self.mean.same(zero()) && self.weight_square_sum.same(zero())
        } else {
            self.mean.is_finite() && self.weight_square_sum.is_finite() && self.weight_square_sum.gt(zero())
                && kish_size(self.n_seen, self.weight_square_sum).is_finite()
        }
    }

    open spec fn coherent(self) -> bool {
        true
    }

    open spec fn observed(self, left: Double, right: Double) -> Result<OnlineEwMean, IssueCode> {
        let started = self.n_seen > 0;
        let mean = if started {
            weighted_mean_step(self.mean, left, self.alpha)
        } else {
            left
        };
        let weight_square_sum = squared_weights(self.weight_square_sum, started, self.alpha);
        if !mean.is_finite() || !weight_square_sum.is_finite() || weight_square_sum.le(zero()) {
            Err(IssueCode::NumericalOverflow)
        } else {
            Ok(OnlineEwMean { mean, weight_square_sum, n_seen: (self.n_seen + 1) as u64, ..self })
        }
    }

    open spec fn objection(self) -> Option<IssueCode> {
        None
    }

    open spec fn figures(self, before: OnlineEwMean, batch: usize) -> IncrementalQuality {
        let size_before = kish_size(before.n_seen, before.weight_square_sum);
        let size = kish_size(self.n_seen, self.weight_square_sum);
        let identified = self.n_seen >= 1;
        IncrementalQuality {
            effective_sample_size: size,
            forgetting_factor: Some(one().minus(self.alpha)),
            parameter_delta_norm: step_length(before.level(), self.level()),
            information_gain: Some(size.minus(size_before).abs()),
            still_identified: identified,
            warmup: !identified,
            ..IncrementalQuality::new((self.updates - 1) as u64, batch, self.n_seen)
        }
    }

    open spec fn remarks(self) -> Seq<Issue> {
        Seq::empty()
    }

    proof fn rounds_are_inert(self, left: Double, right: Double, rounds: u64) {
    }

    proof fn with_rounds_twice(self, first: u64, second: u64) {
    }

    proof fn observation_counts(self, left: Double, right: Double) {
    }

    proof fn refusals_cover(self, x: &Matrix, y: Option<Seq<Double>>) {
        lemma_refusals_cover(x, self.alpha, self.updates, self.n_seen);
    }

    proof fn refusals_join(
        self,
        middle: Self,
        x1: &Matrix,
        y1: Option<Seq<Double>>,
        x2: &Matrix,
        y2: Option<Seq<Double>>,
        x: &Matrix,
    ) {
        lemma_refusals_join(x1, x2, x, self.alpha, middle.alpha, self.updates, middle.updates, self.n_seen, middle.n_seen);
    }

    fn takes_pairs() -> (r: bool) {
        false
    }

    fn refuse(&self, x: &Matrix, y: Option<&Vec<Double>>) -> (issues: Vec<Issue>) {
        preflight(x, self.alpha, self.updates, self.n_seen)
    }

    fn is_sound(&self) -> (r: bool) {
        if self.n_seen == 0 {
            self.mean.same(zero()) && self.weight_square_sum.same(zero())
        } else {
            self.mean.is_finite() && self.weight_square_sum.is_finite() && self.weight_square_sum.gt(zero())
                && self.effective_sample_size().is_finite()
        }
    }

    fn observe(&self, left: Double, right: Double) -> (r: Result<OnlineEwMean, IssueCode>) {
        let started: bool = self.n_seen > 0;
        let mean: Double = if started {
            mean_step(self.mean, left, self.alpha)
        } else {
            left
        };
        let weight_square_sum: Double = weight_square_step(self.weight_square_sum, started, self.alpha);
        if !mean.is_finite() || !weight_square_sum.is_finite() || weight_square_sum.le(zero()) {
            Err(IssueCode::NumericalOverflow)
        } else {
            Ok(OnlineEwMean { mean, weight_square_sum, n_seen: self.n_seen + 1, ..*self })
        }
    }

    fn object(&self) -> (r: Option<IssueCode>) {
        None
    }

    fn count_round(&self) -> (r: OnlineEwMean) {
        OnlineEwMean { updates: self.updates + 1, ..*self }
    }

    fn describe(&self, before: &OnlineEwMean, batch: usize) -> (q: IncrementalQuality) {
        let size_before: Double = before.effective_sample_size();
        let size: Double = self.effective_sample_size();
        let identified: bool = self.n_seen >= 1;
        IncrementalQuality {
            effective_sample_size: size,
            forgetting_factor: Some(one().minus(self.alpha)),
            parameter_delta_norm: step_length_of(before.score(), self.score()),
            information_gain: Some(size.minus(size_before).abs()),
            still_identified: identified,
            warmup: !identified,
            ..IncrementalQuality::new(self.updates - 1, batch, self.n_seen)
        }
    }

    fn remark(&self) -> (issues: Vec<Issue>) {
        Vec::new()
    }
}

/// Exponentially weighted population variance.
///
/// The first observation has unit weight. Each later one scales the old weights
/// by `1 - alpha` and has weight `alpha`.
#[derive(Clone, Copy, Debug, PartialEq, Eq, Structural)]
pub struct OnlineEwVar {
    /// Smoothing parameter in `(0, 1]`.
    pub alpha: Double,
    /// Weighted mean.
    pub mean: Double,
    /// Weighted variance.
    pub var: Double,
    /// Sum of the squared weights.
    pub weight_square_sum: Double,
    /// Observations taken in.
    pub n_seen: u64,
    /// Batches accepted.
    pub updates: u64,
}

impl Default for OnlineEwVar {
    fn default() -> (r: OnlineEwVar)
        ensures
            r == OnlineEwVar::empty(half()),
    {
        OnlineEwVar::new(half())
    }
}

impl OnlineEwVar {
    /// The state before any observation.
    pub open spec fn empty(alpha: Double) -> OnlineEwVar {
        OnlineEwVar { alpha, mean: zero(), var: zero(), weight_square_sum: zero(), n_seen: 0, updates: 0 }
    }

    /// Construct an empty statistic with the given `alpha`.
    pub fn new(alpha: Double) -> (r: OnlineEwVar)
        ensures
            r == OnlineEwVar::empty(alpha),
    {
        OnlineEwVar { alpha, mean: zero(), var: zero(), weight_square_sum: zero(), n_seen: 0, updates: 0 }
    }

    /// The current variance, or NaN during warmup.
    pub open spec fn level(self) -> Double {
        if self.n_seen < 2 {
            nan()
        } else {
            self.var
        }
    }

    /// The current variance, or NaN during warmup.
    pub fn score(&self) -> (r: Double)
        ensures
            r == self.level(),
    {
        if self.n_seen < 2 {
            nan()
        } else {
            self.var
        }
    }

    /// Number of equally weighted observations that carry the same information.
    pub fn effective_sample_size(&self) -> (r: Double)
        ensures
            r == kish_size(self.n_seen, self.weight_square_sum),
    {
        effective_sample_size(self.n_seen, self.weight_square_sum)
    }

    /// Takes in a batch, or refuses it and changes nothing.
    pub fn partial_fit(&mut self, x: &Matrix, y: Option<&Vec<Double>>) -> (r: Result<Update, Failure>)
        requires
            x.wf(),
        ensures
            fits(*old(self), *final(self), x, target(y), r),
    {
        fit_batch(self, x, y)
    }
}

impl Accumulator for OnlineEwVar {
    open spec fn pairwise() -> bool {
        false
    }

    open spec fn seen(self) -> u64 {
        self.n_seen
    }

    open spec fn rounds(self) -> u64 {
        self.updates
    }

    open spec fn with_rounds(self, rounds: u64) -> OnlineEwVar {
        OnlineEwVar { updates: rounds, ..self }
    }

    open spec fn refusals(self, x: &Matrix, y: Option<Seq<Double>>) -> Seq<Issue> {
        weighted_refusals(x, self.alpha, self.updates, self.n_seen)
    }

    open spec fn sound(self) -> bool {
        if self.n_seen == 0 {
            self.mean.same(zero()) && self.var.same(zero()) && self.weight_square_sum.same(zero())
        } else {
            self.mean.is_finite() && self.var.is_finite() && self.var.ge(zero())
                && self.weight_square_sum.is_finite() && self.weight_square_sum.gt(zero())
                && kish_size(self.n_seen, self.weight_square_sum).is_finite()
        }
    }

    open spec fn coherent(self) -> bool {
        true
    }

    open spec fn observed(self, left: Double, right: Double) -> Result<OnlineEwVar, IssueCode> {
        let started = self.n_seen > 0;
        let decay = one().minus(self.alpha);
        let keep = started && !decay.same(zero());
        let mean = if keep {
            weighted_mean_step(self.mean, left, self.alpha)
        } else {
            left
        };
        let var = if keep {
            let scale = self.alpha.sqrt();
            let innovation = scale.times(left).minus(scale.times(self.mean));
            decay.times(self.var).plus(decay.times(innovation.times(innovation)))
        } else {
            zero()
        };
        let weight_square_sum = squared_weights(self.weight_square_sum, started, self.alpha);
        if !mean.is_finite() || !var.is_finite() || var.lt(zero()) || !weight_square_sum.is_finite() || weight_square_sum.le(
            zero(),
        ) {
            Err(IssueCode::NumericalOverflow)
        } else {
            Ok(OnlineEwVar { mean, var, weight_square_sum, n_seen: (self.n_seen + 1) as u64, ..self })
        }
    }

    open spec fn objection(self) -> Option<IssueCode> {
        None
    }

    open spec fn figures(self, before: OnlineEwVar, batch: usize) -> IncrementalQuality {
        let size_before = kish_size(before.n_seen, before.weight_square_sum);
        let size = kish_size(self.n_seen, self.weight_square_sum);
        let identified = self.n_seen >= 2 && size.gt(one());
        IncrementalQuality {
            effective_sample_size: size,
            forgetting_factor: Some(one().minus(self.alpha)),
            parameter_delta_norm: step_length(before.level(), self.level()),
            information_gain: Some(size.minus(size_before).abs()),
            still_identified: identified,
            warmup: !identified,
            ..IncrementalQuality::new((self.updates - 1) as u64, batch, self.n_seen)
        }
    }

    open spec fn remarks(self) -> Seq<Issue> {
        Seq::empty()
    }

    proof fn rounds_are_inert(self, left: Double, right: Double, rounds: u64) {
    }

    proof fn with_rounds_twice(self, first: u64, second: u64) {
    }

    proof fn observation_counts(self, left: Double, right: Double) {
    }

    proof fn refusals_cover(self, x: &Matrix, y: Option<Seq<Double>>) {
        lemma_refusals_cover(x, self.alpha, self.updates, self.n_seen);
    }

    proof fn refusals_join(
        self,
        middle: Self,
        x1: &Matrix,
        y1: Option<Seq<Double>>,
        x2: &Matrix,
        y2: Option<Seq<Double>>,
        x: &Matrix,
    ) {
        lemma_refusals_join(x1, x2, x, self.alpha, middle.alpha, self.updates, middle.updates, self.n_seen, middle.n_seen);
    }

    fn takes_pairs() -> (r: bool) {
        false
    }

    fn refuse(&self, x: &Matrix, y: Option<&Vec<Double>>) -> (issues: Vec<Issue>) {
        preflight(x, self.alpha, self.updates, self.n_seen)
    }

    fn is_sound(&self) -> (r: bool) {
        if self.n_seen == 0 {
            self.mean.same(zero()) && self.var.same(zero()) && self.weight_square_sum.same(zero())
        } else {
            self.mean.is_finite() && self.var.is_finite() && self.var.ge(zero())
                && self.weight_square_sum.is_finite() && self.weight_square_sum.gt(zero())
                && self.effective_sample_size().is_finite()
        }
    }

    fn observe(&self, left: Double, right: Double) -> (r: Result<OnlineEwVar, IssueCode>) {
        let started: bool = self.n_seen > 0;
        let decay: Double = one().minus(self.alpha);
        let keep: bool = started && !decay.same(zero());
        let mean: Double = if keep {
            mean_step(self.mean, left, self.alpha)
        } else {
            left
        };
        let var: Double = if keep {
            let scale: Double = self.alpha.sqrt();
            let innovation: Double = scale.times(left).minus(scale.times(self.mean));
            decay.times(self.var).plus(decay.times(innovation.times(innovation)))
        } else {
            zero()
        };
        let weight_square_sum: Double = weight_square_step(self.weight_square_sum, started, self.alpha);
        if !mean.is_finite() || !var.is_finite() || var.lt(zero()) || !weight_square_sum.is_finite() || weight_square_sum.le(
            zero(),
        ) {
            Err(IssueCode::NumericalOverflow)
        } else {
            Ok(OnlineEwVar { mean, var, weight_square_sum, n_seen: self.n_seen + 1, ..*self })
        }
    }

    fn object(&self) -> (r: Option<IssueCode>) {
        None
    }

    fn count_round(&self) -> (r: OnlineEwVar) {
        OnlineEwVar { updates: self.updates + 1, ..*self }
    }

    fn describe(&self, before: &OnlineEwVar, batch: usize) -> (q: IncrementalQuality) {
        let size_before: Double = before.effective_sample_size();
        let size: Double = self.effective_sample_size();
        let identified: bool = self.n_seen >= 2 && size.gt(one());
        IncrementalQuality {
            effective_sample_size: size,
            forgetting_factor: Some(one().minus(self.alpha)),
            parameter_delta_norm: step_length_of(before.score(), self.score()),
            information_gain: Some(size.minus(size_before).abs()),
            still_identified: identified,
            warmup: !identified,
            ..IncrementalQuality::new(self.updates - 1, batch, self.n_seen)
        }
    }

    fn remark(&self) -> (issues: Vec<Issue>) {
        Vec::new()
    }
}

/// With `alpha` one only the latest observation counts: the variance is zero.
pub proof fn law_full_weight_forgets(start: OnlineEwVar, value: Double)
    requires
        start.n_seen < u64::MAX,
        one().minus(start.alpha).same(zero()),
    ensures
        start.observed(value, zero()) matches Ok(next) ==> next.mean == value && next.var == zero(),
{
}

/// The first observation becomes the mean, at one effective observation.
pub proof fn law_first_observation(alpha: Double, value: Double)
    requires
        value.is_finite(),
        !invalid_alpha(alpha),
    ensures
        OnlineEwMean::empty(alpha).observed(value, zero()) == Ok::<OnlineEwMean, IssueCode>(
            OnlineEwMean { alpha, mean: value, weight_square_sum: one(), n_seen: 1, updates: 0 },
        ),
        OnlineEwVar::empty(alpha).observed(value, zero()) == Ok::<OnlineEwVar, IssueCode>(
            OnlineEwVar { alpha, mean: value, var: zero(), weight_square_sum: one(), n_seen: 1, updates: 0 },
        ),
{
}

} // verus!
