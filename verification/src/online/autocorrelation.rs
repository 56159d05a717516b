//! Lag-one autocorrelation.

use crate::data::Matrix;
use crate::double::{
    law_order_is_numeric, lemma_minus_equal, lemma_plus_zero, lemma_same_as_zero, lemma_zero_magnitude, nan, zero, Double,
};
use crate::online::accumulator::{
    fit_batch, fits, history, law_history_is_a_stream, lemma_seen, observe_all, outcome, readings, stream,
    Accumulator,
};
use crate::online::common::{
    autocorrelation_from_moments, checked_compensated_add, checked_online_covariance_step, compensated_add,
    correlation, covariance_step, finite_score_delta, lemma_preflight_covers, lemma_preflight_joins, online_moment_preflight,
    preflight_issues, score_delta, target,
};
use crate::online::moments::lemma_mean_of_equal;
use crate::online::spread::{is_constant, law_constant_does_not_vary, lemma_tracked_total, lemma_tracks, tracks, varies};
use crate::quality::{given, raise, Failure, IncrementalQuality, Issue, IssueCode, Update};
use vstd::prelude::*;

verus! {

/// Streaming lag-one sample correlation of consecutive observations.
///
/// This is the Pearson correlation of the stream without its last observation
/// and the stream without its first. A batch boundary contributes one pair.
#[derive(Clone, Copy, Debug, PartialEq, Eq, Structural)]
pub struct OnlineAutoCorr {
    /// The latest observation.
    pub last: Option<Double>,
    /// Observations taken in.
    pub n: u64,
    /// Mean of the earlier members of the pairs.
    pub mean_lagged: Double,
    /// Mean of the later members of the pairs.
    pub mean_current: Double,
    /// Sum of the products of centred members.
    pub cross: Double,
    /// Rounding error kept back from `cross`.
    pub cross_compensation: Double,
    /// Sum of squared deviations of the earlier members.
    pub lagged_m2: Double,
    /// Rounding error kept back from `lagged_m2`.
    pub lagged_m2_compensation: Double,
    /// Sum of squared deviations of the later members.
    pub current_m2: Double,
    /// Rounding error kept back from `current_m2`.
    pub current_m2_compensation: Double,
    /// Batches accepted.
    pub updates: u64,
}

impl Default for OnlineAutoCorr {
    fn default() -> (r: OnlineAutoCorr)
        ensures
            r == OnlineAutoCorr::empty(),
    {
        OnlineAutoCorr::new()
    }
}

impl OnlineAutoCorr {
    /// The state before any observation.
    pub open spec fn empty() -> OnlineAutoCorr {
        OnlineAutoCorr {
            last: None,
            n: 0,
            mean_lagged: zero(),
            mean_current: zero(),
            cross: zero(),
            cross_compensation: zero(),
            lagged_m2: zero(),
            lagged_m2_compensation: zero(),
            current_m2: zero(),
            current_m2_compensation: zero(),
            updates: 0,
        }
    }

    /// Construct an empty accumulator.
    pub fn new() -> (r: OnlineAutoCorr)
        ensures
            r == OnlineAutoCorr::empty(),
    {
        OnlineAutoCorr {
            last: None,
            n: 0,
            mean_lagged: zero(),
            mean_current: zero(),
            cross: zero(),
            cross_compensation: zero(),
            lagged_m2: zero(),
            lagged_m2_compensation: zero(),
            current_m2: zero(),
            current_m2_compensation: zero(),
            updates: 0,
        }
    }

    /// The lag-one correlation; NaN before three observations or when either
    /// member of the pairs is constant.
    pub open spec fn level(self) -> Double {
        if self.n < 3 {
            nan()
        } else {
            correlation(
                self.cross.plus(self.cross_compensation),
                self.lagged_m2.plus(self.lagged_m2_compensation),
                self.current_m2.plus(self.current_m2_compensation),
            )
        }
    }

    /// The lag-one correlation; NaN before three observations or when either
    /// member of the pairs is constant.
    pub fn score(&self) -> (r: Double)
        ensures
            r == self.level(),
    {
        if self.n < 3 {
            nan()
        } else {
            autocorrelation_from_moments(
                self.cross.plus(self.cross_compensation),
                self.lagged_m2.plus(self.lagged_m2_compensation),
                self.current_m2.plus(self.current_m2_compensation),
            )
        }
    }

    /// Whether every moment is zero.
    pub open spec fn blank(self) -> bool {
        self.mean_lagged.same(zero()) && self.mean_current.same(zero()) && self.cross.same(zero())
            && self.cross_compensation.same(zero()) && self.lagged_m2.same(zero())
            && self.lagged_m2_compensation.same(zero()) && self.current_m2.same(zero())
            && self.current_m2_compensation.same(zero())
    }

    fn zero_moments(&self) -> (r: bool)
        ensures
            r == self.blank(),
    {
        self.mean_lagged.same(zero()) && self.mean_current.same(zero()) && self.cross.same(zero())
            && self.cross_compensation.same(zero()) && self.lagged_m2.same(zero())
            && self.lagged_m2_compensation.same(zero()) && self.current_m2.same(zero())
            && self.current_m2_compensation.same(zero())
    }

    /// The moments after one more pair.
    pub open spec fn paired(self, previous: Double, current: Double) -> Result<OnlineAutoCorr, IssueCode> {
        let pairs = (self.n - 1) as u64;
        match covariance_step(pairs, self.mean_lagged, self.mean_current, previous, current) {
            Err(code) => Err(code),
            Ok((mean_lagged, mean_current, cross_increment)) => match covariance_step(
                pairs,
                self.mean_lagged,
                self.mean_lagged,
                previous,
                previous,
            ) {
                Err(code) => Err(code),
                Ok((_, _, lagged_increment)) => match covariance_step(
                    pairs,
                    self.mean_current,
                    self.mean_current,
                    current,
                    current,
                ) {
                    Err(code) => Err(code),
                    Ok((_, _, current_increment)) => if lagged_increment.lt(zero()) || current_increment.lt(zero()) {
                        Err(IssueCode::NonFiniteOutput)
                    } else {
                        OnlineAutoCorr { mean_lagged, mean_current, ..self }.accumulated(
                            cross_increment,
                            lagged_increment,
                            current_increment,
                        )
                    },
                },
            },
        }
    }

    /// The moments with one increment added to each.
    pub open spec fn accumulated(
        self,
        cross_increment: Double,
        lagged_increment: Double,
        current_increment: Double,
    ) -> Result<OnlineAutoCorr, IssueCode> {
        match compensated_add(self.cross, self.cross_compensation, cross_increment) {
            Err(code) => Err(code),
            Ok((cross, cross_compensation)) => match compensated_add(
                self.lagged_m2,
                self.lagged_m2_compensation,
                lagged_increment,
            ) {
                Err(code) => Err(code),
                Ok((lagged_m2, lagged_m2_compensation)) => match compensated_add(
                    self.current_m2,
                    self.current_m2_compensation,
                    current_increment,
                ) {
                    Err(code) => Err(code),
                    Ok((current_m2, current_m2_compensation)) => if lagged_m2.plus(lagged_m2_compensation).lt(zero())
                        || current_m2.plus(current_m2_compensation).lt(zero()) {
                        Err(IssueCode::NonFiniteOutput)
                    } else {
                        Ok(
                            OnlineAutoCorr {
                                cross,
                                cross_compensation,
                                lagged_m2,
                                lagged_m2_compensation,
                                current_m2,
                                current_m2_compensation,
                                ..self
                            },
                        )
                    },
                },
            },
        }
    }

    fn pair(&self, previous: Double, current: Double) -> (r: Result<OnlineAutoCorr, IssueCode>)
        requires
            self.n > 0,
        ensures
            r == self.paired(previous, current),
    {
        let pairs: u64 = self.n - 1;
        let (mean_lagged, mean_current, cross_increment): (Double, Double, Double) =
            match checked_online_covariance_step(pairs, self.mean_lagged, self.mean_current, previous, current) {
            Ok(step) => step,
            Err(code) => {
                return Err(code);
            },
        };
        let (_, _, lagged_increment): (Double, Double, Double) = match checked_online_covariance_step(
            pairs,
            self.mean_lagged,
            self.mean_lagged,
            previous,
            previous,
        ) {
            Ok(step) => step,
            Err(code) => {
                return Err(code);
            },
        };
        let (_, _, current_increment): (Double, Double, Double) = match checked_online_covariance_step(
            pairs,
            self.mean_current,
            self.mean_current,
            current,
            current,
        ) {
            Ok(step) => step,
            Err(code) => {
                return Err(code);
            },
        };
        if lagged_increment.lt(zero()) || current_increment.lt(zero()) {
            return Err(IssueCode::NonFiniteOutput);
        }
        let moved: OnlineAutoCorr = OnlineAutoCorr { mean_lagged, mean_current, ..*self };
        moved.accumulate(cross_increment, lagged_increment, current_increment)
    }

    fn accumulate(&self, cross_increment: Double, lagged_increment: Double, current_increment: Double) -> (r: Result<
        OnlineAutoCorr,
        IssueCode,
    >)
        ensures
            r == self.accumulated(cross_increment, lagged_increment, current_increment),
    {
        let (cross, cross_compensation): (Double, Double) = match checked_compensated_add(
            self.cross,
            self.cross_compensation,
            cross_increment,
        ) {
            Ok(next) => next,
            Err(code) => {
                return Err(code);
            },
        };
        let (lagged_m2, lagged_m2_compensation): (Double, Double) = match checked_compensated_add(
            self.lagged_m2,
            self.lagged_m2_compensation,
            lagged_increment,
        ) {
            Ok(next) => next,
            Err(code) => {
                return Err(code);
            },
        };
        let (current_m2, current_m2_compensation): (Double, Double) = match checked_compensated_add(
            self.current_m2,
            self.current_m2_compensation,
            current_increment,
        ) {
            Ok(next) => next,
            Err(code) => {
                return Err(code);
            },
        };
        if lagged_m2.plus(lagged_m2_compensation).lt(zero()) || current_m2.plus(current_m2_compensation).lt(zero()) {
            return Err(IssueCode::NonFiniteOutput);
        }
        Ok(
            OnlineAutoCorr {
                cross,
                cross_compensation,
                lagged_m2,
                lagged_m2_compensation,
                current_m2,
                current_m2_compensation,
                ..*self
            },
        )
    }

    /// Takes in a batch, or refuses it and changes nothing.
    pub fn partial_fit(&mut self, x: &Matrix, y: Option<&Vec<Double>>) -> (r: Result<Update, Failure>)
        requires
            x.wf(),
        ensures
            fits(*old(self), *final(self), x, target(y), r),
    {
        fit_batch(self, x, y)
    }
}

impl Accumulator for OnlineAutoCorr {
    open spec fn pairwise() -> bool {
        false
    }

    open spec fn seen(self) -> u64 {
        self.n
    }

    open spec fn rounds(self) -> u64 {
        self.updates
    }

    open spec fn with_rounds(self, rounds: u64) -> OnlineAutoCorr {
        OnlineAutoCorr { updates: rounds, ..self }
    }

    open spec fn refusals(self, x: &Matrix, y: Option<Seq<Double>>) -> Seq<Issue> {
        preflight_issues(x, None, false, self.updates, self.n)
    }

    open spec fn sound(self) -> bool {
        match self.last {
            None => self.n == 0 && self.blank(),
            Some(last) => last.is_finite() && (if self.n == 1 {
                self.blank()
            } else {
                self.n >= 2 && self.mean_lagged.is_finite() && self.mean_current.is_finite()
                    && self.cross.is_finite() && self.cross_compensation.is_finite()
                    && self.cross.plus(self.cross_compensation).is_finite() && self.lagged_m2.is_finite()
                    && self.lagged_m2_compensation.is_finite()
                    && self.lagged_m2.plus(self.lagged_m2_compensation).is_finite()
                    && self.lagged_m2.plus(self.lagged_m2_compensation).ge(zero()) && self.current_m2.is_finite()
                    && self.current_m2_compensation.is_finite()
                    && self.current_m2.plus(self.current_m2_compensation).is_finite()
                    && self.current_m2.plus(self.current_m2_compensation).ge(zero())
            }),
        }
    }

    open spec fn coherent(self) -> bool {
        self.last is Some ==> self.n > 0
    }

    open spec fn observed(self, left: Double, right: Double) -> Result<OnlineAutoCorr, IssueCode> {
        let moved = match self.last {
            Some(previous) => self.paired(previous, left),
            None => Ok(self),
        };
        match moved {
            Err(code) => Err(code),
            Ok(next) => Ok(OnlineAutoCorr { last: Some(left), n: (self.n + 1) as u64, ..next }),
        }
    }

    open spec fn objection(self) -> Option<IssueCode> {
        if self.n >= 3 && self.lagged_m2.plus(self.lagged_m2_compensation).gt(zero())
            && self.current_m2.plus(self.current_m2_compensation).gt(zero()) && !self.level().is_finite() {
            Some(IssueCode::NumericalOverflow)
        } else {
            None
        }
    }

    open spec fn figures(self, before: OnlineAutoCorr, batch: usize) -> IncrementalQuality {
        let pairs = (self.n - 1) as u64;
        let pairs_before = if before.n == 0 {
            0
        } else {
            (before.n - 1) as u64
        };
        IncrementalQuality {
            effective_sample_size: Double::from_u64(pairs),
            parameter_delta_norm: score_delta(before.level(), self.level()),
            information_gain: Some(Double::from_u64((pairs - pairs_before) as u64)),
            still_identified: self.level().is_finite(),
            warmup: pairs < 2,
            ..IncrementalQuality::new((self.updates - 1) as u64, batch, self.n)
        }
    }

    open spec fn remarks(self) -> Seq<Issue> {
        given(self.n >= 3
            && (self.lagged_m2.plus(self.lagged_m2_compensation).same(zero())
                || self.current_m2.plus(self.current_m2_compensation).same(zero())), IssueCode::NearZeroVariance)
    }

    proof fn rounds_are_inert(self, left: Double, right: Double, rounds: u64) {
    }

    proof fn with_rounds_twice(self, first: u64, second: u64) {
    }

    proof fn observation_counts(self, left: Double, right: Double) {
    }

    proof fn refusals_cover(self, x: &Matrix, y: Option<Seq<Double>>) {
        lemma_preflight_covers(x, None, false, self.updates, self.n);
    }

    proof fn refusals_join(
        self,
        middle: Self,
        x1: &Matrix,
        y1: Option<Seq<Double>>,
        x2: &Matrix,
        y2: Option<Seq<Double>>,
        x: &Matrix,
    ) {
        lemma_preflight_joins(x1, None, x2, None, x, false, self.updates, middle.updates, self.n, middle.n);
    }

    fn takes_pairs() -> (r: bool) {
        false
    }

    fn refuse(&self, x: &Matrix, y: Option<&Vec<Double>>) -> (issues: Vec<Issue>) {
        online_moment_preflight(x, None, false, self.updates, self.n)
    }

    fn is_sound(&self) -> (r: bool) {
        match self.last {
            None => self.n == 0 && self.zero_moments(),
            Some(last) => last.is_finite() && (if self.n == 1 {
                self.zero_moments()
            } else {
                self.n >= 2 && self.mean_lagged.is_finite() && self.mean_current.is_finite()
                    && self.cross.is_finite() && self.cross_compensation.is_finite()
                    && self.cross.plus(self.cross_compensation).is_finite() && self.lagged_m2.is_finite()
                    && self.lagged_m2_compensation.is_finite()
                    && self.lagged_m2.plus(self.lagged_m2_compensation).is_finite()
                    && self.lagged_m2.plus(self.lagged_m2_compensation).ge(zero()) && self.current_m2.is_finite()
                    && self.current_m2_compensation.is_finite()
                    && self.current_m2.plus(self.current_m2_compensation).is_finite()
                    && self.current_m2.plus(self.current_m2_compensation).ge(zero())
            }),
        }
    }

    fn observe(&self, left: Double, right: Double) -> (r: Result<OnlineAutoCorr, IssueCode>) {
        let moved: Result<OnlineAutoCorr, IssueCode> = match self.last {
            Some(previous) => self.pair(previous, left),
            None => Ok(*self),
        };
        match moved {
            Err(code) => Err(code),
            Ok(next) => Ok(OnlineAutoCorr { last: Some(left), n: self.n + 1, ..next }),
        }
    }

    fn object(&self) -> (r: Option<IssueCode>) {
        if self.n >= 3 && self.lagged_m2.plus(self.lagged_m2_compensation).gt(zero())
            && self.current_m2.plus(self.current_m2_compensation).gt(zero()) && !self.score().is_finite() {
            Some(IssueCode::NumericalOverflow)
        } else {
            None
        }
    }

    fn count_round(&self) -> (r: OnlineAutoCorr) {
        OnlineAutoCorr { updates: self.updates + 1, ..*self }
    }

    fn describe(&self, before: &OnlineAutoCorr, batch: usize) -> (q: IncrementalQuality) {
        let pairs: u64 = self.n - 1;
        let pairs_before: u64 = if before.n == 0 {
            0
        } else {
            before.n - 1
        };
        let level: Double = self.score();
        IncrementalQuality {
            effective_sample_size: Double::from_u64(pairs),
            parameter_delta_norm: finite_score_delta(before.score(), level),
            information_gain: Some(Double::from_u64(pairs - pairs_before)),
            still_identified: level.is_finite(),
            warmup: pairs < 2,
            ..IncrementalQuality::new(self.updates - 1, batch, self.n)
        }
    }

    fn remark(&self) -> (issues: Vec<Issue>) {
        let mut issues: Vec<Issue> = Vec::new();
        raise(&mut issues, self.n >= 3
            && (self.lagged_m2.plus(self.lagged_m2_compensation).same(zero())
                || self.current_m2.plus(self.current_m2_compensation).same(zero())), IssueCode::NearZeroVariance);
        assert(issues@ =~= self.remarks());
        issues
    }
}

/// A state that can be continued from stays so after every finite observation.
pub proof fn law_autocorrelation_stays_sound(start: OnlineAutoCorr, value: Double)
    requires
        start.n < u64::MAX,
        start.sound(),
        value.is_finite(),
    ensures
        start.observed(value, zero()) matches Ok(next) ==> next.sound(),
{
}

/// Before three observations the score is NaN.
pub proof fn law_score_needs_two_pairs(state: OnlineAutoCorr)
    requires
        state.n < 3,
    ensures
        state.level() == nan(),
{
}

proof fn lemma_correlation_soundness(start: OnlineAutoCorr, values: Seq<(Double, Double)>)
    requires
        start.sound(),
        start.n + values.len() <= u64::MAX,
        forall|i: int| 0 <= i < values.len() ==> (#[trigger] values[i]).0.is_finite(),
    ensures
        observe_all(start, values) matches Ok(s) ==> s.sound(),
    decreases values.len(),
{
    if values.len() > 0 {
        let earlier = values.drop_last();
        assert forall|i: int| 0 <= i < earlier.len() implies (#[trigger] earlier[i]).0.is_finite() by {
            assert(earlier[i] == values[i]);
        }
        lemma_correlation_soundness(start, earlier);
        lemma_seen(start, earlier);
        match observe_all(start, earlier) {
            Ok(s) => {
                law_autocorrelation_stays_sound(s, values.last().0);
            },
            Err(_) => {},
        }
    }
}

/// What holds between batches: the moments can be continued from, and the score is
/// finite wherever it is defined.
pub open spec fn settled(s: OnlineAutoCorr) -> bool {
    s.sound() && s.objection() is None
}

proof fn lemma_batch_settles(s: OnlineAutoCorr, x: &Matrix, y: Option<Seq<Double>>)
    requires
        outcome(s, x, y) is Ok,
    ensures
        settled(outcome(s, x, y)->Ok_0),
{
    lemma_preflight_covers(x, None, false, s.updates, s.n);
    let values = readings(x, y, false);
    assert forall|i: int| 0 <= i < values.len() implies (#[trigger] values[i]).0.is_finite() by {
        assert(!crate::online::common::bad_row(x, None, false, i));
    }
    lemma_correlation_soundness(s, values);
}

proof fn lemma_history_settles(batches: Seq<(Matrix, Option<Seq<Double>>)>)
    ensures
        settled(history(OnlineAutoCorr::empty(), batches)),
    decreases batches.len(),
{
    if batches.len() > 0 {
        let s = history(OnlineAutoCorr::empty(), batches.drop_last());
        lemma_history_settles(batches.drop_last());
        if outcome(s, &batches.last().0, batches.last().1) is Ok {
            lemma_batch_settles(s, &batches.last().0, batches.last().1);
        }
    }
}

/// Whether one of the two sums of squares is zero.
pub open spec fn lacks_spread(s: OnlineAutoCorr) -> bool {
    s.lagged_m2.plus(s.lagged_m2_compensation).same(zero()) || s.current_m2.plus(s.current_m2_compensation).same(
        zero(),
    )
}

proof fn lemma_settled_score(s: OnlineAutoCorr)
    requires
        settled(s),
        s.n >= 3,
    ensures
        s.level().is_nan() <==> lacks_spread(s),
        !s.level().is_nan() ==> s.level().is_finite(),
{
    let z = zero();
    assert(z.code() == 0);
    let a = s.lagged_m2.plus(s.lagged_m2_compensation);
    let b = s.current_m2.plus(s.current_m2_compensation);
    law_order_is_numeric(a, z);
    law_order_is_numeric(b, z);
    law_order_is_numeric(z, a);
    law_order_is_numeric(z, b);
}

/// The score is NaN exactly before three observations or where one of the two sums of
/// squares is zero, whatever batches came, refused ones among them; otherwise it is
/// finite.
pub proof fn law_score_after_any_batches(batches: Seq<(Matrix, Option<Seq<Double>>)>)
    ensures
        ({
            let s = history(OnlineAutoCorr::empty(), batches);
            &&& s.n == stream(OnlineAutoCorr::empty(), batches).len()
            &&& s.level().is_nan() <==> s.n < 3 || lacks_spread(s)
            &&& !s.level().is_nan() ==> s.level().is_finite()
        }),
{
    let s = history(OnlineAutoCorr::empty(), batches);
    law_history_is_a_stream(OnlineAutoCorr::empty(), batches);
    lemma_history_settles(batches);
    if s.n >= 3 {
        lemma_settled_score(s);
    }
}

/// The observations of a stream.
pub open spec fn observations(values: Seq<(Double, Double)>) -> Seq<Double> {
    Seq::new(values.len(), |i: int| values[i].0)
}

proof fn lemma_stream_is_finite(batches: Seq<(Matrix, Option<Seq<Double>>)>)
    ensures
        forall|i: int|
            0 <= i < stream(OnlineAutoCorr::empty(), batches).len() ==> (#[trigger] stream(
                OnlineAutoCorr::empty(),
                batches,
            )[i]).0.is_finite(),
    decreases batches.len(),
{
    if batches.len() > 0 {
        let earlier = stream(OnlineAutoCorr::empty(), batches.drop_last());
        let before = history(OnlineAutoCorr::empty(), batches.drop_last());
        let x = &batches.last().0;
        let y = batches.last().1;
        lemma_stream_is_finite(batches.drop_last());
        if outcome(before, x, y) is Ok {
            lemma_preflight_covers(x, None, false, before.updates, before.n);
            let values = readings(x, y, false);
            let all = earlier + values;
            assert forall|i: int| 0 <= i < all.len() implies (#[trigger] all[i]).0.is_finite() by {
                if i >= earlier.len() {
                    assert(all[i] == values[i - earlier.len()]);
                    assert(!crate::online::common::bad_row(x, None, false, i - earlier.len()));
                }
            }
        }
    }
}

proof fn lemma_sums_track(values: Seq<(Double, Double)>)
    requires
        forall|i: int| 0 <= i < values.len() ==> (#[trigger] values[i]).0.is_finite(),
        0 < values.len() <= 0x100_0000_0000,
        observe_all(OnlineAutoCorr::empty(), values) is Ok,
    ensures
        ({
            let s = observe_all(OnlineAutoCorr::empty(), values)->Ok_0;
            let z = observations(values);
            &&& s.n == values.len()
            &&& s.last == Some(z.last())
            &&& tracks(z.drop_last(), s.mean_lagged, s.lagged_m2, s.lagged_m2_compensation)
            &&& tracks(z.skip(1), s.mean_current, s.current_m2, s.current_m2_compensation)
        }),
    decreases values.len(),
{
    let earlier = values.drop_last();
    let z = observations(values);
    let was = observations(earlier);
    let v = values.last().0;
    assert forall|i: int| 0 <= i < earlier.len() implies (#[trigger] earlier[i]).0.is_finite() by {
        assert(earlier[i] == values[i]);
    }
    lemma_seen(OnlineAutoCorr::empty(), values);
    lemma_seen(OnlineAutoCorr::empty(), earlier);
    if values.len() == 1 {
        let nothing = zero();
        assert(nothing.code() == 0);
        lemma_zero_magnitude(nothing);
        assert(earlier =~= Seq::empty());
        assert(z.drop_last().len() == 0 && z.skip(1).len() == 0);
        assert(observe_all(OnlineAutoCorr::empty(), earlier) == Ok::<OnlineAutoCorr, IssueCode>(
            OnlineAutoCorr::empty(),
        ));
    } else {
        lemma_sums_track(earlier);
        let s = observe_all(OnlineAutoCorr::empty(), earlier)->Ok_0;
        let previous = was.last();
        assert(previous == earlier.last().0);
        assert(z.drop_last() =~= was.drop_last().push(previous));
        assert(z.skip(1) =~= was.skip(1).push(v));
        lemma_tracks(was.drop_last(), s.mean_lagged, s.lagged_m2, s.lagged_m2_compensation, previous);
        lemma_tracks(was.skip(1), s.mean_current, s.current_m2, s.current_m2_compensation, v);
    }
}

/// The score is NaN exactly before three observations or where the observations without
/// the last, or those without the first, do not vary; otherwise it is finite. Whatever
/// batches came, refused ones among them, as long as they hold no more than `2^40`
/// accepted observations.
pub proof fn law_score_needs_variation(batches: Seq<(Matrix, Option<Seq<Double>>)>)
    requires
        stream(OnlineAutoCorr::empty(), batches).len() <= 0x100_0000_0000,
    ensures
        ({
            let s = history(OnlineAutoCorr::empty(), batches);
            let z = observations(stream(OnlineAutoCorr::empty(), batches));
            &&& s.n == z.len()
            &&& s.level().is_nan() <==> z.len() < 3 || !varies(z.drop_last()) || !varies(z.skip(1))
            &&& !s.level().is_nan() ==> s.level().is_finite()
        }),
{
    let values = stream(OnlineAutoCorr::empty(), batches);
    law_score_after_any_batches(batches);
    law_history_is_a_stream(OnlineAutoCorr::empty(), batches);
    lemma_stream_is_finite(batches);
    lemma_history_settles(batches);
    if values.len() >= 3 {
        let s = history(OnlineAutoCorr::empty(), batches);
        let z = observations(values);
        lemma_sums_track(values);
        lemma_tracked_total(z.drop_last(), s.mean_lagged, s.lagged_m2, s.lagged_m2_compensation);
        lemma_tracked_total(z.skip(1), s.mean_current, s.current_m2, s.current_m2_compensation);
    }
}

/// The score is NaN exactly before three observations or where the observations without
/// the last, or those without the first, are all the same number; otherwise it is finite.
/// Left out are observations that differ and yet do not vary: each new one is so close to
/// the running mean that the mean rounds to it.
pub proof fn law_score_of_series(batches: Seq<(Matrix, Option<Seq<Double>>)>)
    requires
        stream(OnlineAutoCorr::empty(), batches).len() <= 0x100_0000_0000,
        ({
            let z = observations(stream(OnlineAutoCorr::empty(), batches));
            ||| z.len() < 3
            ||| is_constant(z.drop_last())
            ||| is_constant(z.skip(1))
            ||| varies(z.drop_last()) && varies(z.skip(1))
        }),
    ensures
        ({
            let s = history(OnlineAutoCorr::empty(), batches);
            let z = observations(stream(OnlineAutoCorr::empty(), batches));
            &&& s.n == z.len()
            &&& s.level().is_nan() <==> z.len() < 3 || is_constant(z.drop_last()) || is_constant(z.skip(1))
            &&& !s.level().is_nan() ==> s.level().is_finite()
        }),
{
    let z = observations(stream(OnlineAutoCorr::empty(), batches));
    law_score_needs_variation(batches);
    if z.len() >= 3 {
        if is_constant(z.drop_last()) {
            law_constant_does_not_vary(z.drop_last());
        }
        if is_constant(z.skip(1)) {
            law_constant_does_not_vary(z.skip(1));
        }
    }
}

/// The state after `n` equal observations.
pub open spec fn flat_state(v: Double, n: nat, s: OnlineAutoCorr) -> bool {
    &&& s.n == n
    &&& s.last == Some(v)
    &&& s.cross == zero() && s.cross_compensation == zero()
    &&& s.lagged_m2 == zero() && s.lagged_m2_compensation == zero()
    &&& s.current_m2 == zero() && s.current_m2_compensation == zero()
    &&& n >= 2 ==> is_level(s.mean_lagged, v) && is_level(s.mean_current, v)
}

/// A mean of equal observations.
pub open spec fn is_level(mean: Double, v: Double) -> bool {
    mean == v || (v.code() == 0 && mean.code() == 0)
}

proof fn lemma_level_step(n: u64, mean: Double, v: Double)
    requires
        v.finite(),
        0 < n < u64::MAX,
        is_level(mean, v),
    ensures
        is_level(crate::online::common::mean_step(mean, v, (n + 1) as u64), v),
        covariance_step(n, mean, mean, v, v) is Ok,
        covariance_step(n, mean, mean, v, v)->Ok_0.2 == zero(),
{
    lemma_mean_of_equal(mean, v, (n + 1) as u64);
    lemma_same_as_zero(v, mean);
    lemma_minus_equal(v, mean);
    lemma_same_as_zero(v.minus(mean), zero());
}

/// A constant series has no correlation: both sums of squares stay zero, and the score
/// is NaN.
pub proof fn law_constant_series(v: Double, n: nat)
    requires
        v.is_finite(),
        0 < n <= u64::MAX,
    ensures
        observe_all(OnlineAutoCorr::empty(), Seq::new(n, |i: int| (v, zero()))) is Ok,
        flat_state(v, n, observe_all(OnlineAutoCorr::empty(), Seq::new(n, |i: int| (v, zero())))->Ok_0),
        observe_all(OnlineAutoCorr::empty(), Seq::new(n, |i: int| (v, zero())))->Ok_0.level() == nan(),
    decreases n,
{
    let values = Seq::new(n, |i: int| (v, zero()));
    let earlier = values.drop_last();
    let z = zero();
    assert(z.code() == 0);
    assert(z.abs() == z);
    lemma_minus_equal(z, z);
    lemma_plus_zero(z, z);
    if n == 1 {
        assert(earlier =~= Seq::empty());
        assert(observe_all(OnlineAutoCorr::empty(), earlier) == Ok::<OnlineAutoCorr, IssueCode>(
            OnlineAutoCorr::empty(),
        ));
    } else {
        law_constant_series(v, (n - 1) as nat);
        assert(earlier =~= Seq::new((n - 1) as nat, |i: int| (v, zero())));
        let s = observe_all(OnlineAutoCorr::empty(), earlier)->Ok_0;
        let pairs = (s.n - 1) as u64;
        if pairs > 0 {
            lemma_level_step(pairs, s.mean_lagged, v);
            lemma_level_step(pairs, s.mean_current, v);
            lemma_same_as_zero(v, s.mean_lagged);
            lemma_minus_equal(v, s.mean_lagged);
            lemma_same_as_zero(v.minus(s.mean_lagged), z);
        }
    }
}

} // verus!
