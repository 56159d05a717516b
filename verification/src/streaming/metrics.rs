//! Rolling metrics of predictions against targets.

use crate::constants::{below_one, half, ten_to_minus_12, ten_to_minus_15, ten_to_minus_18, ten_to_minus_9, two};
use crate::data::Matrix;
use crate::double::{
    halves, lemma_halves_add, lemma_halves_over_whole, lemma_small_halves, nan, one, signed, zero, Double,
};
use crate::functions::{apply, curve, is_function, Curve};
use crate::online::common::target;
use crate::quality::{given, issue, raise, IncrementalQuality, Issue, IssueCode, Update};
use crate::rounding::round_code;
use crate::streaming::columns::{plain_report, rejection, reports};
use vstd::arithmetic::power2::pow2;
use vstd::prelude::*;

verus! {

/// A metric that takes in one pair of prediction and target at a time.
pub trait PairMetric: Sized + Copy {
    /// The metric after one more pair.
    spec fn paired(self, pred: Double, truth: Double) -> Self;

    /// The current value.
    spec fn level(self) -> Double;

    /// Pairs that the metric counts as seen.
    spec fn seen(self) -> u64;

    /// Pairs taken in.
    spec fn rounds(self) -> u64;

    /// The largest counter.
    spec fn load(self) -> u64;

    /// Executable `paired`.
    fn pair(&self, pred: Double, truth: Double) -> (r: Self)
        requires
            self.load() < u64::MAX,
        ensures
            r == self.paired(pred, truth),
            r.load() <= self.load() + 1,
    ;

    /// Executable `level`.
    fn read(&self) -> (r: Double)
        ensures
            r == self.level(),
    ;

    /// Executable `seen`.
    fn get_seen(&self) -> (r: u64)
        ensures
            r == self.seen(),
    ;

    /// Executable `rounds`.
    fn get_rounds(&self) -> (r: u64)
        ensures
            r == self.rounds(),
    ;
}

/// The metric after the first `k` rows.
pub open spec fn metric_after<M: PairMetric>(start: M, x: &Matrix, y: Seq<Double>, k: nat) -> M
    decreases k,
{
    if k == 0 {
        start
    } else {
        metric_after(start, x, y, (k - 1) as nat).paired(x.at(k - 1, 0), y[k - 1])
    }
}

/// Rows that have both a prediction and a target.
pub open spec fn pair_count(x: &Matrix, y: Seq<Double>) -> nat {
    if y.len() < x.height() {
        y.len()
    } else {
        x.height()
    }
}

/// Quality figures after `after_n` pairs, with the latest value of the metric.
pub open spec fn metric_figures(rounds: u64, batch: usize, after_n: u64, last: Double) -> IncrementalQuality {
    IncrementalQuality {
        effective_sample_size: Double::from_u64(after_n),
        parameter_delta_norm: Some(zero()),
        information_gain: Some(Double::from_usize(batch)),
        still_identified: after_n > 1,
        warmup: after_n < 2,
        loss_after: Some(last),
        ..IncrementalQuality::new(rounds, batch, after_n)
    }
}

/// The report on a batch of pairs.
pub open spec fn metric_reports(
    r: &Update,
    rounds: u64,
    seen: u64,
    x: &Matrix,
    y: Option<Seq<Double>>,
    last: Double,
) -> bool {
    match y {
        None => reports(
            r,
            IncrementalQuality::new(rounds, x.height() as usize, seen),
            seq![issue(IssueCode::MissingTarget)],
            false,
        ),
        Some(t) => {
            let after_n = (seen + pair_count(x, t)) as u64;
            reports(
                r,
                metric_figures(rounds, x.height() as usize, after_n, last),
                given(t.len() != x.height(), IssueCode::DimensionMismatch) + given(
                    after_n < 2,
                    IssueCode::WarmupIncomplete,
                ),
                false,
            )
        },
    }
}

/// What `metric_partial` does to a metric and reports.
pub open spec fn metric_answers<M: PairMetric>(before: M, after: M, x: &Matrix, y: Option<Seq<Double>>, r: &Update) -> bool {
    match y {
        None => {
            &&& after == before
            &&& metric_reports(r, before.rounds(), before.seen(), x, y, nan())
        },
        Some(t) => {
            &&& after == metric_after(before, x, t, pair_count(x, t))
            &&& metric_reports(
                r,
                before.rounds(),
                before.seen(),
                x,
                y,
                if pair_count(x, t) == 0 {
                    nan()
                } else {
                    after.level()
                },
            )
        },
    }
}

/// The inputs that a metric can take in: a column of predictions, and counters
/// with room for them.
pub open spec fn metric_accepts<M: PairMetric>(m: M, x: &Matrix, y: Option<Seq<Double>>) -> bool {
    &&& x.wf()
    &&& y matches Some(t) ==> {
        &&& pair_count(x, t) > 0 ==> x.width > 0
        &&& m.load() + pair_count(x, t) <= u64::MAX
        &&& m.seen() + pair_count(x, t) <= u64::MAX
    }
}

/// Takes in a batch of pairs: column 0 against the target.
pub fn metric_partial<M: PairMetric>(metric: &mut M, x: &Matrix, y: Option<&Vec<Double>>) -> (r: Update)
    requires
        metric_accepts(*old(metric), x, target(y)),
    ensures
        metric_answers(*old(metric), *final(metric), x, target(y), &r),
{
    let before: M = *metric;
    match y {
        None => {
            let mut issues: Vec<Issue> = Vec::new();
            issues.push(issue(IssueCode::MissingTarget));
            assert(issues@ =~= seq![issue(IssueCode::MissingTarget)]);
            rejection(before.get_rounds(), x.nrows(), before.get_seen(), issues)
        },
        Some(t) => {
            let k: usize = if t.len() < x.nrows() {
                t.len()
            } else {
                x.nrows()
            };
            let mut m: M = before;
            let mut last: Double = nan();
            let mut i: usize = 0;
            while i < k
                invariant
                    i <= k,
                    k == pair_count(x, t@),
                    x.wf(),
                    k > 0 ==> x.width > 0,
                    m == metric_after(before, x, t@, i as nat),
                    before.load() + k <= u64::MAX,
                    m.load() <= before.load() + i,
                    last == if i == 0 {
                        nan()
                    } else {
                        m.level()
                    },
                decreases k - i,
            {
                m = m.pair(x.get(i, 0), t[i]);
                last = m.read();
                i = i + 1;
            }
            *metric = m;
            report_pairs(before.get_rounds(), before.get_seen(), x, t, last)
        },
    }
}

fn report_pairs(rounds: u64, seen: u64, x: &Matrix, t: &Vec<Double>, last: Double) -> (r: Update)
    requires
        seen + pair_count(x, t@) <= u64::MAX,
    ensures
        metric_reports(&r, rounds, seen, x, Some(t@), last),
{
    let k: usize = if t.len() < x.nrows() {
        t.len()
    } else {
        x.nrows()
    };
    let after_n: u64 = seen + k as u64;
    let mut issues: Vec<Issue> = Vec::new();
    raise(&mut issues, t.len() != x.nrows(), IssueCode::DimensionMismatch);
    raise(&mut issues, after_n < 2, IssueCode::WarmupIncomplete);
    assert(issues@ =~= given(t@.len() != x.height(), IssueCode::DimensionMismatch) + given(
        after_n < 2,
        IssueCode::WarmupIncomplete,
    ));
    let quality = IncrementalQuality {
        effective_sample_size: Double::from_u64(after_n),
        parameter_delta_norm: Some(zero()),
        information_gain: Some(Double::from_usize(x.nrows())),
        still_identified: after_n > 1,
        warmup: after_n < 2,
        loss_after: Some(last),
        ..IncrementalQuality::new(rounds, x.nrows(), after_n)
    };
    plain_report(quality, issues)
}

/// Pairs of two batches in a row count as those of one batch.
pub proof fn law_pairs_join<M: PairMetric>(start: M, x: &Matrix, y: Seq<Double>, x1: &Matrix, y1: Seq<Double>, x2: &Matrix, y2: Seq<Double>, a: nat, b: nat)
    requires
        forall|i: int| 0 <= i < a ==> (#[trigger] x.at(i, 0)) == x1.at(i, 0) && y[i] == y1[i],
        forall|i: int| 0 <= i < b ==> x.at(a + i, 0) == (#[trigger] x2.at(i, 0)) && y[a + i] == y2[i],
    ensures
        metric_after(start, x, y, a + b) == metric_after(metric_after(start, x1, y1, a), x2, y2, b),
    decreases a + b,
{
    if b > 0 {
        law_pairs_join(start, x, y, x1, y1, x2, y2, a, (b - 1) as nat);
        assert(x2.at(b - 1, 0) == x.at(a + (b - 1), 0));
    } else if a > 0 {
        law_pairs_join(start, x, y, x1, y1, x2, y2, (a - 1) as nat, 0);
        assert(x.at(a - 1, 0) == x1.at(a - 1, 0));
    }
}

/// Share of predictions that round to the label.
#[derive(Clone, Copy, Debug, PartialEq, Eq, Structural)]
pub struct OnlineAccuracy {
    /// Correct predictions.
    pub correct: u64,
    /// Pairs taken in.
    pub n: u64,
    /// Pairs taken in over all batches.
    pub updates: u64,
}

impl Default for OnlineAccuracy {
    fn default() -> (r: OnlineAccuracy)
        ensures
            r == OnlineAccuracy::empty(),
    {
        OnlineAccuracy::new()
    }
}

impl OnlineAccuracy {
    /// The metric before any pair.
    pub open spec fn empty() -> OnlineAccuracy {
        OnlineAccuracy { correct: 0, n: 0, updates: 0 }
    }

    /// An empty metric.
    pub fn new() -> (r: OnlineAccuracy)
        ensures
            r == OnlineAccuracy::empty(),
    {
        OnlineAccuracy { correct: 0, n: 0, updates: 0 }
    }

    /// Current accuracy, or NaN when empty.
    pub fn score(&self) -> (r: Double)
        ensures
            r == self.level(),
    {
        self.read()
    }

    /// Takes in a batch of pairs: column 0 against the target.
    pub fn partial_fit(&mut self, x: &Matrix, y: Option<&Vec<Double>>) -> (r: Update)
        requires
            metric_accepts(*old(self), x, target(y)),
        ensures
            metric_answers(*old(self), *final(self), x, target(y), &r),
    {
        metric_partial(self, x, y)
    }
}

impl PairMetric for OnlineAccuracy {
    open spec fn paired(self, pred: Double, truth: Double) -> OnlineAccuracy {
        let hit = pred.round().minus(truth.round()).abs().lt(ten_to_minus_9());
        OnlineAccuracy {
            correct: if hit {
                (self.correct + 1) as u64
            } else {
                self.correct
            },
            n: (self.n + 1) as u64,
            updates: (self.updates + 1) as u64,
        }
    }

    open spec fn level(self) -> Double {
        if self.n == 0 {
            nan()
        } else {
            Double::from_u64(self.correct).over(Double::from_u64(self.n))
        }
    }

    open spec fn seen(self) -> u64 {
        self.n
    }

    open spec fn rounds(self) -> u64 {
        self.updates
    }

    open spec fn load(self) -> u64 {
        if self.correct < self.n {
            if self.n < self.updates {
                self.updates
            } else {
                self.n
            }
        } else if self.correct < self.updates {
            self.updates
        } else {
            self.correct
        }
    }

    fn pair(&self, pred: Double, truth: Double) -> (r: OnlineAccuracy) {
        let hit: bool = pred.round().minus(truth.round()).abs().lt(ten_to_minus_9());
        OnlineAccuracy {
            correct: if hit {
                self.correct + 1
            } else {
                self.correct
            },
            n: self.n + 1,
            updates: self.updates + 1,
        }
    }

    fn read(&self) -> (r: Double) {
        if self.n == 0 {
            nan()
        } else {
            Double::from_u64(self.correct).over(Double::from_u64(self.n))
        }
    }

    fn get_seen(&self) -> (r: u64) {
        self.n
    }

    fn get_rounds(&self) -> (r: u64) {
        self.updates
    }
}

/// Mean squared error.
#[derive(Clone, Copy, Debug, PartialEq, Eq, Structural)]
pub struct OnlineMse {
    /// Sum of squared errors.
    pub sse: Double,
    /// Pairs taken in.
    pub n: u64,
    /// Pairs taken in over all batches.
    pub updates: u64,
}

impl Default for OnlineMse {
    fn default() -> (r: OnlineMse)
        ensures
            r == OnlineMse::empty(),
    {
        OnlineMse::new()
    }
}

impl OnlineMse {
    /// The metric before any pair.
    pub open spec fn empty() -> OnlineMse {
        OnlineMse { sse: zero(), n: 0, updates: 0 }
    }

    /// An empty metric.
    pub fn new() -> (r: OnlineMse)
        ensures
            r == OnlineMse::empty(),
    {
        OnlineMse { sse: zero(), n: 0, updates: 0 }
    }

    /// Current mean squared error, or NaN when empty.
    pub fn score(&self) -> (r: Double)
        ensures
            r == self.level(),
    {
        self.read()
    }

    /// Takes in a batch of pairs: column 0 against the target.
    pub fn partial_fit(&mut self, x: &Matrix, y: Option<&Vec<Double>>) -> (r: Update)
        requires
            metric_accepts(*old(self), x, target(y)),
        ensures
            metric_answers(*old(self), *final(self), x, target(y), &r),
    {
        metric_partial(self, x, y)
    }
}

impl PairMetric for OnlineMse {
    open spec fn paired(self, pred: Double, truth: Double) -> OnlineMse {
        let e = pred.minus(truth);
        OnlineMse { sse: self.sse.plus(e.times(e)), n: (self.n + 1) as u64, updates: (self.updates + 1) as u64 }
    }

    open spec fn level(self) -> Double {
        if self.n == 0 {
            nan()
        } else {
            self.sse.over(Double::from_u64(self.n))
        }
    }

    open spec fn seen(self) -> u64 {
        self.n
    }

    open spec fn rounds(self) -> u64 {
        self.updates
    }

    open spec fn load(self) -> u64 {
        if self.n < self.updates {
            self.updates
        } else {
            self.n
        }
    }

    fn pair(&self, pred: Double, truth: Double) -> (r: OnlineMse) {
        let e: Double = pred.minus(truth);
        OnlineMse { sse: self.sse.plus(e.times(e)), n: self.n + 1, updates: self.updates + 1 }
    }

    fn read(&self) -> (r: Double) {
        if self.n == 0 {
            nan()
        } else {
            self.sse.over(Double::from_u64(self.n))
        }
    }

    fn get_seen(&self) -> (r: u64) {
        self.n
    }

    fn get_rounds(&self) -> (r: u64) {
        self.updates
    }
}

/// Root mean squared error.
#[derive(Clone, Copy, Debug, PartialEq, Eq, Structural)]
pub struct OnlineRmse {
    /// Sum of squared errors.
    pub sse: Double,
    /// Pairs taken in.
    pub n: u64,
    /// Pairs taken in over all batches.
    pub updates: u64,
}

impl Default for OnlineRmse {
    fn default() -> (r: OnlineRmse)
        ensures
            r == OnlineRmse::empty(),
    {
        OnlineRmse::new()
    }
}

impl OnlineRmse {
    /// The metric before any pair.
    pub open spec fn empty() -> OnlineRmse {
        OnlineRmse { sse: zero(), n: 0, updates: 0 }
    }

    /// An empty metric.
    pub fn new() -> (r: OnlineRmse)
        ensures
            r == OnlineRmse::empty(),
    {
        OnlineRmse { sse: zero(), n: 0, updates: 0 }
    }

    /// Current root mean squared error, or NaN when empty.
    pub fn score(&self) -> (r: Double)
        ensures
            r == self.level(),
    {
        self.read()
    }

    /// Takes in a batch of pairs: column 0 against the target.
    pub fn partial_fit(&mut self, x: &Matrix, y: Option<&Vec<Double>>) -> (r: Update)
        requires
            metric_accepts(*old(self), x, target(y)),
        ensures
            metric_answers(*old(self), *final(self), x, target(y), &r),
    {
        metric_partial(self, x, y)
    }
}

impl PairMetric for OnlineRmse {
    open spec fn paired(self, pred: Double, truth: Double) -> OnlineRmse {
        let e = pred.minus(truth);
        OnlineRmse { sse: self.sse.plus(e.times(e)), n: (self.n + 1) as u64, updates: (self.updates + 1) as u64 }
    }

    open spec fn level(self) -> Double {
        if self.n == 0 {
            nan()
        } else {
            self.sse.over(Double::from_u64(self.n)).sqrt()
        }
    }

    open spec fn seen(self) -> u64 {
        self.n
    }

    open spec fn rounds(self) -> u64 {
        self.updates
    }

    open spec fn load(self) -> u64 {
        if self.n < self.updates {
            self.updates
        } else {
            self.n
        }
    }

    fn pair(&self, pred: Double, truth: Double) -> (r: OnlineRmse) {
        let e: Double = pred.minus(truth);
        OnlineRmse { sse: self.sse.plus(e.times(e)), n: self.n + 1, updates: self.updates + 1 }
    }

    fn read(&self) -> (r: Double) {
        if self.n == 0 {
            nan()
        } else {
            self.sse.over(Double::from_u64(self.n)).sqrt()
        }
    }

    fn get_seen(&self) -> (r: u64) {
        self.n
    }

    fn get_rounds(&self) -> (r: u64) {
        self.updates
    }
}

/// Mean absolute error.
#[derive(Clone, Copy, Debug, PartialEq, Eq, Structural)]
pub struct OnlineMae {
    /// Sum of absolute errors.
    pub sae: Double,
    /// Pairs taken in.
    pub n: u64,
    /// Pairs taken in over all batches.
    pub updates: u64,
}

impl Default for OnlineMae {
    fn default() -> (r: OnlineMae)
        ensures
            r == OnlineMae::empty(),
    {
        OnlineMae::new()
    }
}

impl OnlineMae {
    /// The metric before any pair.
    pub open spec fn empty() -> OnlineMae {
        OnlineMae { sae: zero(), n: 0, updates: 0 }
    }

    /// An empty metric.
    pub fn new() -> (r: OnlineMae)
        ensures
            r == OnlineMae::empty(),
    {
        OnlineMae { sae: zero(), n: 0, updates: 0 }
    }

    /// Current mean absolute error, or NaN when empty.
    pub fn score(&self) -> (r: Double)
        ensures
            r == self.level(),
    {
        self.read()
    }

    /// Takes in a batch of pairs: column 0 against the target.
    pub fn partial_fit(&mut self, x: &Matrix, y: Option<&Vec<Double>>) -> (r: Update)
        requires
            metric_accepts(*old(self), x, target(y)),
        ensures
            metric_answers(*old(self), *final(self), x, target(y), &r),
    {
        metric_partial(self, x, y)
    }
}

impl PairMetric for OnlineMae {
    open spec fn paired(self, pred: Double, truth: Double) -> OnlineMae {
        OnlineMae { sae: self.sae.plus(pred.minus(truth).abs()), n: (self.n + 1) as u64, updates: (self.updates + 1) as u64 }
    }

    open spec fn level(self) -> Double {
        if self.n == 0 {
            nan()
        } else {
            self.sae.over(Double::from_u64(self.n))
        }
    }

    open spec fn seen(self) -> u64 {
        self.n
    }

    open spec fn rounds(self) -> u64 {
        self.updates
    }

    open spec fn load(self) -> u64 {
        if self.n < self.updates {
            self.updates
        } else {
            self.n
        }
    }

    fn pair(&self, pred: Double, truth: Double) -> (r: OnlineMae) {
        OnlineMae { sae: self.sae.plus(pred.minus(truth).abs()), n: self.n + 1, updates: self.updates + 1 }
    }

    fn read(&self) -> (r: Double) {
        if self.n == 0 {
            nan()
        } else {
            self.sae.over(Double::from_u64(self.n))
        }
    }

    fn get_seen(&self) -> (r: u64) {
        self.n
    }

    fn get_rounds(&self) -> (r: u64) {
        self.updates
    }
}

/// Coefficient of determination.
#[derive(Clone, Copy, Debug, PartialEq, Eq, Structural)]
pub struct OnlineR2 {
    /// Sum of squared errors.
    pub sse: Double,
    /// Sum of targets.
    pub sy: Double,
    /// Sum of squared targets.
    pub sy2: Double,
    /// Pairs taken in.
    pub n: u64,
    /// Pairs taken in over all batches.
    pub updates: u64,
}

impl Default for OnlineR2 {
    fn default() -> (r: OnlineR2)
        ensures
            r == OnlineR2::empty(),
    {
        OnlineR2::new()
    }
}

impl OnlineR2 {
    /// The metric before any pair.
    pub open spec fn empty() -> OnlineR2 {
        OnlineR2 { sse: zero(), sy: zero(), sy2: zero(), n: 0, updates: 0 }
    }

    /// An empty metric.
    pub fn new() -> (r: OnlineR2)
        ensures
            r == OnlineR2::empty(),
    {
        OnlineR2 { sse: zero(), sy: zero(), sy2: zero(), n: 0, updates: 0 }
    }

    /// Current coefficient of determination, or NaN when unidentified.
    pub fn score(&self) -> (r: Double)
        ensures
            r == self.level(),
    {
        self.read()
    }

    /// Takes in a batch of pairs: column 0 against the target.
    pub fn partial_fit(&mut self, x: &Matrix, y: Option<&Vec<Double>>) -> (r: Update)
        requires
            metric_accepts(*old(self), x, target(y)),
        ensures
            metric_answers(*old(self), *final(self), x, target(y), &r),
    {
        metric_partial(self, x, y)
    }
}

impl PairMetric for OnlineR2 {
    open spec fn paired(self, pred: Double, truth: Double) -> OnlineR2 {
        let e = pred.minus(truth);
        OnlineR2 {
            sse: self.sse.plus(e.times(e)),
            sy: self.sy.plus(truth),
            sy2: self.sy2.plus(truth.times(truth)),
            n: (self.n + 1) as u64,
            updates: (self.updates + 1) as u64,
        }
    }

    open spec fn level(self) -> Double {
        if self.n < 2 {
            nan()
        } else {
            let mean = self.sy.over(Double::from_u64(self.n));
            let sst = self.sy2.minus(Double::from_u64(self.n).times(mean).times(mean));
            if sst.abs().le(ten_to_minus_15()) {
                nan()
            } else {
                one().minus(self.sse.over(sst))
            }
        }
    }

    open spec fn seen(self) -> u64 {
        self.n
    }

    open spec fn rounds(self) -> u64 {
        self.updates
    }

    open spec fn load(self) -> u64 {
        if self.n < self.updates {
            self.updates
        } else {
            self.n
        }
    }

    fn pair(&self, pred: Double, truth: Double) -> (r: OnlineR2) {
        let e: Double = pred.minus(truth);
        OnlineR2 {
            sse: self.sse.plus(e.times(e)),
            sy: self.sy.plus(truth),
            sy2: self.sy2.plus(truth.times(truth)),
            n: self.n + 1,
            updates: self.updates + 1,
        }
    }

    fn read(&self) -> (r: Double) {
        if self.n < 2 {
            nan()
        } else {
            let mean: Double = self.sy.over(Double::from_u64(self.n));
            let sst: Double = self.sy2.minus(Double::from_u64(self.n).times(mean).times(mean));
            if sst.abs().le(ten_to_minus_15()) {
                nan()
            } else {
                one().minus(self.sse.over(sst))
            }
        }
    }

    fn get_seen(&self) -> (r: u64) {
        self.n
    }

    fn get_rounds(&self) -> (r: u64) {
        self.updates
    }
}

/// Share of predictions that round to another label.
#[derive(Clone, Copy, Debug, PartialEq, Eq, Structural)]
pub struct OnlineHamming {
    /// Wrong predictions.
    pub bad: Double,
    /// Pairs taken in.
    pub n: u64,
    /// Pairs taken in over all batches.
    pub updates: u64,
}

impl Default for OnlineHamming {
    fn default() -> (r: OnlineHamming)
        ensures
            r == OnlineHamming::empty(),
    {
        OnlineHamming::new()
    }
}

impl OnlineHamming {
    /// The metric before any pair.
    pub open spec fn empty() -> OnlineHamming {
        OnlineHamming { bad: zero(), n: 0, updates: 0 }
    }

    /// An empty metric.
    pub fn new() -> (r: OnlineHamming)
        ensures
            r == OnlineHamming::empty(),
    {
        OnlineHamming { bad: zero(), n: 0, updates: 0 }
    }

    /// Current Hamming loss, or NaN when empty.
    pub fn score(&self) -> (r: Double)
        ensures
            r == self.level(),
    {
        self.read()
    }

    /// Takes in a batch of pairs: column 0 against the target.
    pub fn partial_fit(&mut self, x: &Matrix, y: Option<&Vec<Double>>) -> (r: Update)
        requires
            metric_accepts(*old(self), x, target(y)),
        ensures
            metric_answers(*old(self), *final(self), x, target(y), &r),
    {
        metric_partial(self, x, y)
    }
}

impl PairMetric for OnlineHamming {
    open spec fn paired(self, pred: Double, truth: Double) -> OnlineHamming {
        OnlineHamming {
            bad: if pred.round().same(truth.round()) {
                self.bad
            } else {
                self.bad.plus(one())
            },
            n: (self.n + 1) as u64,
            updates: (self.updates + 1) as u64,
        }
    }

    open spec fn level(self) -> Double {
        if self.n == 0 {
            nan()
        } else {
            self.bad.over(Double::from_u64(self.n))
        }
    }

    open spec fn seen(self) -> u64 {
        self.n
    }

    open spec fn rounds(self) -> u64 {
        self.updates
    }

    open spec fn load(self) -> u64 {
        if self.n < self.updates {
            self.updates
        } else {
            self.n
        }
    }

    fn pair(&self, pred: Double, truth: Double) -> (r: OnlineHamming) {
        OnlineHamming {
            bad: if pred.round().same(truth.round()) {
                self.bad
            } else {
                self.bad.plus(one())
            },
            n: self.n + 1,
            updates: self.updates + 1,
        }
    }

    fn read(&self) -> (r: Double) {
        if self.n == 0 {
            nan()
        } else {
            self.bad.over(Double::from_u64(self.n))
        }
    }

    fn get_seen(&self) -> (r: u64) {
        self.n
    }

    fn get_rounds(&self) -> (r: u64) {
        self.updates
    }
}

/// Intersection over union of the nonzero labels.
#[derive(Clone, Copy, Debug, PartialEq, Eq, Structural)]
pub struct OnlineJaccard {
    /// Pairs with both nonzero.
    pub inter: Double,
    /// Pairs with either nonzero.
    pub union_: Double,
    /// Pairs taken in.
    pub n: u64,
    /// Pairs taken in over all batches.
    pub updates: u64,
}

impl Default for OnlineJaccard {
    fn default() -> (r: OnlineJaccard)
        ensures
            r == OnlineJaccard::empty(),
    {
        OnlineJaccard::new()
    }
}

impl OnlineJaccard {
    /// The metric before any pair.
    pub open spec fn empty() -> OnlineJaccard {
        OnlineJaccard { inter: zero(), union_: zero(), n: 0, updates: 0 }
    }

    /// An empty metric.
    pub fn new() -> (r: OnlineJaccard)
        ensures
            r == OnlineJaccard::empty(),
    {
        OnlineJaccard { inter: zero(), union_: zero(), n: 0, updates: 0 }
    }

    /// Intersection over union, or NaN when empty.
    pub fn score(&self) -> (r: Double)
        ensures
            r == self.level(),
    {
        self.read()
    }

    /// Takes in a batch of pairs: column 0 against the target.
    pub fn partial_fit(&mut self, x: &Matrix, y: Option<&Vec<Double>>) -> (r: Update)
        requires
            metric_accepts(*old(self), x, target(y)),
        ensures
            metric_answers(*old(self), *final(self), x, target(y), &r),
    {
        metric_partial(self, x, y)
    }
}

impl PairMetric for OnlineJaccard {
    open spec fn paired(self, pred: Double, truth: Double) -> OnlineJaccard {
        let a = !pred.round().same(zero());
        let b = !truth.round().same(zero());
        OnlineJaccard {
            inter: if a && b {
                self.inter.plus(one())
            } else {
                self.inter
            },
            union_: if a || b {
                self.union_.plus(one())
            } else {
                self.union_
            },
            n: (self.n + 1) as u64,
            updates: (self.updates + 1) as u64,
        }
    }

    open spec fn level(self) -> Double {
        if self.union_.le(zero()) {
            nan()
        } else {
            self.inter.over(self.union_)
        }
    }

    open spec fn seen(self) -> u64 {
        self.n
    }

    open spec fn rounds(self) -> u64 {
        self.updates
    }

    open spec fn load(self) -> u64 {
        if self.n < self.updates {
            self.updates
        } else {
            self.n
        }
    }

    fn pair(&self, pred: Double, truth: Double) -> (r: OnlineJaccard) {
        let a: bool = !pred.round().same(zero());
        let b: bool = !truth.round().same(zero());
        OnlineJaccard {
            inter: if a && b {
                self.inter.plus(one())
            } else {
                self.inter
            },
            union_: if a || b {
                self.union_.plus(one())
            } else {
                self.union_
            },
            n: self.n + 1,
            updates: self.updates + 1,
        }
    }

    fn read(&self) -> (r: Double) {
        if self.union_.le(zero()) {
            nan()
        } else {
            self.inter.over(self.union_)
        }
    }

    fn get_seen(&self) -> (r: u64) {
        self.n
    }

    fn get_rounds(&self) -> (r: u64) {
        self.updates
    }
}

/// F1 score of the positive class.
#[derive(Clone, Copy, Debug, PartialEq, Eq, Structural)]
pub struct OnlineF1 {
    /// True positives.
    pub tp: Double,
    /// False positives.
    pub fp: Double,
    /// False negatives.
    pub fn_: Double,
    /// Pairs taken in over all batches.
    pub updates: u64,
}

impl Default for OnlineF1 {
    fn default() -> (r: OnlineF1)
        ensures
            r == OnlineF1::empty(),
    {
        OnlineF1::new()
    }
}

impl OnlineF1 {
    /// The metric before any pair.
    pub open spec fn empty() -> OnlineF1 {
        OnlineF1 { tp: zero(), fp: zero(), fn_: zero(), updates: 0 }
    }

    /// An empty metric.
    pub fn new() -> (r: OnlineF1)
        ensures
            r == OnlineF1::empty(),
    {
        OnlineF1 { tp: zero(), fp: zero(), fn_: zero(), updates: 0 }
    }

    /// Current F1, or NaN without positive predictions or labels.
    pub fn score(&self) -> (r: Double)
        ensures
            r == self.level(),
    {
        self.read()
    }

    /// Takes in a batch of pairs: column 0 against the target.
    pub fn partial_fit(&mut self, x: &Matrix, y: Option<&Vec<Double>>) -> (r: Update)
        requires
            metric_accepts(*old(self), x, target(y)),
        ensures
            metric_answers(*old(self), *final(self), x, target(y), &r),
    {
        metric_partial(self, x, y)
    }
}

impl PairMetric for OnlineF1 {
    open spec fn paired(self, pred: Double, truth: Double) -> OnlineF1 {
        let p = pred.gt(half());
        let t = truth.gt(half());
        OnlineF1 {
            tp: if p && t {
                self.tp.plus(one())
            } else {
                self.tp
            },
            fp: if p && !t {
                self.fp.plus(one())
            } else {
                self.fp
            },
            fn_: if !p && t {
                self.fn_.plus(one())
            } else {
                self.fn_
            },
            updates: (self.updates + 1) as u64,
        }
    }

    open spec fn level(self) -> Double {
        let den = two().times(self.tp).plus(self.fp).plus(self.fn_);
        if den.le(zero()) {
            nan()
        } else {
            two().times(self.tp).over(den)
        }
    }

    open spec fn seen(self) -> u64 {
        self.tp.truncate_to_u64()
    }

    open spec fn rounds(self) -> u64 {
        self.updates
    }

    open spec fn load(self) -> u64 {
        self.updates
    }

    fn pair(&self, pred: Double, truth: Double) -> (r: OnlineF1) {
        let p: bool = pred.gt(half());
        let t: bool = truth.gt(half());
        OnlineF1 {
            tp: if p && t {
                self.tp.plus(one())
            } else {
                self.tp
            },
            fp: if p && !t {
                self.fp.plus(one())
            } else {
                self.fp
            },
            fn_: if !p && t {
                self.fn_.plus(one())
            } else {
                self.fn_
            },
            updates: self.updates + 1,
        }
    }

    fn read(&self) -> (r: Double) {
        let den: Double = two().times(self.tp).plus(self.fp).plus(self.fn_);
        if den.le(zero()) {
            nan()
        } else {
            two().times(self.tp).over(den)
        }
    }

    fn get_seen(&self) -> (r: u64) {
        self.tp.truncate_to_u64()
    }

    fn get_rounds(&self) -> (r: u64) {
        self.updates
    }
}

/// Precision of the positive class.
#[derive(Clone, Copy, Debug, PartialEq, Eq, Structural)]
pub struct OnlinePrecision {
    /// True positives.
    pub tp: Double,
    /// False positives.
    pub fp: Double,
    /// Pairs taken in over all batches.
    pub updates: u64,
}

impl Default for OnlinePrecision {
    fn default() -> (r: OnlinePrecision)
        ensures
            r == OnlinePrecision::empty(),
    {
        OnlinePrecision::new()
    }
}

impl OnlinePrecision {
    /// The metric before any pair.
    pub open spec fn empty() -> OnlinePrecision {
        OnlinePrecision { tp: zero(), fp: zero(), updates: 0 }
    }

    /// An empty metric.
    pub fn new() -> (r: OnlinePrecision)
        ensures
            r == OnlinePrecision::empty(),
    {
        OnlinePrecision { tp: zero(), fp: zero(), updates: 0 }
    }

    /// Current precision, or NaN without positive predictions.
    pub fn score(&self) -> (r: Double)
        ensures
            r == self.level(),
    {
        self.read()
    }

    /// Takes in a batch of pairs: column 0 against the target.
    pub fn partial_fit(&mut self, x: &Matrix, y: Option<&Vec<Double>>) -> (r: Update)
        requires
            metric_accepts(*old(self), x, target(y)),
        ensures
            metric_answers(*old(self), *final(self), x, target(y), &r),
    {
        metric_partial(self, x, y)
    }
}

impl PairMetric for OnlinePrecision {
    open spec fn paired(self, pred: Double, truth: Double) -> OnlinePrecision {
        let p = pred.gt(half());
        let t = truth.gt(half());
        OnlinePrecision {
            tp: if p && t {
                self.tp.plus(one())
            } else {
                self.tp
            },
            fp: if p && !t {
                self.fp.plus(one())
            } else {
                self.fp
            },
            updates: (self.updates + 1) as u64,
        }
    }

    open spec fn level(self) -> Double {
        let den = self.tp.plus(self.fp);
        if den.le(zero()) {
            nan()
        } else {
            self.tp.over(den)
        }
    }

    open spec fn seen(self) -> u64 {
        self.tp.truncate_to_u64()
    }

    open spec fn rounds(self) -> u64 {
        self.updates
    }

    open spec fn load(self) -> u64 {
        self.updates
    }

    fn pair(&self, pred: Double, truth: Double) -> (r: OnlinePrecision) {
        let p: bool = pred.gt(half());
        let t: bool = truth.gt(half());
        OnlinePrecision {
            tp: if p && t {
                self.tp.plus(one())
            } else {
                self.tp
            },
            fp: if p && !t {
                self.fp.plus(one())
            } else {
                self.fp
            },
            updates: self.updates + 1,
        }
    }

    fn read(&self) -> (r: Double) {
        let den: Double = self.tp.plus(self.fp);
        if den.le(zero()) {
            nan()
        } else {
            self.tp.over(den)
        }
    }

    fn get_seen(&self) -> (r: u64) {
        self.tp.truncate_to_u64()
    }

    fn get_rounds(&self) -> (r: u64) {
        self.updates
    }
}

/// Recall of the positive class.
#[derive(Clone, Copy, Debug, PartialEq, Eq, Structural)]
pub struct OnlineRecall {
    /// True positives.
    pub tp: Double,
    /// False negatives.
    pub fn_: Double,
    /// Pairs taken in over all batches.
    pub updates: u64,
}

impl Default for OnlineRecall {
    fn default() -> (r: OnlineRecall)
        ensures
            r == OnlineRecall::empty(),
    {
        OnlineRecall::new()
    }
}

impl OnlineRecall {
    /// The metric before any pair.
    pub open spec fn empty() -> OnlineRecall {
        OnlineRecall { tp: zero(), fn_: zero(), updates: 0 }
    }

    /// An empty metric.
    pub fn new() -> (r: OnlineRecall)
        ensures
            r == OnlineRecall::empty(),
    {
        OnlineRecall { tp: zero(), fn_: zero(), updates: 0 }
    }

    /// Current recall, or NaN without positive labels.
    pub fn score(&self) -> (r: Double)
        ensures
            r == self.level(),
    {
        self.read()
    }

    /// Takes in a batch of pairs: column 0 against the target.
    pub fn partial_fit(&mut self, x: &Matrix, y: Option<&Vec<Double>>) -> (r: Update)
        requires
            metric_accepts(*old(self), x, target(y)),
        ensures
            metric_answers(*old(self), *final(self), x, target(y), &r),
    {
        metric_partial(self, x, y)
    }
}

impl PairMetric for OnlineRecall {
    open spec fn paired(self, pred: Double, truth: Double) -> OnlineRecall {
        let p = pred.gt(half());
        let t = truth.gt(half());
        OnlineRecall {
            tp: if p && t {
                self.tp.plus(one())
            } else {
                self.tp
            },
            fn_: if !p && t {
                self.fn_.plus(one())
            } else {
                self.fn_
            },
            updates: (self.updates + 1) as u64,
        }
    }

    open spec fn level(self) -> Double {
        let den = self.tp.plus(self.fn_);
        if den.le(zero()) {
            nan()
        } else {
            self.tp.over(den)
        }
    }

    open spec fn seen(self) -> u64 {
        self.tp.truncate_to_u64()
    }

    open spec fn rounds(self) -> u64 {
        self.updates
    }

    open spec fn load(self) -> u64 {
        self.updates
    }

    fn pair(&self, pred: Double, truth: Double) -> (r: OnlineRecall) {
        let p: bool = pred.gt(half());
        let t: bool = truth.gt(half());
        OnlineRecall {
            tp: if p && t {
                self.tp.plus(one())
            } else {
                self.tp
            },
            fn_: if !p && t {
                self.fn_.plus(one())
            } else {
                self.fn_
            },
            updates: self.updates + 1,
        }
    }

    fn read(&self) -> (r: Double) {
        let den: Double = self.tp.plus(self.fn_);
        if den.le(zero()) {
            nan()
        } else {
            self.tp.over(den)
        }
    }

    fn get_seen(&self) -> (r: u64) {
        self.tp.truncate_to_u64()
    }

    fn get_rounds(&self) -> (r: u64) {
        self.updates
    }
}

/// Agreement beyond chance of two binary labels.
#[derive(Clone, Copy, Debug, PartialEq, Eq, Structural)]
pub struct OnlineCohenKappa {
    /// Pairs with both negative.
    pub a: Double,
    /// Pairs with only the prediction positive.
    pub b: Double,
    /// Pairs with only the target positive.
    pub c: Double,
    /// Pairs with both positive.
    pub d: Double,
    /// Pairs taken in over all batches.
    pub updates: u64,
}

impl Default for OnlineCohenKappa {
    fn default() -> (r: OnlineCohenKappa)
        ensures
            r == OnlineCohenKappa::empty(),
    {
        OnlineCohenKappa::new()
    }
}

impl OnlineCohenKappa {
    /// The metric before any pair.
    pub open spec fn empty() -> OnlineCohenKappa {
        OnlineCohenKappa { a: zero(), b: zero(), c: zero(), d: zero(), updates: 0 }
    }

    /// An empty metric.
    pub fn new() -> (r: OnlineCohenKappa)
        ensures
            r == OnlineCohenKappa::empty(),
    {
        OnlineCohenKappa { a: zero(), b: zero(), c: zero(), d: zero(), updates: 0 }
    }

    /// Current kappa, or NaN when empty.
    pub fn score(&self) -> (r: Double)
        ensures
            r == self.level(),
    {
        self.read()
    }

    /// Takes in a batch of pairs: column 0 against the target.
    pub fn partial_fit(&mut self, x: &Matrix, y: Option<&Vec<Double>>) -> (r: Update)
        requires
            metric_accepts(*old(self), x, target(y)),
        ensures
            metric_answers(*old(self), *final(self), x, target(y), &r),
    {
        metric_partial(self, x, y)
    }
}

impl PairMetric for OnlineCohenKappa {
    open spec fn paired(self, pred: Double, truth: Double) -> OnlineCohenKappa {
        let p = pred.gt(half());
        let t = truth.gt(half());
        OnlineCohenKappa {
            a: if !p && !t {
                self.a.plus(one())
            } else {
                self.a
            },
            b: if p && !t {
                self.b.plus(one())
            } else {
                self.b
            },
            c: if !p && t {
                self.c.plus(one())
            } else {
                self.c
            },
            d: if p && t {
                self.d.plus(one())
            } else {
                self.d
            },
            updates: (self.updates + 1) as u64,
        }
    }

    open spec fn level(self) -> Double {
        let n = self.a.plus(self.b).plus(self.c).plus(self.d);
        if n.le(zero()) {
            nan()
        } else {
            let po = self.a.plus(self.d).over(n);
            let pe = self.a.plus(self.b).times(self.a.plus(self.c)).plus(
                self.c.plus(self.d).times(self.b.plus(self.d)),
            ).over(n.times(n));
            if one().minus(pe).abs().le(ten_to_minus_18()) {
                nan()
            } else {
                po.minus(pe).over(one().minus(pe))
            }
        }
    }

    open spec fn seen(self) -> u64 {
        self.a.plus(self.b).plus(self.c).plus(self.d).truncate_to_u64()
    }

    open spec fn rounds(self) -> u64 {
        self.updates
    }

    open spec fn load(self) -> u64 {
        self.updates
    }

    fn pair(&self, pred: Double, truth: Double) -> (r: OnlineCohenKappa) {
        let p: bool = pred.gt(half());
        let t: bool = truth.gt(half());
        OnlineCohenKappa {
            a: if !p && !t {
                self.a.plus(one())
            } else {
                self.a
            },
            b: if p && !t {
                self.b.plus(one())
            } else {
                self.b
            },
            c: if !p && t {
                self.c.plus(one())
            } else {
                self.c
            },
            d: if p && t {
                self.d.plus(one())
            } else {
                self.d
            },
            updates: self.updates + 1,
        }
    }

    fn read(&self) -> (r: Double) {
        let n: Double = self.a.plus(self.b).plus(self.c).plus(self.d);
        if n.le(zero()) {
            nan()
        } else {
            let po: Double = self.a.plus(self.d).over(n);
            let pe: Double = self.a.plus(self.b).times(self.a.plus(self.c)).plus(
                self.c.plus(self.d).times(self.b.plus(self.d)),
            ).over(n.times(n));
            if one().minus(pe).abs().le(ten_to_minus_18()) {
                nan()
            } else {
                po.minus(pe).over(one().minus(pe))
            }
        }
    }

    fn get_seen(&self) -> (r: u64) {
        self.a.plus(self.b).plus(self.c).plus(self.d).truncate_to_u64()
    }

    fn get_rounds(&self) -> (r: u64) {
        self.updates
    }
}

/// Windowed area under the ROC curve: the Mann-Whitney statistic of the latest
/// 256 pairs.
#[derive(Clone, Debug)]
pub struct OnlineRocAuc {
    /// Latest scores.
    pub scores: Vec<Double>,
    /// Their labels.
    pub labels: Vec<Double>,
    /// Pairs taken in.
    pub updates: u64,
}

/// Number of positive (or negative) labels among the first `k`.
pub open spec fn label_count(labels: Seq<Double>, positive: bool, k: nat) -> nat
    decreases k,
{
    if k == 0 {
        0
    } else {
        label_count(labels, positive, (k - 1) as nat) + if labels[k - 1].gt(half()) == positive {
            1nat
        } else {
            0
        }
    }
}

/// Points that a positive score earns against the first `k` entries: one for
/// each negative below it, half for each that is as good as equal.
pub open spec fn wins_against(score: Double, start: Double, scores: Seq<Double>, labels: Seq<Double>, k: nat) -> Double
    decreases k,
{
    if k == 0 {
        start
    } else {
        let earlier = wins_against(score, start, scores, labels, (k - 1) as nat);
        if labels[k - 1].gt(half()) {
            earlier
        } else if score.gt(scores[k - 1]) {
            earlier.plus(one())
        } else if score.minus(scores[k - 1]).abs().lt(ten_to_minus_15()) {
            earlier.plus(half())
        } else {
            earlier
        }
    }
}

/// Points of the positives among the first `k` entries.
pub open spec fn wins(scores: Seq<Double>, labels: Seq<Double>, k: nat) -> Double
    decreases k,
{
    if k == 0 {
        zero()
    } else {
        let earlier = wins(scores, labels, (k - 1) as nat);
        if labels[k - 1].gt(half()) {
            wins_against(scores[k - 1], earlier, scores, labels, scores.len())
        } else {
            earlier
        }
    }
}

/// Area under the ROC curve, or NaN unless both labels occur.
pub open spec fn roc_auc(scores: Seq<Double>, labels: Seq<Double>) -> Double {
    let pos = label_count(labels, true, labels.len());
    let neg = label_count(labels, false, labels.len());
    if pos == 0 || neg == 0 {
        nan()
    } else {
        wins(scores, labels, scores.len()).over(Double::from_usize((pos * neg) as usize))
    }
}

/// Half points that a positive score earns against the first `k` entries: two for each
/// negative below it, one for each that is as good as equal.
pub open spec fn half_points_against(score: Double, scores: Seq<Double>, labels: Seq<Double>, k: nat) -> nat
    decreases k,
{
    if k == 0 {
        0
    } else {
        half_points_against(score, scores, labels, (k - 1) as nat) + if labels[k - 1].gt(half()) {
            0nat
        } else if score.gt(scores[k - 1]) {
            2nat
        } else if score.minus(scores[k - 1]).abs().lt(ten_to_minus_15()) {
            1nat
        } else {
            0nat
        }
    }
}

/// Half points of the positives among the first `k` entries.
pub open spec fn half_points(scores: Seq<Double>, labels: Seq<Double>, k: nat) -> nat
    decreases k,
{
    if k == 0 {
        0
    } else {
        half_points(scores, labels, (k - 1) as nat) + if labels[k - 1].gt(half()) {
            half_points_against(scores[k - 1], scores, labels, scores.len())
        } else {
            0nat
        }
    }
}

proof fn lemma_label_counts(labels: Seq<Double>, k: nat)
    ensures
        label_count(labels, true, k) + label_count(labels, false, k) == k,
    decreases k,
{
    if k > 0 {
        lemma_label_counts(labels, (k - 1) as nat);
    }
}

proof fn lemma_points_against(score: Double, start: nat, scores: Seq<Double>, labels: Seq<Double>, k: nat)
    requires
        start + 2 * k <= 0x20_0000_0000_0000,
    ensures
        half_points_against(score, scores, labels, k) <= 2 * label_count(labels, false, k),
        wins_against(score, halves(start), scores, labels, k) == halves(
            start + half_points_against(score, scores, labels, k),
        ),
    decreases k,
{
    if k > 0 {
        lemma_points_against(score, start, scores, labels, (k - 1) as nat);
        lemma_label_counts(labels, (k - 1) as nat);
        let before = start + half_points_against(score, scores, labels, (k - 1) as nat);
        lemma_small_halves();
        lemma_halves_add(before, 1);
        lemma_halves_add(before, 2);
    }
}

proof fn lemma_points(scores: Seq<Double>, labels: Seq<Double>, k: nat)
    requires
        scores.len() == labels.len() <= 256,
        k <= scores.len(),
    ensures
        half_points(scores, labels, k) <= 2 * (label_count(labels, true, k) * label_count(labels, false, labels.len())),
        half_points(scores, labels, k) <= 0x2_0000,
        wins(scores, labels, k) == halves(half_points(scores, labels, k)),
    decreases k,
{
    let neg = label_count(labels, false, labels.len());
    lemma_label_counts(labels, labels.len());
    lemma_label_counts(labels, k);
    if k == 0 {
        lemma_small_halves();
    } else {
        lemma_points(scores, labels, (k - 1) as nat);
        let pos = label_count(labels, true, (k - 1) as nat);
        lemma_points_against(
            scores[k - 1],
            half_points(scores, labels, (k - 1) as nat),
            scores,
            labels,
            scores.len(),
        );
        assert((pos + 1) * neg == pos * neg + neg) by (nonlinear_arith);
    }
    let pos = label_count(labels, true, k);
    assert(pos * neg <= 256 * 256) by (nonlinear_arith)
        requires
            pos <= 256,
            neg <= 256,
    ;
}

/// The area is the rounded share of points: wins plus half the ties, over the pairs of a
/// positive and a negative. It lies between zero and one.
pub proof fn law_area_is_a_share(scores: Seq<Double>, labels: Seq<Double>)
    requires
        scores.len() == labels.len() <= 256,
        label_count(labels, true, labels.len()) > 0,
        label_count(labels, false, labels.len()) > 0,
    ensures
        ({
            let pairs = label_count(labels, true, labels.len()) * label_count(labels, false, labels.len());
            let points = half_points(scores, labels, scores.len());
            &&& points <= 2 * pairs
            &&& roc_auc(scores, labels) == signed(false, round_code(points * pow2(1073), pairs))
            &&& roc_auc(scores, labels).is_finite()
            &&& zero().le(roc_auc(scores, labels))
            &&& roc_auc(scores, labels).le(one())
        }),
{
    let pos = label_count(labels, true, labels.len());
    let neg = label_count(labels, false, labels.len());
    lemma_label_counts(labels, labels.len());
    lemma_points(scores, labels, scores.len());
    assert(0 < pos * neg <= 256 * 256) by (nonlinear_arith)
        requires
            0 < pos <= 256,
            0 < neg <= 256,
    ;
    lemma_halves_over_whole(half_points(scores, labels, scores.len()), (pos * neg) as u64);
}

/// A window of at most 256 entries after one more.
pub open spec fn slid(window: Seq<Double>, v: Double) -> Seq<Double> {
    let longer = window.push(v);
    if longer.len() > 256 {
        longer.drop_first()
    } else {
        longer
    }
}

/// The scores after the first `k` rows.
pub open spec fn scores_after(scores: Seq<Double>, x: &Matrix, k: nat) -> Seq<Double>
    decreases k,
{
    if k == 0 {
        scores
    } else {
        slid(scores_after(scores, x, (k - 1) as nat), x.at(k - 1, 0))
    }
}

/// The labels after the first `k` rows.
pub open spec fn labels_after(labels: Seq<Double>, y: Seq<Double>, k: nat) -> Seq<Double>
    decreases k,
{
    if k == 0 {
        labels
    } else {
        slid(labels_after(labels, y, (k - 1) as nat), y[k - 1])
    }
}

fn slide(window: &mut Vec<Double>, v: Double)
    requires
        old(window)@.len() <= 256,
    ensures
        final(window)@ == slid(old(window)@, v),
        final(window)@.len() <= 256,
{
    window.push(v);
    if window.len() > 256 {
        let ghost longer = window@;
        let _ = window.remove(0);
        assert(window@ =~= longer.drop_first());
    }
}

impl Default for OnlineRocAuc {
    fn default() -> (r: OnlineRocAuc)
        ensures
            r.scores@.len() == 0,
            r.labels@.len() == 0,
            r.updates == 0,
    {
        OnlineRocAuc::new()
    }
}

impl OnlineRocAuc {
    /// At most 256 pairs.
    pub open spec fn wf(&self) -> bool {
        self.scores@.len() == self.labels@.len() && self.scores@.len() <= 256
    }

    /// An empty window.
    pub fn new() -> (r: OnlineRocAuc)
        ensures
            r.scores@.len() == 0,
            r.labels@.len() == 0,
            r.updates == 0,
            r.wf(),
    {
        OnlineRocAuc { scores: Vec::new(), labels: Vec::new(), updates: 0 }
    }

    /// Mann-Whitney area of the current window.
    pub fn score(&self) -> (r: Double)
        requires
            self.wf(),
        ensures
            r == roc_auc(self.scores@, self.labels@),
    {
        let n: usize = self.scores.len();
        let mut pos: usize = 0;
        let mut neg: usize = 0;
        let mut i: usize = 0;
        while i < n
            invariant
                i <= n,
                n == self.labels@.len(),
                n <= 256,
                pos == label_count(self.labels@, true, i as nat),
                neg == label_count(self.labels@, false, i as nat),
                pos + neg == i,
            decreases n - i,
        {
            if self.labels[i].gt(half()) {
                pos = pos + 1;
            } else {
                neg = neg + 1;
            }
            i = i + 1;
        }
        if pos == 0 || neg == 0 {
            return nan();
        }
        let mut total: Double = zero();
        let mut a: usize = 0;
        while a < n
            invariant
                a <= n,
                n == self.labels@.len(),
                n == self.scores@.len(),
                total == wins(self.scores@, self.labels@, a as nat),
            decreases n - a,
        {
            if self.labels[a].gt(half()) {
                let ghost earlier = total;
                let p: Double = self.scores[a];
                let mut b: usize = 0;
                while b < n
                    invariant
                        b <= n,
                        n == self.labels@.len(),
                        n == self.scores@.len(),
                        total == wins_against(p, earlier, self.scores@, self.labels@, b as nat),
                    decreases n - b,
                {
                    if !self.labels[b].gt(half()) {
                        if p.gt(self.scores[b]) {
                            total = total.plus(one());
                        } else if p.minus(self.scores[b]).abs().lt(ten_to_minus_15()) {
                            total = total.plus(half());
                        }
                    }
                    b = b + 1;
                }
            }
            a = a + 1;
        }
        assert(pos * neg <= 256 * 256) by (nonlinear_arith)
            requires
                pos <= 256,
                neg <= 256,
        ;
        total.over(Double::from_usize(pos * neg))
    }

    /// Takes in a batch of pairs: column 0 against the target.
    pub fn partial_fit(&mut self, x: &Matrix, y: Option<&Vec<Double>>) -> (r: Update)
        requires
            old(self).wf(),
            x.wf(),
            y matches Some(t) ==> {
                &&& pair_count(x, t@) > 0 ==> x.width > 0
                &&& old(self).updates + pair_count(x, t@) <= u64::MAX
                &&& old(self).scores@.len() + pair_count(x, t@) <= u64::MAX
            },
        ensures
            final(self).wf(),
            match y {
                None => {
                    &&& *final(self) == *old(self)
                    &&& metric_reports(&r, old(self).updates, old(self).scores@.len() as u64, x, None, nan())
                },
                Some(t) => {
                    &&& final(self).scores@ == scores_after(old(self).scores@, x, pair_count(x, t@))
                    &&& final(self).labels@ == labels_after(old(self).labels@, t@, pair_count(x, t@))
                    &&& final(self).updates == old(self).updates + pair_count(x, t@)
                    &&& metric_reports(
                        &r,
                        old(self).updates,
                        old(self).scores@.len() as u64,
                        x,
                        Some(t@),
                        if pair_count(x, t@) == 0 {
                            nan()
                        } else {
                            roc_auc(final(self).scores@, final(self).labels@)
                        },
                    )
                },
            },
    {
        let rounds: u64 = self.updates;
        let seen: u64 = self.scores.len() as u64;
        match y {
            None => {
                let mut issues: Vec<Issue> = Vec::new();
                issues.push(issue(IssueCode::MissingTarget));
                assert(issues@ =~= seq![issue(IssueCode::MissingTarget)]);
                rejection(rounds, x.nrows(), seen, issues)
            },
            Some(t) => {
                let k: usize = if t.len() < x.nrows() {
                    t.len()
                } else {
                    x.nrows()
                };
                let ghost before = *self;
                let mut i: usize = 0;
                while i < k
                    invariant
                        i <= k,
                        k == pair_count(x, t@),
                        x.wf(),
                        k > 0 ==> x.width > 0,
                        self.wf(),
                        self.scores@ == scores_after(before.scores@, x, i as nat),
                        self.labels@ == labels_after(before.labels@, t@, i as nat),
                        self.updates == before.updates + i,
                        before.updates + k <= u64::MAX,
                    decreases k - i,
                {
                    slide(&mut self.scores, x.get(i, 0));
                    slide(&mut self.labels, t[i]);
                    self.updates = self.updates + 1;
                    i = i + 1;
                }
                let last: Double = if k == 0 {
                    nan()
                } else {
                    self.score()
                };
                report_pairs(rounds, seen, x, t, last)
            },
        }
    }
}

/// Mean log-loss of clipped probabilities.
#[derive(Clone, Copy, Debug, PartialEq, Eq, Structural)]
pub struct OnlineLogLoss {
    /// Sum of the losses.
    pub nll: Double,
    /// Pairs taken in.
    pub n: u64,
    /// Pairs taken in over all batches.
    pub updates: u64,
}

impl Default for OnlineLogLoss {
    fn default() -> (r: OnlineLogLoss)
        ensures
            r == (OnlineLogLoss { nll: zero(), n: 0, updates: 0 }),
    {
        OnlineLogLoss::new()
    }
}

impl OnlineLogLoss {
    /// An empty metric.
    pub fn new() -> (r: OnlineLogLoss)
        ensures
            r == (OnlineLogLoss { nll: zero(), n: 0, updates: 0 }),
    {
        OnlineLogLoss { nll: zero(), n: 0, updates: 0 }
    }

    /// Current mean log-loss, or NaN when empty.
    pub open spec fn level(self) -> Double {
        if self.n == 0 {
            nan()
        } else {
            self.nll.over(Double::from_u64(self.n))
        }
    }

    /// Current mean log-loss, or NaN when empty.
    pub fn score(&self) -> (r: Double)
        ensures
            r == self.level(),
    {
        if self.n == 0 {
            nan()
        } else {
            self.nll.over(Double::from_u64(self.n))
        }
    }

    /// A probability clipped away from 0 and 1.
    #[verifier::allow_in_spec]
    pub fn clip(pred: Double) -> (p: Double)
        returns
            pred.clamp(ten_to_minus_12(), below_one()),
    {
        pred.clamp(ten_to_minus_12(), below_one())
    }

    /// The metric after one more pair.
    pub open spec fn paired(self, ln: Curve, pred: Double, truth: Double) -> OnlineLogLoss {
        let p = OnlineLogLoss::clip(pred);
        let t = if truth.gt(half()) {
            one()
        } else {
            zero()
        };
        OnlineLogLoss {
            nll: self.nll.plus(t.times(ln(p)).plus(one().minus(t).times(ln(one().minus(p)))).neg()),
            n: (self.n + 1) as u64,
            updates: (self.updates + 1) as u64,
        }
    }

    /// The metric after the first `k` rows.
    pub open spec fn after(self, ln: Curve, x: &Matrix, y: Seq<Double>, k: nat) -> OnlineLogLoss
        decreases k,
    {
        if k == 0 {
            self
        } else {
            self.after(ln, x, y, (k - 1) as nat).paired(ln, x.at(k - 1, 0), y[k - 1])
        }
    }

    /// Takes in a batch of pairs: column 0 against the target. `ln` is the natural
    /// logarithm.
    pub fn partial_fit<F: Fn(Double) -> Double>(&mut self, x: &Matrix, y: Option<&Vec<Double>>, ln: &F) -> (r: Update)
        requires
            x.wf(),
            is_function(*ln),
            y matches Some(t) ==> pair_count(x, t@) > 0 ==> x.width > 0,
            y matches Some(t) ==> old(self).n + pair_count(x, t@) <= u64::MAX && old(self).updates + pair_count(x, t@)
                <= u64::MAX,
        ensures
            match y {
                None => {
                    &&& *final(self) == *old(self)
                    &&& metric_reports(&r, old(self).updates, old(self).n, x, None, nan())
                },
                Some(t) => {
                    &&& *final(self) == old(self).after(curve(*ln), x, t@, pair_count(x, t@))
                    &&& metric_reports(
                        &r,
                        old(self).updates,
                        old(self).n,
                        x,
                        Some(t@),
                        if pair_count(x, t@) == 0 {
                            nan()
                        } else {
                            final(self).level()
                        },
                    )
                },
            },
    {
        let before: OnlineLogLoss = *self;
        match y {
            None => {
                let mut issues: Vec<Issue> = Vec::new();
                issues.push(issue(IssueCode::MissingTarget));
                assert(issues@ =~= seq![issue(IssueCode::MissingTarget)]);
                rejection(before.updates, x.nrows(), before.n, issues)
            },
            Some(t) => {
                let k: usize = if t.len() < x.nrows() {
                    t.len()
                } else {
                    x.nrows()
                };
                let mut i: usize = 0;
                while i < k
                    invariant
                        i <= k,
                        k == pair_count(x, t@),
                        x.wf(),
                        k > 0 ==> x.width > 0,
                        is_function(*ln),
                        *self == before.after(curve(*ln), x, t@, i as nat),
                        self.n == before.n + i,
                        self.updates == before.updates + i,
                        before.n + k <= u64::MAX,
                        before.updates + k <= u64::MAX,
                    decreases k - i,
                {
                    let label: Double = if t[i].gt(half()) {
                        one()
                    } else {
                        zero()
                    };
                    let p: Double = OnlineLogLoss::clip(x.get(i, 0));
                    let log_p: Double = apply(ln, p);
                    let log_q: Double = apply(ln, one().minus(p));
                    self.nll = self.nll.plus(label.times(log_p).plus(one().minus(label).times(log_q)).neg());
                    self.n = self.n + 1;
                    self.updates = self.updates + 1;
                    i = i + 1;
                }
                let last: Double = if k == 0 {
                    nan()
                } else {
                    self.score()
                };
                report_pairs(before.updates, before.n, x, t, last)
            },
        }
    }
}

} // verus!
