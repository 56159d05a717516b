//! Detectors of change in a stream of numbers.

use crate::constants::{
    decimal_002, decimal_005, decimal_9, decimal_95, fifty, four, half, neg_half, ten_to_minus_12,
    ten_to_minus_16, ten_to_minus_18, ten_to_minus_6, three, twentieth, two,
};
use crate::data::{copy, latest, part, trim_to, Matrix};
use crate::double::{
    infinity, lemma_difference_is_finite, lemma_minus_equal, lemma_ratio_is_finite, one, zero, Double,
};
use crate::functions::{apply, apply_two, curve, is_function, is_function_of_two, surface, Curve, Surface};
use crate::quality::{given, issue, IncrementalQuality, Issue, IssueCode, Qualified, Update};
use crate::streaming::columns::{plain_report, reports};
use vstd::prelude::*;

verus! {

/// What a detector says of a number.
#[derive(Clone, Copy, Debug, PartialEq, Eq, Structural)]
pub enum DriftDecision {
    /// No evidence of a change.
    Stable,
    /// Mild evidence.
    Warning {
        /// Statistic of the detector.
        statistic: Double,
    },
    /// The stream has changed.
    Drift {
        /// Statistic of the detector.
        statistic: Double,
    },
}

/// The issues that go with a decision.
pub open spec fn drift_issues(decision: DriftDecision) -> Seq<Issue> {
    given(decision is Drift, IssueCode::ConceptDriftDetected)
}

fn qualify(decision: DriftDecision) -> (r: Qualified<DriftDecision>)
    ensures
        r.value == decision,
        r.report@ == drift_issues(decision),
{
    let mut report: Vec<Issue> = Vec::new();
    if let DriftDecision::Drift { statistic } = decision {
        report.push(issue(IssueCode::ConceptDriftDetected));
    }
    assert(report@ =~= drift_issues(decision));
    Qualified { value: decision, report }
}

/// A detector's state and decision after a number.
pub struct Watch<V> {
    /// The state.
    pub state: V,
    /// The decision.
    pub decision: DriftDecision,
}

/// A detector in the middle of a batch.
pub struct Patrol<V> {
    /// The state.
    pub state: V,
    /// Changes found so far, as a number.
    pub fired: Double,
}

/// The detector after the first `k` rows, which are read by their first column.
/// `step` is what the detector makes of a number.
pub open spec fn patrolled<V>(s: V, step: spec_fn(V, Double) -> Watch<V>, x: &Matrix, k: nat) -> Patrol<V>
    decreases k,
{
    if k == 0 {
        Patrol { state: s, fired: zero() }
    } else {
        let before = patrolled(s, step, x, (k - 1) as nat);
        let w = step(before.state, x.at(k - 1, 0));
        Patrol {
            state: w.state,
            fired: if w.decision is Drift {
                before.fired.plus(one())
            } else {
                before.fired
            },
        }
    }
}

/// Sum of the first `i` numbers, added from left to right.
pub open spec fn running_sum(w: Seq<Double>, i: nat) -> Double
    decreases i,
{
    if i == 0 {
        zero()
    } else {
        running_sum(w, (i - 1) as nat).plus(w[i - 1])
    }
}

/// Adaptive window over a stream of numbers: the older part is cut off when its
/// mean differs too much from that of the newer part.
#[derive(Clone, Debug)]
pub struct Adwin {
    /// Confidence.
    pub delta: Double,
    /// Longest window; the oldest numbers are dropped.
    pub max_window: usize,
    /// The window, oldest number first.
    pub window: Vec<Double>,
    /// Cuts made so far.
    pub cuts: u64,
}

/// The state of an adaptive window.
pub struct AdwinState {
    /// Confidence.
    pub delta: Double,
    /// Longest window.
    pub max_window: usize,
    /// The window.
    pub window: Seq<Double>,
    /// Cuts made so far.
    pub cuts: nat,
}

impl View for Adwin {
    type V = AdwinState;

    open spec fn view(&self) -> AdwinState {
        AdwinState {
            delta: self.delta,
            max_window: self.max_window,
            window: self.window@,
            cuts: self.cuts as nat,
        }
    }
}

impl AdwinState {
    /// The window of a new detector.
    pub open spec fn blank(delta: Double) -> AdwinState {
        AdwinState { delta, max_window: 2048, window: Seq::empty(), cuts: 0 }
    }

    /// Difference of the means of both parts when the window is cut before entry `i`.
    pub open spec fn contrast(self, i: nat) -> Double {
        let n = self.window.len();
        let front = running_sum(self.window, i);
        front.over(Double::from_usize(i as usize)).minus(
            running_sum(self.window, n).minus(front).over(Double::from_usize((n - i) as usize)),
        ).abs()
    }

    /// The difference that chance allows.
    pub open spec fn allowance(self, i: nat, ln: Curve) -> Double {
        let n = self.window.len();
        let n0 = Double::from_usize(i as usize);
        let n1 = Double::from_usize((n - i) as usize);
        let m = one().over(one().over(n0).plus(one().over(n1)));
        let level = self.delta.over(Double::from_usize(n as usize).max(one())).max(ten_to_minus_16());
        half().over(m).times(ln(four().over(level))).sqrt()
    }

    /// The first cut, from entry `i` on, that leaves eight numbers on each side and
    /// where the difference exceeds what chance allows.
    pub open spec fn cut_from(self, i: nat, ln: Curve) -> Option<nat>
        decreases self.window.len() - i,
    {
        if i + 8 >= self.window.len() {
            None
        } else if self.contrast(i).gt(self.allowance(i, ln)) {
            Some(i)
        } else {
            self.cut_from(i + 1, ln)
        }
    }

    /// The window with a new number; one that is not finite is skipped.
    pub open spec fn entered(self, x: Double) -> AdwinState {
        let window = if x.is_finite() {
            self.window.push(x)
        } else {
            self.window
        };
        AdwinState { window: latest(window, self.max_window as nat), ..self }
    }

    /// The detector after a number.
    pub open spec fn watched(self, x: Double, ln: Curve) -> Watch<AdwinState> {
        let s = self.entered(x);
        if s.window.len() < 16 {
            Watch { state: s, decision: DriftDecision::Stable }
        } else {
            match s.cut_from(8, ln) {
                Some(i) => Watch {
                    state: AdwinState { window: s.window.skip(i as int), cuts: s.cuts + 1, ..s },
                    decision: DriftDecision::Drift { statistic: s.contrast(i) },
                },
                None => Watch { state: s, decision: DriftDecision::Stable },
            }
        }
    }

    /// Room for `rows` more numbers.
    pub open spec fn room(self, rows: nat) -> bool {
        &&& self.cuts + rows <= u64::MAX
        &&& self.window.len() + rows <= usize::MAX
    }
}

/// A window never grows by more than one number or beyond its limit, and a cut
/// keeps the newest numbers: at least eight of them.
pub proof fn law_adwin_window(s: AdwinState, x: Double, ln: Curve)
    ensures
        ({
            let w = s.watched(x, ln);
            &&& w.state.window.len() <= s.window.len() + 1
            &&& w.state.window.len() <= if s.max_window < s.window.len() + 1 {
                s.max_window as nat
            } else {
                s.window.len() + 1
            }
            &&& w.decision is Drift ==> w.state.window.len() > 8 && w.state.window.len() + 8 <= s.entered(
                x,
            ).window.len()
            &&& w.decision is Drift <==> w.state.cuts == s.cuts + 1
            &&& w.decision is Stable <==> w.state == s.entered(x)
            &&& w.state.window == s.entered(x).window.skip(s.entered(x).window.len() - w.state.window.len())
        }),
{
    let e = s.entered(x);
    lemma_cut_range(e, 8, ln);
    let w = s.watched(x, ln);
    assert(e.window.skip(0) =~= e.window);
}

proof fn lemma_cut_range(s: AdwinState, i: nat, ln: Curve)
    ensures
        s.cut_from(i, ln) matches Some(k) ==> i <= k && k + 8 < s.window.len() && s.contrast(k).gt(s.allowance(k, ln)),
    decreases s.window.len() - i,
{
    if i + 8 < s.window.len() && !s.contrast(i).gt(s.allowance(i, ln)) {
        lemma_cut_range(s, i + 1, ln);
    }
}

impl Default for Adwin {
    fn default() -> (r: Adwin)
        ensures
            r@ == AdwinState::blank(decimal_002()),
    {
        Adwin::new(decimal_002())
    }
}

impl Adwin {
    /// A detector with the given confidence.
    pub fn new(delta: Double) -> (r: Adwin)
        ensures
            r@ == AdwinState::blank(delta),
    {
        let r = Adwin { delta, max_window: 2048, window: Vec::new(), cuts: 0 };
        assert(r.window@ =~= Seq::empty());
        r
    }

    /// Numbers in the window.
    pub fn window_len(&self) -> (n: usize)
        ensures
            n == self@.window.len(),
    {
        self.window.len()
    }

    /// Empties the window.
    pub fn reset(&mut self)
        ensures
            final(self)@ == (AdwinState { window: Seq::empty(), ..old(self)@ }),
    {
        self.window = Vec::new();
        assert(self.window@ =~= Seq::empty());
    }

    /// Cuts made so far.
    pub fn n_cuts(&self) -> (n: u64)
        ensures
            n == self@.cuts,
    {
        self.cuts
    }

    /// A copy with the same state.
    pub fn copy(&self) -> (r: Adwin)
        ensures
            r@ == self@,
    {
        Adwin { delta: self.delta, max_window: self.max_window, window: copy(&self.window), cuts: self.cuts }
    }

    /// Reads a number and decides whether the window must shrink.
    pub fn update<F: Fn(Double) -> Double>(&mut self, x: Double, ln: &F) -> (r: Qualified<DriftDecision>)
        requires
            old(self)@.room(1),
            is_function(*ln),
        ensures
            final(self)@ == old(self)@.watched(x, curve(*ln)).state,
            r.value == old(self)@.watched(x, curve(*ln)).decision,
            r.report@ == drift_issues(r.value),
    {
        if x.is_finite() {
            self.window.push(x);
        }
        trim_to(&mut self.window, self.max_window);
        assert(self@ == old(self)@.entered(x));
        let decision: DriftDecision = self.try_cut(ln);
        qualify(decision)
    }

    fn try_cut<F: Fn(Double) -> Double>(&mut self, ln: &F) -> (r: DriftDecision)
        requires
            old(self).cuts < u64::MAX,
            is_function(*ln),
        ensures
            ({
                let s = old(self)@;
                if s.window.len() < 16 {
                    final(self)@ == s && r == DriftDecision::Stable
                } else {
                    match s.cut_from(8, curve(*ln)) {
                        Some(i) => {
                            &&& final(self)@ == (AdwinState { window: s.window.skip(i as int), cuts: s.cuts + 1, ..s })
                            &&& r == (DriftDecision::Drift { statistic: s.contrast(i) })
                        },
                        None => final(self)@ == s && r == DriftDecision::Stable,
                    }
                }
            }),
    {
        let ghost s = self@;
        let n: usize = self.window.len();
        if n < 16 {
            return DriftDecision::Stable;
        }
        let mut prefix: Vec<Double> = Vec::new();
        prefix.push(zero());
        let mut k: usize = 0;
        while k < n
            invariant
                k <= n,
                n == self.window@.len(),
                s == self@,
                prefix@.len() == k + 1,
                forall|j: int| 0 <= j <= k ==> #[trigger] prefix@[j] == running_sum(s.window, j as nat),
            decreases n - k,
        {
            let v: Double = prefix[k].plus(self.window[k]);
            prefix.push(v);
            k = k + 1;
        }
        let total: Double = prefix[n];
        let nf: Double = Double::from_usize(n);
        let mut i: usize = 8;
        while i < n - 8
            invariant
                8 <= i <= n - 8,
                n == self.window@.len(),
                n >= 16,
                s == self@,
                s == old(self)@,
                self.cuts < u64::MAX,
                is_function(*ln),
                prefix@.len() == n + 1,
                forall|j: int| 0 <= j <= n ==> #[trigger] prefix@[j] == running_sum(s.window, j as nat),
                total == running_sum(s.window, n as nat),
                nf == Double::from_usize(n),
                s.cut_from(8, curve(*ln)) == s.cut_from(i as nat, curve(*ln)),
            decreases n - i,
        {
            let n0: Double = Double::from_usize(i);
            let n1: Double = Double::from_usize(n - i);
            let mu0: Double = prefix[i].over(n0);
            let mu1: Double = total.minus(prefix[i]).over(n1);
            let diff: Double = mu0.minus(mu1).abs();
            let m: Double = one().over(one().over(n0).plus(one().over(n1)));
            let level: Double = self.delta.over(nf.max(one())).max(ten_to_minus_16());
            let eps: Double = half().over(m).times(apply(ln, four().over(level))).sqrt();
            assert(diff == s.contrast(i as nat));
            assert(eps == s.allowance(i as nat, curve(*ln)));
            if diff.gt(eps) {
                let rest = part(&self.window, i, n);
                assert(rest@ =~= s.window.skip(i as int));
                self.window = rest;
                self.cuts = self.cuts + 1;
                assert(s.cut_from(i as nat, curve(*ln)) == Some(i as nat));
                assert(self@ == (AdwinState { window: s.window.skip(i as int), cuts: s.cuts + 1, ..s }));
                return DriftDecision::Drift { statistic: diff };
            }
            i = i + 1;
        }
        DriftDecision::Stable
    }
}

/// Change in a stream of errors, coded as zero and one, by the error rate and its
/// standard deviation.
#[derive(Clone, Copy, Debug, PartialEq, Eq, Structural)]
pub struct Ddm {
    /// Numbers since the last change.
    pub n: u64,
    /// Error rate.
    pub p: Double,
    /// Error rate at the best moment.
    pub p_min: Double,
    /// Standard deviation at the best moment.
    pub s_min: Double,
}

/// An error indicator as zero or one.
#[verifier::allow_in_spec]
pub fn error_of(x: Double) -> (r: Double)
    returns
        (if x.gt(half()) {
            one()
        } else {
            zero()
        }),
{
    if x.gt(half()) {
        one()
    } else {
        zero()
    }
}

impl Default for Ddm {
    fn default() -> (r: Ddm)
        ensures
            r == Ddm::blank(),
    {
        Ddm::new()
    }
}

impl Ddm {
    /// A new detector.
    pub open spec fn blank() -> Ddm {
        Ddm { n: 0, p: zero(), p_min: infinity(), s_min: infinity() }
    }

    /// A new detector.
    pub fn new() -> (r: Ddm)
        ensures
            r == Ddm::blank(),
    {
        Ddm { n: 0, p: zero(), p_min: infinity(), s_min: infinity() }
    }

    /// The rates after one more error indicator.
    pub open spec fn counted(self, x: Double) -> Ddm {
        let n = (self.n + 1) as u64;
        let count = Double::from_u64(n);
        let p = self.p.plus(error_of(x).minus(self.p).over(count));
        let s = Ddm { n, p, ..self }.spread();
        if p.plus(s).lt(self.p_min.plus(self.s_min)) {
            Ddm { n, p, p_min: p, s_min: s }
        } else {
            Ddm { n, p, ..self }
        }
    }

    /// Standard deviation of the error rate.
    pub open spec fn spread(self) -> Double {
        self.p.times(one().minus(self.p)).over(Double::from_u64(self.n)).max(zero()).sqrt()
    }

    /// The detector after one more error indicator.
    pub open spec fn watched(self, x: Double) -> Watch<Ddm> {
        let c = self.counted(x);
        let statistic = c.p.plus(c.spread());
        if c.n >= 30 && statistic.gt(c.p_min.plus(three().times(c.s_min))) {
            Watch { state: Ddm::blank(), decision: DriftDecision::Drift { statistic } }
        } else if c.n >= 30 && statistic.gt(c.p_min.plus(two().times(c.s_min))) {
            Watch { state: c, decision: DriftDecision::Warning { statistic } }
        } else {
            Watch { state: c, decision: DriftDecision::Stable }
        }
    }

    /// Reads an error indicator.
    pub fn update(&mut self, x: Double) -> (r: Qualified<DriftDecision>)
        requires
            old(self).n < u64::MAX,
        ensures
            *final(self) == old(self).watched(x).state,
            r.value == old(self).watched(x).decision,
            r.report@ == drift_issues(r.value),
    {
        let e: Double = error_of(x);
        self.n = self.n + 1;
        let count: Double = Double::from_u64(self.n);
        self.p = self.p.plus(e.minus(self.p).over(count));
        let s: Double = self.p.times(one().minus(self.p)).over(count).max(zero()).sqrt();
        if self.p.plus(s).lt(self.p_min.plus(self.s_min)) {
            self.p_min = self.p;
            self.s_min = s;
        }
        let statistic: Double = self.p.plus(s);
        if self.n >= 30 && statistic.gt(self.p_min.plus(three().times(self.s_min))) {
            *self = Ddm::new();
            qualify(DriftDecision::Drift { statistic })
        } else if self.n >= 30 && statistic.gt(self.p_min.plus(two().times(self.s_min))) {
            qualify(DriftDecision::Warning { statistic })
        } else {
            qualify(DriftDecision::Stable)
        }
    }
}

/// A change sets the error rate detector back to its first state, and none is
/// declared before the thirtieth number.
pub proof fn law_ddm_restarts(d: Ddm, x: Double)
    requires
        d.n < u64::MAX,
    ensures
        d.watched(x).decision is Drift ==> d.watched(x).state == Ddm::blank() && d.n >= 29,
        !(d.watched(x).decision is Drift) ==> d.watched(x).state.n == d.n + 1,
{
}

/// Change of the mean in either direction, by the cumulated deviations.
#[derive(Clone, Copy, Debug, PartialEq, Eq, Structural)]
pub struct PageHinkley {
    /// Size of change to detect.
    pub delta: Double,
    /// Threshold.
    pub lambda: Double,
    /// Mean since the last change.
    pub mean: Double,
    /// Numbers since the last change.
    pub n: u64,
    /// Cumulated deviations.
    pub cum: Double,
    /// Lowest value of `cum`.
    pub min_cum: Double,
    /// Highest value of `cum`.
    pub max_cum: Double,
}

impl Default for PageHinkley {
    fn default() -> (r: PageHinkley)
        ensures
            r == PageHinkley::blank(decimal_005(), fifty()),
    {
        PageHinkley::new(decimal_005(), fifty())
    }
}

impl PageHinkley {
    /// A new detector.
    pub open spec fn blank(delta: Double, lambda: Double) -> PageHinkley {
        PageHinkley {
            delta,
            lambda,
            mean: zero(),
            n: 0,
            cum: zero(),
            min_cum: zero(),
            max_cum: zero(),
        }
    }

    /// A detector for changes of size `delta` with threshold `lambda`.
    pub fn new(delta: Double, lambda: Double) -> (r: PageHinkley)
        ensures
            r == PageHinkley::blank(delta, lambda),
    {
        PageHinkley { delta, lambda, mean: zero(), n: 0, cum: zero(), min_cum: zero(), max_cum: zero() }
    }

    /// The sums after one more number.
    pub open spec fn summed(self, x: Double) -> PageHinkley {
        let n = (self.n + 1) as u64;
        let mean = self.mean.plus(x.minus(self.mean).over(Double::from_u64(n)));
        let cum = self.cum.plus(x.minus(mean).minus(self.delta));
        PageHinkley {
            mean,
            n,
            cum,
            min_cum: if cum.lt(self.min_cum) {
                cum
            } else {
                self.min_cum
            },
            max_cum: if cum.gt(self.max_cum) {
                cum
            } else {
                self.max_cum
            },
            ..self
        }
    }

    /// The larger of the rise above the lowest and the fall below the highest sum.
    pub open spec fn statistic(self) -> Double {
        self.cum.minus(self.min_cum).max(self.max_cum.minus(self.cum))
    }

    /// The detector after one more number; one that is not finite is skipped.
    pub open spec fn watched(self, x: Double) -> Watch<PageHinkley> {
        if !x.is_finite() {
            Watch { state: self, decision: DriftDecision::Stable }
        } else {
            let s = self.summed(x);
            if s.statistic().gt(self.lambda) {
                Watch {
                    state: PageHinkley::blank(self.delta, self.lambda),
                    decision: DriftDecision::Drift { statistic: s.statistic() },
                }
            } else {
                Watch { state: s, decision: DriftDecision::Stable }
            }
        }
    }

    /// Reads a number.
    pub fn update(&mut self, x: Double) -> (r: Qualified<DriftDecision>)
        requires
            old(self).n < u64::MAX,
        ensures
            *final(self) == old(self).watched(x).state,
            r.value == old(self).watched(x).decision,
            r.report@ == drift_issues(r.value),
    {
        if !x.is_finite() {
            return qualify(DriftDecision::Stable);
        }
        self.n = self.n + 1;
        self.mean = self.mean.plus(x.minus(self.mean).over(Double::from_u64(self.n)));
        self.cum = self.cum.plus(x.minus(self.mean).minus(self.delta));
        if self.cum.lt(self.min_cum) {
            self.min_cum = self.cum;
        }
        if self.cum.gt(self.max_cum) {
            self.max_cum = self.cum;
        }
        let up: Double = self.cum.minus(self.min_cum);
        let down: Double = self.max_cum.minus(self.cum);
        let statistic: Double = up.max(down);
        if statistic.gt(self.lambda) {
            *self = PageHinkley::new(self.delta, self.lambda);
            qualify(DriftDecision::Drift { statistic })
        } else {
            qualify(DriftDecision::Stable)
        }
    }
}

/// Change in a stream of errors, coded as zero and one: the error rate is compared
/// with its lowest value by Hoeffding bounds.
#[derive(Clone, Copy, Debug, PartialEq, Eq, Structural)]
pub struct Hddm {
    /// Confidence.
    pub delta: Double,
    /// Numbers since the last change.
    pub n: u64,
    /// Error rate.
    pub mean: Double,
    /// Numbers at the best moment.
    pub n_min: u64,
    /// Error rate at the best moment.
    pub mean_min: Double,
    /// Batches read.
    pub updates: u64,
}

impl Default for Hddm {
    fn default() -> (r: Hddm)
        ensures
            r == Hddm::blank(),
    {
        Hddm::new()
    }
}

impl Hddm {
    /// A new detector.
    pub open spec fn blank() -> Hddm {
        Hddm { delta: decimal_002(), n: 0, mean: zero(), n_min: 0, mean_min: infinity(), updates: 0 }
    }

    /// A new detector.
    pub fn new() -> (r: Hddm)
        ensures
            r == Hddm::blank(),
    {
        Hddm { delta: decimal_002(), n: 0, mean: zero(), n_min: 0, mean_min: infinity(), updates: 0 }
    }

    /// Hoeffding bound for the mean of `n` numbers.
    pub open spec fn bound_of(n: u64, delta: Double, ln: Curve) -> Double {
        if n == 0 {
            infinity()
        } else {
            half().over(Double::from_u64(n)).times(ln(one().over(delta.max(ten_to_minus_16())))).sqrt()
        }
    }

    fn bound<F: Fn(Double) -> Double>(n: u64, delta: Double, ln: &F) -> (r: Double)
        requires
            is_function(*ln),
        ensures
            r == Hddm::bound_of(n, delta, curve(*ln)),
    {
        if n == 0 {
            return infinity();
        }
        half().over(Double::from_u64(n)).times(apply(ln, one().over(delta.max(ten_to_minus_16())))).sqrt()
    }

    /// The means after one more error indicator.
    pub open spec fn counted(self, x: Double, ln: Curve) -> Hddm {
        let n = (self.n + 1) as u64;
        let mean = self.mean.plus(error_of(x).minus(self.mean).over(Double::from_u64(n)));
        if mean.plus(Hddm::bound_of(n, self.delta, ln)).lt(self.mean_min.plus(self.low_bound(ln))) {
            Hddm { n, mean, mean_min: mean, n_min: n, ..self }
        } else {
            Hddm { n, mean, ..self }
        }
    }

    /// Bound at the best moment.
    pub open spec fn low_bound(self, ln: Curve) -> Double {
        Hddm::bound_of(
            if self.n_min < 1 {
                1
            } else {
                self.n_min
            },
            self.delta, ln,
        )
    }

    /// The detector after one more error indicator. The bound of the best moment is
    /// the one from before the number.
    pub open spec fn stepped(self, x: Double, ln: Curve) -> Watch<Hddm> {
        let c = self.counted(x, ln);
        let eps = Hddm::bound_of(c.n, self.delta, ln);
        let low = self.low_bound(ln);
        let statistic = c.mean.minus(c.mean_min);
        if c.n >= 30 && c.mean.minus(eps).gt(c.mean_min.plus(low)) {
            Watch {
                state: Hddm { n: 0, mean: zero(), n_min: 0, mean_min: infinity(), ..c },
                decision: DriftDecision::Drift { statistic },
            }
        } else if c.n >= 30 && c.mean.minus(half().times(eps)).gt(c.mean_min.plus(half().times(low))) {
            Watch { state: c, decision: DriftDecision::Warning { statistic } }
        } else {
            Watch { state: c, decision: DriftDecision::Stable }
        }
    }

    /// Reads an error indicator.
    pub fn update<F: Fn(Double) -> Double>(&mut self, x: Double, ln: &F) -> (r: Qualified<DriftDecision>)
        requires
            old(self).n < u64::MAX,
            is_function(*ln),
        ensures
            *final(self) == old(self).stepped(x, curve(*ln)).state,
            r.value == old(self).stepped(x, curve(*ln)).decision,
            r.report@ == drift_issues(r.value),
    {
        let e: Double = error_of(x);
        self.n = self.n + 1;
        self.mean = self.mean.plus(e.minus(self.mean).over(Double::from_u64(self.n)));
        let eps: Double = Hddm::bound(self.n, self.delta, ln);
        let low: Double = Hddm::bound(
            if self.n_min < 1 {
                1
            } else {
                self.n_min
            },
            self.delta, ln,
        );
        if self.mean.plus(eps).lt(self.mean_min.plus(low)) {
            self.mean_min = self.mean;
            self.n_min = self.n;
        }
        let statistic: Double = self.mean.minus(self.mean_min);
        if self.n >= 30 && self.mean.minus(eps).gt(self.mean_min.plus(low)) {
            self.n = 0;
            self.mean = zero();
            self.n_min = 0;
            self.mean_min = infinity();
            qualify(DriftDecision::Drift { statistic })
        } else if self.n >= 30 && self.mean.minus(half().times(eps)).gt(self.mean_min.plus(half().times(low))) {
            qualify(DriftDecision::Warning { statistic })
        } else {
            qualify(DriftDecision::Stable)
        }
    }

    /// What a batch does: the first column is read row by row.
    pub open spec fn answers(self, after: Hddm, x: &Matrix, step: spec_fn(Hddm, Double) -> Watch<Hddm>, r: &Update) -> bool {
        let p = patrolled(self, step, x, x.height());
        &&& after == (Hddm { updates: (self.updates + 1) as u64, ..p.state })
        &&& reports(r, after.figures(p.fired, x.height() as usize), Seq::empty(), false)
    }

    /// Quality figures after a batch.
    pub open spec fn figures(self, fired: Double, batch: usize) -> IncrementalQuality {
        IncrementalQuality {
            effective_sample_size: Double::from_u64(self.n),
            information_gain: Some(fired),
            drift_statistic: Some(self.mean),
            still_identified: self.n >= 30,
            warmup: self.n < 30,
            ..IncrementalQuality::new((self.updates - 1) as u64, batch, self.n)
        }
    }

    /// Reads the first column of a batch.
    pub fn partial_fit<F: Fn(Double) -> Double>(&mut self, x: &Matrix, _y: Option<&Vec<Double>>, ln: &F) -> (r: Update)
        requires
            x.wf(),
            x.width > 0 || x.height() == 0,
            old(self).n + x.height() <= u64::MAX,
            old(self).updates < u64::MAX,
            is_function(*ln),
        ensures
            old(self).answers(*final(self), x, |s: Hddm, v: Double| s.stepped(v, curve(*ln)), &r),
    {
        let ghost start = *self;
        let ghost step = |s: Hddm, v: Double| s.stepped(v, curve(*ln));
        let mut fired: Double = zero();
        let mut i: usize = 0;
        while i < x.nrows()
            invariant
                i <= x.height(),
                x.wf(),
                x.width > 0 || x.height() == 0,
                step == (|s: Hddm, v: Double| s.stepped(v, curve(*ln))),
                *self == patrolled(start, step, x, i as nat).state,
                fired == patrolled(start, step, x, i as nat).fired,
                start == *old(self),
                self.updates == start.updates,
                self.n <= start.n + i,
                start.n + x.height() <= u64::MAX,
            is_function(*ln),
            decreases x.height() - i,
        {
            let q = self.update(x.get(i, 0), ln);
            if let DriftDecision::Drift { statistic } = q.value {
                fired = fired.plus(one());
            }
            i = i + 1;
        }
        self.updates = self.updates + 1;
        let batch: usize = x.nrows();
        let quality = IncrementalQuality {
            effective_sample_size: Double::from_u64(self.n),
            information_gain: Some(fired),
            drift_statistic: Some(self.mean),
            still_identified: self.n >= 30,
            warmup: self.n < 30,
            ..IncrementalQuality::new(self.updates - 1, batch, self.n)
        };
        let issues: Vec<Issue> = Vec::new();
        assert(issues@ =~= Seq::empty());
        plain_report(quality, issues)
    }
}

/// Change in a stream of errors, coded as zero and one: an exponentially weighted
/// error rate is compared with its lowest value by weighted Hoeffding bounds.
#[derive(Clone, Copy, Debug, PartialEq, Eq, Structural)]
pub struct HddmW {
    /// Confidence.
    pub delta: Double,
    /// Weight of a new number.
    pub lambda: Double,
    /// Numbers since the last change.
    pub n: u64,
    /// Error rate.
    pub mean: Double,
    /// Numbers at the best moment.
    pub n_min: u64,
    /// Error rate at the best moment.
    pub mean_min: Double,
    /// Batches read.
    pub updates: u64,
}

impl Default for HddmW {
    fn default() -> (r: HddmW)
        ensures
            r == HddmW::blank(),
    {
        HddmW::new()
    }
}

impl HddmW {
    /// A new detector.
    pub open spec fn blank() -> HddmW {
        HddmW { delta: decimal_002(), lambda: twentieth(), n: 0, mean: zero(), n_min: 0, mean_min: infinity(), updates: 0 }
    }

    /// A new detector.
    pub fn new() -> (r: HddmW)
        ensures
            r == HddmW::blank(),
    {
        HddmW { delta: decimal_002(), lambda: twentieth(), n: 0, mean: zero(), n_min: 0, mean_min: infinity(), updates: 0 }
    }

    /// Hoeffding bound for the weighted mean of `n` numbers.
    pub open spec fn bound_of(n: u64, weight: Double, delta: Double, ln: Curve, pow: Surface) -> Double {
        if n == 0 {
            infinity()
        } else {
            let decay = one().minus(pow(one().minus(weight), Double::from_u64(n)));
            let effective = weight.over(decay.max(ten_to_minus_18())).min(one());
            half().times(effective).times(ln(one().over(delta.max(ten_to_minus_16())))).sqrt()
        }
    }

    fn bound<F: Fn(Double) -> Double, P: Fn(Double, Double) -> Double>(
        n: u64,
        weight: Double,
        delta: Double,
        ln: &F,
        pow: &P,
    ) -> (r: Double)
        requires
            is_function(*ln),
            is_function_of_two(*pow),
        ensures
            r == HddmW::bound_of(n, weight, delta, curve(*ln), surface(*pow)),
    {
        if n == 0 {
            return infinity();
        }
        let decay: Double = one().minus(apply_two(pow, one().minus(weight), Double::from_u64(n)));
        let effective: Double = weight.over(decay.max(ten_to_minus_18())).min(one());
        half().times(effective).times(apply(ln, one().over(delta.max(ten_to_minus_16())))).sqrt()
    }

    /// The means after one more error indicator.
    pub open spec fn counted(self, x: Double, ln: Curve, pow: Surface) -> HddmW {
        let n = (self.n + 1) as u64;
        let weight = self.lambda.clamp(ten_to_minus_6(), one());
        let mean = if n == 1 {
            error_of(x)
        } else {
            weight.times(error_of(x)).plus(one().minus(weight).times(self.mean))
        };
        if mean.plus(HddmW::bound_of(n, weight, self.delta, ln, pow)).lt(self.mean_min.plus(self.low_bound(ln, pow))) {
            HddmW { n, mean, mean_min: mean, n_min: n, ..self }
        } else {
            HddmW { n, mean, ..self }
        }
    }

    /// Bound at the best moment.
    pub open spec fn low_bound(self, ln: Curve, pow: Surface) -> Double {
        let weight = self.lambda.clamp(ten_to_minus_6(), one());
        HddmW::bound_of(
            if self.n_min < 1 {
                1
            } else {
                self.n_min
            },
            weight, self.delta, ln, pow,
        )
    }

    /// The detector after one more error indicator. The bound of the best moment is
    /// the one from before the number.
    pub open spec fn stepped(self, x: Double, ln: Curve, pow: Surface) -> Watch<HddmW> {
        let weight = self.lambda.clamp(ten_to_minus_6(), one());
        let c = self.counted(x, ln, pow);
        let eps = HddmW::bound_of(c.n, weight, self.delta, ln, pow);
        let low = self.low_bound(ln, pow);
        let statistic = c.mean.minus(c.mean_min);
        if c.n >= 30 && c.mean.minus(eps).gt(c.mean_min.plus(low)) {
            Watch {
                state: HddmW { n: 0, mean: zero(), n_min: 0, mean_min: infinity(), ..c },
                decision: DriftDecision::Drift { statistic },
            }
        } else if c.n >= 30 && c.mean.minus(half().times(eps)).gt(c.mean_min.plus(half().times(low))) {
            Watch { state: c, decision: DriftDecision::Warning { statistic } }
        } else {
            Watch { state: c, decision: DriftDecision::Stable }
        }
    }

    /// Reads an error indicator.
    pub fn update<F: Fn(Double) -> Double, P: Fn(Double, Double) -> Double>(&mut self, x: Double, ln: &F, pow: &P) -> (r: Qualified<DriftDecision>)
        requires
            old(self).n < u64::MAX,
            is_function(*ln),
            is_function_of_two(*pow),
        ensures
            *final(self) == old(self).stepped(x, curve(*ln), surface(*pow)).state,
            r.value == old(self).stepped(x, curve(*ln), surface(*pow)).decision,
            r.report@ == drift_issues(r.value),
    {
        let e: Double = error_of(x);
        self.n = self.n + 1;
        let weight: Double = self.lambda.clamp(ten_to_minus_6(), one());
        if self.n == 1 {
            self.mean = e;
        } else {
            self.mean = weight.times(e).plus(one().minus(weight).times(self.mean));
        }
        let eps: Double = HddmW::bound(self.n, weight, self.delta, ln, pow);
        let low: Double = HddmW::bound(
            if self.n_min < 1 {
                1
            } else {
                self.n_min
            },
            weight, self.delta, ln, pow,
        );
        if self.mean.plus(eps).lt(self.mean_min.plus(low)) {
            self.mean_min = self.mean;
            self.n_min = self.n;
        }
        let statistic: Double = self.mean.minus(self.mean_min);
        if self.n >= 30 && self.mean.minus(eps).gt(self.mean_min.plus(low)) {
            self.n = 0;
            self.mean = zero();
            self.n_min = 0;
            self.mean_min = infinity();
            qualify(DriftDecision::Drift { statistic })
        } else if self.n >= 30 && self.mean.minus(half().times(eps)).gt(self.mean_min.plus(half().times(low))) {
            qualify(DriftDecision::Warning { statistic })
        } else {
            qualify(DriftDecision::Stable)
        }
    }

    /// What a batch does: the first column is read row by row.
    pub open spec fn answers(self, after: HddmW, x: &Matrix, step: spec_fn(HddmW, Double) -> Watch<HddmW>, r: &Update) -> bool {
        let p = patrolled(self, step, x, x.height());
        &&& after == (HddmW { updates: (self.updates + 1) as u64, ..p.state })
        &&& reports(r, after.figures(p.fired, x.height() as usize), Seq::empty(), false)
    }

    /// Quality figures after a batch.
    pub open spec fn figures(self, fired: Double, batch: usize) -> IncrementalQuality {
        IncrementalQuality {
            effective_sample_size: Double::from_u64(self.n),
            information_gain: Some(fired),
            drift_statistic: Some(self.mean),
            still_identified: self.n >= 30,
            warmup: self.n < 30,
            ..IncrementalQuality::new((self.updates - 1) as u64, batch, self.n)
        }
    }

    /// Reads the first column of a batch.
    pub fn partial_fit<F: Fn(Double) -> Double, P: Fn(Double, Double) -> Double>(&mut self, x: &Matrix, _y: Option<&Vec<Double>>, ln: &F, pow: &P) -> (r: Update)
        requires
            x.wf(),
            x.width > 0 || x.height() == 0,
            old(self).n + x.height() <= u64::MAX,
            old(self).updates < u64::MAX,
            is_function(*ln),
            is_function_of_two(*pow),
        ensures
            old(self).answers(*final(self), x, |s: HddmW, v: Double| s.stepped(v, curve(*ln), surface(*pow)), &r),
    {
        let ghost start = *self;
        let ghost step = |s: HddmW, v: Double| s.stepped(v, curve(*ln), surface(*pow));
        let mut fired: Double = zero();
        let mut i: usize = 0;
        while i < x.nrows()
            invariant
                i <= x.height(),
                x.wf(),
                x.width > 0 || x.height() == 0,
                step == (|s: HddmW, v: Double| s.stepped(v, curve(*ln), surface(*pow))),
                *self == patrolled(start, step, x, i as nat).state,
                fired == patrolled(start, step, x, i as nat).fired,
                start == *old(self),
                self.updates == start.updates,
                self.n <= start.n + i,
                start.n + x.height() <= u64::MAX,
            is_function(*ln),
            is_function_of_two(*pow),
            decreases x.height() - i,
        {
            let q = self.update(x.get(i, 0), ln, pow);
            if let DriftDecision::Drift { statistic } = q.value {
                fired = fired.plus(one());
            }
            i = i + 1;
        }
        self.updates = self.updates + 1;
        let batch: usize = x.nrows();
        let quality = IncrementalQuality {
            effective_sample_size: Double::from_u64(self.n),
            information_gain: Some(fired),
            drift_statistic: Some(self.mean),
            still_identified: self.n >= 30,
            warmup: self.n < 30,
            ..IncrementalQuality::new(self.updates - 1, batch, self.n)
        };
        let issues: Vec<Issue> = Vec::new();
        assert(issues@ =~= Seq::empty());
        plain_report(quality, issues)
    }
}

/// Change in a stream of errors, coded as zero and one, by the distance between
/// errors.
#[derive(Clone, Copy, Debug, PartialEq, Eq, Structural)]
pub struct Eddm {
    /// Numbers since the last change.
    pub n: u64,
    /// Position of the last error.
    pub last_error_at: Option<u64>,
    /// Mean distance between errors.
    pub mean_d: Double,
    /// Sum of squared deviations of the distances.
    pub m2_d: Double,
    /// Distances measured.
    pub n_err: u64,
    /// Largest value of the statistic.
    pub max_mean2s: Double,
    /// Batches read.
    pub updates: u64,
}

impl Default for Eddm {
    fn default() -> (r: Eddm)
        ensures
            r == Eddm::blank(0),
    {
        Eddm::new()
    }
}

impl Eddm {
    /// A detector without numbers.
    pub open spec fn blank(updates: u64) -> Eddm {
        Eddm {
            n: 0,
            last_error_at: None,
            mean_d: zero(),
            m2_d: zero(),
            n_err: 0,
            max_mean2s: zero(),
            updates,
        }
    }

    /// A new detector.
    pub fn new() -> (r: Eddm)
        ensures
            r == Eddm::blank(0),
    {
        Eddm {
            n: 0,
            last_error_at: None,
            mean_d: zero(),
            m2_d: zero(),
            n_err: 0,
            max_mean2s: zero(),
            updates: 0,
        }
    }

    /// The last error lies in the past, and there are no more distances than numbers.
    pub open spec fn wf(self) -> bool {
        &&& self.last_error_at matches Some(p) ==> p <= self.n
        &&& self.n_err <= self.n
    }

    /// The distances after one more error indicator.
    pub open spec fn measured(self, x: Double) -> Eddm {
        let n = (self.n + 1) as u64;
        if !error_of(x).gt(half()) {
            Eddm { n, ..self }
        } else {
            match self.last_error_at {
                None => Eddm { n, last_error_at: Some(n), ..self },
                Some(p) => {
                    let d = Double::from_u64((n - p) as u64);
                    let n_err = (self.n_err + 1) as u64;
                    let shift = d.minus(self.mean_d);
                    let mean_d = self.mean_d.plus(shift.over(Double::from_u64(n_err)));
                    Eddm {
                        n,
                        last_error_at: Some(n),
                        mean_d,
                        m2_d: self.m2_d.plus(shift.times(d.minus(mean_d))),
                        n_err,
                        ..self
                    }
                },
            }
        }
    }

    /// Mean distance plus two standard deviations.
    pub open spec fn statistic(self) -> Double {
        let sd = if self.n_err > 1 {
            self.m2_d.over(Double::from_u64((self.n_err - 1) as u64)).max(zero()).sqrt()
        } else {
            zero()
        };
        self.mean_d.plus(two().times(sd))
    }

    /// The detector after one more error indicator.
    pub open spec fn stepped(self, x: Double) -> Watch<Eddm> {
        let m = self.measured(x);
        let statistic = m.statistic();
        let c = if statistic.gt(m.max_mean2s) {
            Eddm { max_mean2s: statistic, ..m }
        } else {
            m
        };
        let ripe = c.n_err >= 30 && c.max_mean2s.gt(zero());
        if ripe && statistic.lt(decimal_9().times(c.max_mean2s)) {
            Watch { state: Eddm::blank(self.updates), decision: DriftDecision::Drift { statistic } }
        } else if ripe && statistic.lt(decimal_95().times(c.max_mean2s)) {
            Watch { state: c, decision: DriftDecision::Warning { statistic } }
        } else {
            Watch { state: c, decision: DriftDecision::Stable }
        }
    }

    /// Reads an error indicator.
    pub fn update(&mut self, x: Double) -> (r: Qualified<DriftDecision>)
        requires
            old(self).n < u64::MAX,
            old(self).wf(),
        ensures
            final(self).wf(),
            *final(self) == old(self).stepped(x).state,
            r.value == old(self).stepped(x).decision,
            r.report@ == drift_issues(r.value),
    {
        let e: Double = error_of(x);
        self.n = self.n + 1;
        if e.gt(half()) {
            if let Some(p) = self.last_error_at {
                let d: Double = Double::from_u64(self.n - p);
                self.n_err = self.n_err + 1;
                let shift: Double = d.minus(self.mean_d);
                self.mean_d = self.mean_d.plus(shift.over(Double::from_u64(self.n_err)));
                self.m2_d = self.m2_d.plus(shift.times(d.minus(self.mean_d)));
            }
            self.last_error_at = Some(self.n);
        }
        let sd: Double = if self.n_err > 1 {
            self.m2_d.over(Double::from_u64(self.n_err - 1)).max(zero()).sqrt()
        } else {
            zero()
        };
        let statistic: Double = self.mean_d.plus(two().times(sd));
        if statistic.gt(self.max_mean2s) {
            self.max_mean2s = statistic;
        }
        let ripe: bool = self.n_err >= 30 && self.max_mean2s.gt(zero());
        if ripe && statistic.lt(decimal_9().times(self.max_mean2s)) {
            let updates: u64 = self.updates;
            *self = Eddm::new();
            self.updates = updates;
            qualify(DriftDecision::Drift { statistic })
        } else if ripe && statistic.lt(decimal_95().times(self.max_mean2s)) {
            qualify(DriftDecision::Warning { statistic })
        } else {
            qualify(DriftDecision::Stable)
        }
    }

    /// What a batch does: the first column is read row by row.
    pub open spec fn answers(self, after: Eddm, x: &Matrix, step: spec_fn(Eddm, Double) -> Watch<Eddm>, r: &Update) -> bool {
        let p = patrolled(self, step, x, x.height());
        &&& after == (Eddm { updates: (self.updates + 1) as u64, ..p.state })
        &&& reports(r, after.figures(p.fired, x.height() as usize), Seq::empty(), false)
    }

    /// Quality figures after a batch.
    pub open spec fn figures(self, fired: Double, batch: usize) -> IncrementalQuality {
        IncrementalQuality {
            effective_sample_size: Double::from_u64(self.n),
            information_gain: Some(fired),
            drift_statistic: Some(self.mean_d),
            still_identified: self.n_err >= 30,
            warmup: self.n_err < 30,
            ..IncrementalQuality::new((self.updates - 1) as u64, batch, self.n)
        }
    }

    /// Reads the first column of a batch.
    pub fn partial_fit(&mut self, x: &Matrix, _y: Option<&Vec<Double>>) -> (r: Update)
        requires
            x.wf(),
            x.width > 0 || x.height() == 0,
            old(self).n + x.height() <= u64::MAX,
            old(self).wf(),
            old(self).updates < u64::MAX,
        ensures
            old(self).answers(*final(self), x, |s: Eddm, v: Double| s.stepped(v), &r),
    {
        let ghost start = *self;
        let ghost step = |s: Eddm, v: Double| s.stepped(v);
        let mut fired: Double = zero();
        let mut i: usize = 0;
        while i < x.nrows()
            invariant
                i <= x.height(),
                x.wf(),
                x.width > 0 || x.height() == 0,
                step == (|s: Eddm, v: Double| s.stepped(v)),
                *self == patrolled(start, step, x, i as nat).state,
                fired == patrolled(start, step, x, i as nat).fired,
                start == *old(self),
                self.updates == start.updates,
                self.n <= start.n + i,
                self.wf(),
                start.n + x.height() <= u64::MAX,
            decreases x.height() - i,
        {
            let q = self.update(x.get(i, 0));
            if let DriftDecision::Drift { statistic } = q.value {
                fired = fired.plus(one());
            }
            i = i + 1;
        }
        self.updates = self.updates + 1;
        let batch: usize = x.nrows();
        let quality = IncrementalQuality {
            effective_sample_size: Double::from_u64(self.n),
            information_gain: Some(fired),
            drift_statistic: Some(self.mean_d),
            still_identified: self.n_err >= 30,
            warmup: self.n_err < 30,
            ..IncrementalQuality::new(self.updates - 1, batch, self.n)
        };
        let issues: Vec<Issue> = Vec::new();
        assert(issues@ =~= Seq::empty());
        plain_report(quality, issues)
    }
}

/// How many of the first `k` entries are at most `t`.
pub open spec fn count_at_most(s: Seq<Double>, t: Double, k: nat) -> nat
    decreases k,
{
    if k == 0 {
        0
    } else {
        count_at_most(s, t, (k - 1) as nat) + if s[k - 1].le(t) {
            1nat
        } else {
            0nat
        }
    }
}

/// The empirical distribution function: the share of entries that are at most `t`.
pub open spec fn distribution(s: Seq<Double>, t: Double) -> Double {
    share(count_at_most(s, t, s.len()), s.len())
}

/// Distance of two empirical distributions at `t`.
pub open spec fn gap_at(a: Seq<Double>, b: Seq<Double>, t: Double) -> Double {
    distribution(a, t).minus(distribution(b, t)).abs()
}

/// Largest distance of two empirical distributions at the first `k` of some points.
pub open spec fn gap_over(a: Seq<Double>, b: Seq<Double>, points: Seq<Double>, k: nat) -> Double
    decreases k,
{
    if k == 0 {
        zero()
    } else {
        gap_over(a, b, points, (k - 1) as nat).max(gap_at(a, b, points[k - 1]))
    }
}

/// The Kolmogorov-Smirnov statistic: the largest distance of two empirical
/// distributions. They only change at the entries.
pub open spec fn largest_gap(a: Seq<Double>, b: Seq<Double>) -> Double {
    gap_over(a, b, a + b, a.len() + b.len())
}

proof fn lemma_count_range(s: Seq<Double>, t: Double, k: nat)
    ensures
        count_at_most(s, t, k) <= k,
    decreases k,
{
    if k > 0 {
        lemma_count_range(s, t, (k - 1) as nat);
    }
}

/// An empirical distribution is finite, and so is the distance of two.
proof fn lemma_gap_is_finite(a: Seq<Double>, b: Seq<Double>, t: Double)
    requires
        a.len() <= usize::MAX,
        b.len() <= usize::MAX,
    ensures
        distribution(a, t).finite(),
        distribution(b, t).finite(),
        gap_at(a, b, t).finite(),
        !gap_at(a, b, t).negative(),
{
    lemma_count_range(a, t, a.len());
    lemma_count_range(b, t, b.len());
    lemma_ratio_is_finite(
        count_at_most(a, t, a.len()) as u64,
        if a.len() < 1 {
            1
        } else {
            a.len() as u64
        },
    );
    lemma_ratio_is_finite(
        count_at_most(b, t, b.len()) as u64,
        if b.len() < 1 {
            1
        } else {
            b.len() as u64
        },
    );
    lemma_difference_is_finite(distribution(a, t), distribution(b, t));
}

/// The statistic is exceeded at none of the points, and is reached at one unless it is
/// zero.
pub proof fn law_largest_gap(a: Seq<Double>, b: Seq<Double>, points: Seq<Double>, k: nat)
    requires
        k <= points.len(),
        a.len() <= usize::MAX,
        b.len() <= usize::MAX,
    ensures
        gap_over(a, b, points, k).finite(),
        forall|i: int| 0 <= i < k ==> gap_at(a, b, #[trigger] points[i]).le(gap_over(a, b, points, k)),
        gap_over(a, b, points, k) == zero() || exists|i: int|
            0 <= i < k && gap_over(a, b, points, k) == gap_at(a, b, #[trigger] points[i]),
    decreases k,
{
    if k > 0 {
        law_largest_gap(a, b, points, (k - 1) as nat);
        let before = gap_over(a, b, points, (k - 1) as nat);
        let here = gap_at(a, b, points[k - 1]);
        lemma_gap_is_finite(a, b, points[k - 1]);
        assert(gap_over(a, b, points, k) == before || gap_over(a, b, points, k) == here);
    }
}

/// Lists with the same distribution at the points have no gap there.
pub proof fn law_equal_distributions(a: Seq<Double>, b: Seq<Double>, points: Seq<Double>, k: nat)
    requires
        k <= points.len(),
        a.len() <= usize::MAX,
        b.len() <= usize::MAX,
        forall|i: int| 0 <= i < k ==> distribution(a, #[trigger] points[i]) == distribution(b, points[i]),
    ensures
        gap_over(a, b, points, k) == zero(),
    decreases k,
{
    if k > 0 {
        law_equal_distributions(a, b, points, (k - 1) as nat);
        let t = points[k - 1];
        lemma_gap_is_finite(a, b, t);
        lemma_minus_equal(distribution(a, t), distribution(b, t));
        assert(gap_at(a, b, t) == zero());
    }
}

fn count_up_to(s: &Vec<Double>, t: Double) -> (n: usize)
    ensures
        n == count_at_most(s@, t, s@.len()),
{
    let mut n: usize = 0;
    let mut i: usize = 0;
    while i < s.len()
        invariant
            i <= s@.len(),
            n <= i,
            n == count_at_most(s@, t, i as nat),
        decreases s@.len() - i,
    {
        if s[i].le(t) {
            n = n + 1;
        }
        i = i + 1;
    }
    n
}

fn measure_gap(a: &Vec<Double>, b: &Vec<Double>, t: Double) -> (d: Double)
    ensures
        d == gap_at(a@, b@, t),
{
    share_of(count_up_to(a, t), a.len()).minus(share_of(count_up_to(b, t), b.len())).abs()
}

/// `k` out of `n`, as a number.
pub open spec fn share(k: nat, n: nat) -> Double {
    Double::from_usize(k as usize).over(
        Double::from_usize(
            if n < 1 {
                1
            } else {
                n as usize
            },
        ),
    )
}

fn share_of(k: usize, n: usize) -> (r: Double)
    ensures
        r == share(k as nat, n as nat),
{
    Double::from_usize(k).over(
        Double::from_usize(
            if n < 1 {
                1
            } else {
                n
            },
        ),
    )
}

/// Every entry is finite.
pub open spec fn finite_window(s: Seq<Double>) -> bool {
    forall|i: int| 0 <= i < s.len() ==> (#[trigger] s[i]).is_finite()
}

/// Sliding window in which the newest numbers are compared with the others by the
/// gap between their distributions.
#[derive(Clone, Debug)]
pub struct Kswin {
    /// Longest window.
    pub window_size: usize,
    /// Newest numbers to compare.
    pub stat_size: usize,
    /// Level of the test.
    pub alpha: Double,
    /// The window, oldest number first.
    pub window: Vec<Double>,
    /// Numbers read.
    pub n_seen: u64,
    /// Batches read.
    pub updates: u64,
}

/// The state of a sliding window.
pub struct KswinState {
    /// Longest window.
    pub window_size: usize,
    /// Newest numbers to compare.
    pub stat_size: usize,
    /// Level of the test.
    pub alpha: Double,
    /// The window.
    pub window: Seq<Double>,
    /// Numbers read.
    pub n_seen: nat,
    /// Batches read.
    pub updates: nat,
}

impl View for Kswin {
    type V = KswinState;

    open spec fn view(&self) -> KswinState {
        KswinState {
            window_size: self.window_size,
            stat_size: self.stat_size,
            alpha: self.alpha,
            window: self.window@,
            n_seen: self.n_seen as nat,
            updates: self.updates as nat,
        }
    }
}

impl KswinState {
    /// A new window.
    pub open spec fn blank(window_size: usize) -> KswinState {
        KswinState {
            window_size,
            stat_size: 30,
            alpha: decimal_005(),
            window: Seq::empty(),
            n_seen: 0,
            updates: 0,
        }
    }

    /// The window with a new number; one that is not finite is skipped.
    pub open spec fn entered(self, x: Double) -> KswinState {
        let window = if x.is_finite() {
            self.window.push(x)
        } else {
            self.window
        };
        KswinState { window: latest(window, self.window_size as nat), n_seen: self.n_seen + 1, ..self }
    }

    /// Numbers that a test needs.
    pub open spec fn needed(self) -> nat {
        if self.stat_size < 16 {
            32
        } else {
            2 * self.stat_size as nat
        }
    }

    /// How many of `n` numbers count as the newest.
    pub open spec fn recent(self, n: nat) -> nat {
        if self.stat_size < n / 2 {
            self.stat_size as nat
        } else {
            n / 2
        }
    }

    /// Where the newest numbers start.
    pub open spec fn boundary(self) -> nat {
        (self.window.len() - self.recent(self.window.len())) as nat
    }

    /// With `n` numbers on hand, before the oldest are dropped, every figure of a test
    /// stays within the machine's range.
    pub open spec fn modest(self, n: nat) -> bool {
        let m = if n < self.window_size {
            n
        } else {
            self.window_size as nat
        };
        &&& n <= usize::MAX
        &&& self.needed() <= usize::MAX
        &&& m >= self.needed() ==> (m - self.recent(m)) * self.recent(m) <= usize::MAX
    }

    proof fn lemma_modest(self, fewer: nat, n: nat)
        requires
            self.modest(n),
            fewer <= n,
        ensures
            self.modest(fewer),
    {
        let w = self.window_size as nat;
        let m = if n < w {
            n
        } else {
            w
        };
        let l = if fewer < w {
            fewer
        } else {
            w
        };
        if l >= self.needed() {
            let (a, b) = (m - self.recent(m), self.recent(m) as int);
            let (c, d) = (l - self.recent(l), self.recent(l) as int);
            assert(c * d <= a * b) by (nonlinear_arith)
                requires
                    0 <= c <= a,
                    0 <= d <= b,
            ;
        }
    }

    /// Gap between the distributions of older and newest numbers.
    pub open spec fn gap(self) -> Double {
        let k = self.boundary() as int;
        largest_gap(self.window.take(k), self.window.skip(k))
    }

    /// The gap that chance allows.
    pub open spec fn allowance(self, ln: Curve) -> Double {
        let past = self.boundary();
        let recent = (self.window.len() - past) as nat;
        neg_half().times(ln(self.alpha.max(ten_to_minus_12()).over(two()))).times(
            Double::from_usize((past + recent) as usize).over(Double::from_usize((past * recent) as usize)),
        ).sqrt()
    }

    /// The detector after a number.
    pub open spec fn stepped(self, x: Double, ln: Curve) -> Watch<KswinState> {
        let s = self.entered(x);
        if s.window.len() < s.needed() || !s.gap().gt(s.allowance(ln)) {
            Watch { state: s, decision: DriftDecision::Stable }
        } else {
            Watch {
                state: KswinState { window: s.window.skip(s.boundary() as int), ..s },
                decision: DriftDecision::Drift { statistic: s.gap() },
            }
        }
    }

    /// Quality figures after a batch.
    pub open spec fn figures(self, fired: Double, batch: usize) -> IncrementalQuality {
        IncrementalQuality {
            effective_sample_size: Double::from_usize(self.window.len() as usize),
            information_gain: Some(fired),
            drift_statistic: Some(fired),
            still_identified: self.window.len() >= self.stat_size,
            warmup: self.window.len() < self.needed(),
            ..IncrementalQuality::new((self.updates - 1) as u64, batch, self.n_seen as u64)
        }
    }
}

impl Default for Kswin {
    fn default() -> (r: Kswin)
        ensures
            r@ == KswinState::blank(100),
            r.wf(),
    {
        Kswin::new(100)
    }
}

impl Kswin {
    /// The window holds finite numbers.
    pub open spec fn wf(&self) -> bool {
        finite_window(self.window@)
    }

    /// A detector with the given window.
    pub fn new(window_size: usize) -> (r: Kswin)
        ensures
            r@ == KswinState::blank(window_size),
            r.wf(),
    {
        let r = Kswin {
            window_size,
            stat_size: 30,
            alpha: decimal_005(),
            window: Vec::new(),
            n_seen: 0,
            updates: 0,
        };
        assert(r.window@ =~= Seq::empty());
        r
    }

    /// The Kolmogorov-Smirnov statistic of two lists.
    pub fn ks(a: &Vec<Double>, b: &Vec<Double>) -> (d: Double)
        requires
            a@.len() + b@.len() <= usize::MAX,
        ensures
            d == largest_gap(a@, b@),
    {
        let ghost points = a@ + b@;
        let n: usize = a.len();
        let m: usize = b.len();
        let mut d: Double = zero();
        let mut i: usize = 0;
        while i < n
            invariant
                i <= n,
                n == a@.len(),
                points == a@ + b@,
                d == gap_over(a@, b@, points, i as nat),
            decreases n - i,
        {
            assert(points[i as int] == a@[i as int]);
            d = d.max(measure_gap(a, b, a[i]));
            i = i + 1;
        }
        let mut j: usize = 0;
        while j < m
            invariant
                j <= m,
                n == a@.len(),
                m == b@.len(),
                points == a@ + b@,
                d == gap_over(a@, b@, points, (n + j) as nat),
            decreases m - j,
        {
            assert(points[n + j] == b@[j as int]);
            d = d.max(measure_gap(a, b, b[j]));
            j = j + 1;
        }
        d
    }

    /// Reads a number.
    pub fn update<F: Fn(Double) -> Double>(&mut self, x: Double, ln: &F) -> (r: Qualified<DriftDecision>)
        requires
            old(self).wf(),
            old(self)@.modest(old(self).window@.len() + 1),
            old(self).n_seen < u64::MAX,
            is_function(*ln),
        ensures
            final(self).wf(),
            final(self)@ == old(self)@.stepped(x, curve(*ln)).state,
            r.value == old(self)@.stepped(x, curve(*ln)).decision,
            r.report@ == drift_issues(r.value),
    {
        if x.is_finite() {
            self.window.push(x);
        }
        assert(finite_window(self.window@));
        trim_to(&mut self.window, self.window_size);
        self.n_seen = self.n_seen + 1;
        let ghost s = self@;
        assert(s == old(self)@.entered(x));
        assert(finite_window(self.window@));
        let n: usize = self.window.len();
        let h: usize = n / 2;
        let r: usize = if self.stat_size < h {
            self.stat_size
        } else {
            h
        };
        let needed: usize = if self.stat_size < 16 {
            32
        } else {
            2 * self.stat_size
        };
        if n < needed {
            return qualify(DriftDecision::Stable);
        }
        let k: usize = n - r;
        assert(k == s.boundary());
        let past = part(&self.window, 0, k);
        let recent = part(&self.window, k, n);
        assert(past@ =~= s.window.take(k as int));
        assert(recent@ =~= s.window.skip(k as int));
        assert(finite_window(past@) && finite_window(recent@));
        let statistic: Double = Kswin::ks(&past, &recent);
        proof {
            s.lemma_modest(n as nat, old(self).window@.len() + 1);
        }
        assert(k * r <= usize::MAX);
        let allowed: Double = neg_half().times(apply(ln, self.alpha.max(ten_to_minus_12()).over(two()))).times(
            Double::from_usize(k + r).over(Double::from_usize(k * r)),
        ).sqrt();
        assert(allowed == s.allowance(curve(*ln)));
        if statistic.gt(allowed) {
            self.window = recent;
            return qualify(DriftDecision::Drift { statistic });
        }
        qualify(DriftDecision::Stable)
    }

    /// What a batch does: the first column is read row by row.
    pub open spec fn answers(&self, after: KswinState, x: &Matrix, ln: Curve, r: &Update) -> bool {
        let p = patrolled(self@, |s: KswinState, v: Double| s.stepped(v, ln), x, x.height());
        &&& after == (KswinState { updates: self.updates as nat + 1, ..p.state })
        &&& reports(r, after.figures(p.fired, x.height() as usize), Seq::empty(), false)
    }

    /// Reads the first column of a batch.
    pub fn partial_fit<F: Fn(Double) -> Double>(&mut self, x: &Matrix, _y: Option<&Vec<Double>>, ln: &F) -> (r: Update)
        requires
            x.wf(),
            x.width > 0 || x.height() == 0,
            old(self).wf(),
            old(self)@.modest(old(self).window@.len() + x.height()),
            old(self).n_seen + x.height() <= u64::MAX,
            old(self).updates < u64::MAX,
            is_function(*ln),
        ensures
            final(self).wf(),
            old(self).answers(final(self)@, x, curve(*ln), &r),
    {
        let ghost start = self@;
        let ghost step = |s: KswinState, v: Double| s.stepped(v, curve(*ln));
        let mut fired: Double = zero();
        let mut i: usize = 0;
        while i < x.nrows()
            invariant
                i <= x.height(),
                x.wf(),
                x.width > 0 || x.height() == 0,
                step == (|s: KswinState, v: Double| s.stepped(v, curve(*ln))),
                self@ == patrolled(start, step, x, i as nat).state,
                fired == patrolled(start, step, x, i as nat).fired,
                start == old(self)@,
                self.wf(),
                self.window@.len() <= start.window.len() + i,
                start.modest(start.window.len() + x.height()),
                self.window_size == start.window_size,
                self.stat_size == start.stat_size,
                self.updates == start.updates,
                self.n_seen == start.n_seen + i,
                start.n_seen + x.height() <= u64::MAX,
                is_function(*ln),
            decreases x.height() - i,
        {
            proof {
                self@.lemma_modest(self.window@.len() + 1, start.window.len() + x.height());
            }
            let q = self.update(x.get(i, 0), ln);
            if let DriftDecision::Drift { statistic } = q.value {
                fired = fired.plus(one());
            }
            i = i + 1;
        }
        self.updates = self.updates + 1;
        let needed: usize = if self.stat_size < 16 {
            32
        } else {
            2 * self.stat_size
        };
        let quality = IncrementalQuality {
            effective_sample_size: Double::from_usize(self.window.len()),
            information_gain: Some(fired),
            drift_statistic: Some(fired),
            still_identified: self.window.len() >= self.stat_size,
            warmup: self.window.len() < needed,
            ..IncrementalQuality::new(self.updates - 1, x.nrows(), self.n_seen)
        };
        let issues: Vec<Issue> = Vec::new();
        assert(issues@ =~= Seq::empty());
        plain_report(quality, issues)
    }
}

} // verus!
