//! Committees on bootstrapped rows, a boosted committee and a buffer of hard rows.

use crate::constants::{decimal_002, decimal_8, five_quarters, half, neg_one};
use crate::data::{copy, part, filled, zero_seq, zeros, Batch, Matrix};
use crate::double::{one, zero, Double};
use crate::functions::{curve, is_function, Curve};
use crate::online::common::{inspect_online_xy, shape_issues, target};
use crate::quality::{issue, IncrementalQuality, Issue, IssueCode, Qualified, Update};
use crate::streaming::columns::{rejection, reports, screened_report};
use crate::streaming::committee::{
    at_least_one_member, counted_up, majority, mean_prediction, member_mean, states_of, to_majority,
};
use crate::streaming::drift::{running_sum, Adwin, AdwinState, DriftDecision};
use crate::streaming::forest::{rows_at, targets_at};
use crate::streaming::learner::Learner;
use crate::streaming::linear::{unready, Perceptron, PerceptronState};
use crate::streaming::metrics::pair_count;
use crate::streaming::rls::{LinearRegression, RlsState};
use vstd::prelude::*;

verus! {

/// A learner that can start from nothing.
pub trait Novice: Learner {
    /// The state before any row.
    spec fn fresh() -> Self::V;

    /// A learner before any row.
    fn begin() -> (r: Self)
        ensures
            r.sound(),
            r@ == Self::fresh(),
    ;
}

impl Novice for Perceptron {
    open spec fn fresh() -> PerceptronState {
        PerceptronState::blank()
    }

    fn begin() -> (r: Perceptron) {
        Perceptron::new()
    }
}

impl Novice for LinearRegression {
    open spec fn fresh() -> RlsState {
        RlsState::blank(one())
    }

    fn begin() -> (r: LinearRegression) {
        LinearRegression::new(one())
    }
}

/// The rows among the first `k`, each as often as its count says.
pub open spec fn copies(counts: Seq<u64>, k: nat) -> Seq<int>
    decreases k,
{
    if k == 0 {
        Seq::empty()
    } else {
        copies(counts, (k - 1) as nat) + Seq::new(counts[k - 1] as nat, |c: int| k - 1)
    }
}

/// The rows that a member sees: each as often as its count says, or the first row if
/// all counts are zero.
pub open spec fn sample(counts: Seq<u64>) -> Seq<int> {
    let c = copies(counts, counts.len());
    if c.len() == 0 {
        seq![0int]
    } else {
        c
    }
}

/// A bootstrap only repeats rows of the batch.
pub proof fn law_copies_are_rows(counts: Seq<u64>, k: nat)
    ensures
        forall|a: int| 0 <= a < copies(counts, k).len() ==> 0 <= #[trigger] copies(counts, k)[a] < k,
    decreases k,
{
    if k > 0 {
        law_copies_are_rows(counts, (k - 1) as nat);
        let before = copies(counts, (k - 1) as nat);
        assert forall|a: int| 0 <= a < copies(counts, k).len() implies 0 <= #[trigger] copies(counts, k)[a] < k by {
            if a < before.len() {
                assert(copies(counts, k)[a] == before[a]);
            }
        }
    }
}

/// The rows and targets that a member sees.
pub fn resample(x: &Matrix, y: &Vec<Double>, counts: &Vec<u64>) -> (r: (Matrix, Vec<Double>))
    requires
        x.wf(),
        0 < x.height(),
        0 < y@.len(),
        counts@.len() == pair_count(x, y@),
    ensures
        r.0.wf(),
        r.0@ == rows_at(x@, sample(counts@)),
        r.1@ == targets_at(y@, sample(counts@)),
        r.0.height() == r.1@.len(),
        r.0.height() > 0,
        r.0.width == x.width,
{
    let n: usize = counts.len();
    let mut rows: Vec<Vec<Double>> = Vec::new();
    let mut ys: Vec<Double> = Vec::new();
    let mut i: usize = 0;
    while i < n
        invariant
            i <= n,
            n <= x.height(),
            x.wf(),
            n <= y@.len(),
            counts@.len() == n,
            rows@.len() == copies(counts@, i as nat).len(),
            ys@.len() == rows@.len(),
            forall|k: int| 0 <= k < rows@.len() ==> (#[trigger] rows@[k])@ == x@.rows[copies(counts@, i as nat)[k]],
            forall|k: int| 0 <= k < rows@.len() ==> (#[trigger] rows@[k])@.len() == x.width,
            forall|k: int| 0 <= k < ys@.len() ==> #[trigger] ys@[k] == y@[copies(counts@, i as nat)[k]],
        decreases n - i,
    {
        let ghost before = copies(counts@, i as nat);
        let ghost want = copies(counts@, (i + 1) as nat);
        let mut c: u64 = 0;
        while c < counts[i]
            invariant
                c <= counts@[i as int],
                i < n,
                n <= x.height(),
                x.wf(),
                n <= y@.len(),
                counts@.len() == n,
                want == before + Seq::new(counts@[i as int] as nat, |c: int| i as int),
                rows@.len() == before.len() + c,
                ys@.len() == rows@.len(),
                forall|k: int| 0 <= k < rows@.len() ==> (#[trigger] rows@[k])@ == x@.rows[want[k]],
                forall|k: int| 0 <= k < rows@.len() ==> (#[trigger] rows@[k])@.len() == x.width,
                forall|k: int| 0 <= k < ys@.len() ==> #[trigger] ys@[k] == y@[want[k]],
            decreases counts@[i as int] - c,
        {
            let row = x.row(i);
            rows.push(row);
            ys.push(y[i]);
            c = c + 1;
        }
        i = i + 1;
    }
    if rows.len() == 0 {
        let row = x.row(0);
        rows.push(row);
        ys.push(y[0]);
    }
    let m = Matrix { rows, width: x.ncols() };
    assert(m@.rows =~= rows_at(x@, sample(counts@)).rows);
    assert(ys@ =~= targets_at(y@, sample(counts@)));
    (m, ys)
}

/// Counts of each row for each member.
pub open spec fn count_grid(counts: &Vec<Vec<u64>>) -> Seq<Seq<u64>> {
    Seq::new(counts@.len(), |m: int| counts@[m]@)
}

/// Committee on bootstrapped rows.
#[derive(Clone, Debug)]
pub struct Bag<M> {
    /// Members asked for.
    pub n_models: usize,
    /// The members.
    pub models: Vec<M>,
    /// Rows taken in.
    pub n_seen: u64,
    /// Batches taken in.
    pub updates: u64,
}

/// The members that a batch starts with.
pub open spec fn bag_start<M: Novice>(models: Seq<M::V>, n_models: usize) -> Seq<M::V> {
    if models.len() == 0 {
        Seq::new(at_least_one_member(n_models) as nat, |m: int| M::fresh())
    } else {
        models
    }
}

/// A member after its bootstrap of a batch.
pub open spec fn bag_member<M: Novice>(s: M::V, x: Batch, y: Seq<Double>, counts: Seq<u64>) -> M::V {
    let at = sample(counts);
    if x.height() == 0 {
        s
    } else {
        M::taught(s, rows_at(x, at), targets_at(y, at))
    }
}

/// The members after a batch.
pub open spec fn bag_after<M: Novice>(s: Seq<M::V>, x: Batch, y: Seq<Double>, counts: Seq<Seq<u64>>) -> Seq<M::V> {
    Seq::new(s.len(), |m: int| bag_member::<M>(s[m], x, y, counts[m]))
}

/// Quality figures of a bag after a batch.
pub open spec fn bag_figures(before: u64, updates: u64, batch: usize) -> IncrementalQuality {
    let n_seen = (before + batch) as u64;
    IncrementalQuality {
        effective_sample_size: Double::from_u64(n_seen),
        parameter_delta_norm: Some(Double::from_u64((n_seen - before) as u64)),
        information_gain: Some(Double::from_usize(batch)),
        still_identified: n_seen >= 2,
        warmup: n_seen < 4,
        ..IncrementalQuality::new((updates - 1) as u64, batch, n_seen)
    }
}

/// New members.
pub fn recruit<M: Novice>(n: usize) -> (models: Vec<M>)
    ensures
        models@.len() == at_least_one_member(n),
        forall|m: int| 0 <= m < models@.len() ==> (#[trigger] models@[m]).sound() && models@[m]@ == M::fresh(),
{
    let k: usize = if n < 1 {
        1
    } else {
        n
    };
    let mut models: Vec<M> = Vec::new();
    let mut m: usize = 0;
    while m < k
        invariant
            m <= k,
            models@.len() == m,
            forall|a: int| 0 <= a < m ==> (#[trigger] models@[a]).sound() && models@[a]@ == M::fresh(),
        decreases k - m,
    {
        let novice: M = M::begin();
        models.push(novice);
        m = m + 1;
    }
    models
}

impl<M: Novice> Bag<M> {
    /// The state before any row.
    pub open spec fn blank(&self, n_models: usize) -> bool {
        &&& self.n_models == n_models
        &&& self.models@.len() == 0
        &&& self.n_seen == 0
        &&& self.updates == 0
    }

    /// Every member is sound.
    pub open spec fn wf(&self) -> bool {
        forall|m: int| 0 <= m < self.models@.len() ==> (#[trigger] self.models@[m]).sound()
    }

    /// The members that a batch starts with.
    pub open spec fn start(&self) -> Seq<M::V> {
        bag_start::<M>(states_of(self.models@), self.n_models)
    }

    /// Counters that leave room for a batch with the given counts.
    pub open spec fn room(&self, rows: nat, counts: Seq<Seq<u64>>) -> bool {
        &&& self.n_seen + rows <= u64::MAX
        &&& self.updates < u64::MAX
        &&& forall|m: int| 0 <= m < self.start().len() ==> M::room(#[trigger] self.start()[m], sample(counts[m]).len())
    }

    /// A bag of `n_models` members.
    pub fn new(n_models: usize) -> (r: Bag<M>)
        ensures
            r.blank(at_least_one_member(n_models)),
    {
        Bag {
            n_models: if n_models < 1 {
                1
            } else {
                n_models
            },
            models: Vec::new(),
            n_seen: 0,
            updates: 0,
        }
    }

    /// What a batch does.
    pub open spec fn answers(&self, after: &Bag<M>, x: &Matrix, y: Option<Seq<Double>>, counts: Seq<Seq<u64>>, r: &Update) -> bool {
        match y {
            None => {
                &&& *after == *self
                &&& reports(
                    r,
                    IncrementalQuality::new(self.updates, x.height() as usize, self.n_seen),
                    shape_issues(x, y).push(issue(IssueCode::MissingTarget)),
                    false,
                )
            },
            Some(t) => {
                &&& after.n_models == self.n_models
                &&& states_of(after.models@) == bag_after::<M>(self.start(), x@, t, counts)
                &&& after.n_seen == self.n_seen + x.height()
                &&& after.updates == self.updates + 1
                &&& reports(
                    r,
                    bag_figures(self.n_seen, after.updates, x.height() as usize),
                    shape_issues(x, y),
                    true,
                )
            },
        }
    }

    /// Takes in a batch, unless it has no target. `counts[m][i]` says how often
    /// member `m` sees row `i`; under a Poisson bootstrap the counts are draws with
    /// mean one.
    pub fn partial_fit(&mut self, x: &Matrix, y: Option<&Vec<Double>>, counts: &Vec<Vec<u64>>) -> (r: Update)
        requires
            x.wf(),
            x.width < usize::MAX,
            old(self).wf(),
            y matches Some(t) ==> {
                &&& x.height() > 0 ==> t@.len() > 0
                &&& old(self).room(x.height(), count_grid(counts))
                &&& counts@.len() == old(self).start().len()
                &&& forall|m: int| 0 <= m < counts@.len() ==> (#[trigger] counts@[m])@.len() == pair_count(x, t@)
            },
        ensures
            final(self).wf(),
            old(self).answers(final(self), x, target(y), count_grid(counts), &r),
    {
        let n: usize = x.nrows();
        let mut issues: Vec<Issue> = Vec::new();
        inspect_online_xy(&mut issues, x, y);
        assert(issues@ =~= shape_issues(x, target(y)));
        let t: &Vec<Double> = match y {
            None => {
                issues.push(issue(IssueCode::MissingTarget));
                return rejection(self.updates, n, self.n_seen, issues);
            },
            Some(t) => t,
        };
        let ghost start = self.start();
        let ghost grid = count_grid(counts);
        if self.models.len() == 0 {
            self.models = recruit(self.n_models);
        }
        assert(states_of(self.models@) =~= start);
        let k: usize = self.models.len();
        let mut m: usize = 0;
        while m < k
            invariant
                m <= k,
                k == self.models@.len(),
                k == start.len(),
                n == x.height(),
                x.wf(),
                x.width < usize::MAX,
                n > 0 ==> t@.len() > 0,
                self.wf(),
                self.n_models == old(self).n_models,
                self.n_seen == old(self).n_seen,
                self.updates == old(self).updates,
                start == old(self).start(),
                grid == count_grid(counts),
                counts@.len() == k,
                forall|a: int| 0 <= a < k ==> (#[trigger] counts@[a])@.len() == pair_count(x, t@),
                forall|a: int| 0 <= a < k ==> M::room(#[trigger] start[a], sample(grid[a]).len()),
                forall|a: int| m <= a < k ==> (#[trigger] self.models@[a])@ == start[a],
                forall|a: int| 0 <= a < m ==> (#[trigger] self.models@[a])@ == bag_member::<M>(start[a], x@, t@, grid[a]),
            decreases k - m,
        {
            assert(grid[m as int] == counts@[m as int]@);
            assert(M::room(start[m as int], sample(grid[m as int]).len()));
            assert(self.models@[m as int]@ == start[m as int]);
            if n > 0 {
                let (xb, yb) = resample(x, t, &counts[m]);
                assert(xb.height() == sample(grid[m as int]).len());
                self.models[m].teach(&xb, &yb);
            }
            m = m + 1;
        }
        assert(states_of(self.models@) =~= bag_after::<M>(start, x@, t@, grid));
        let before: u64 = self.n_seen;
        self.n_seen = self.n_seen + n as u64;
        self.updates = self.updates + 1;
        let quality = IncrementalQuality {
            effective_sample_size: Double::from_u64(self.n_seen),
            parameter_delta_norm: Some(Double::from_u64(self.n_seen - before)),
            information_gain: Some(Double::from_usize(n)),
            still_identified: self.n_seen >= 2,
            warmup: self.n_seen < 4,
            ..IncrementalQuality::new(self.updates - 1, n, self.n_seen)
        };
        screened_report(quality, issues)
    }
}

/// Perceptrons on Poisson bootstraps.
#[derive(Clone, Debug)]
pub struct OnlineBagging {
    /// The bag.
    pub bag: Bag<Perceptron>,
}

impl Default for OnlineBagging {
    fn default() -> (r: OnlineBagging)
        ensures
            r.bag.blank(3),
    {
        OnlineBagging::new(3)
    }
}

impl OnlineBagging {
    /// A bag of `n_models` perceptrons.
    pub fn new(n_models: usize) -> (r: OnlineBagging)
        ensures
            r.bag.blank(at_least_one_member(n_models)),
    {
        OnlineBagging { bag: Bag::new(n_models) }
    }

    /// Takes in a batch, unless it has no target. `counts[m][i]` says how often
    /// member `m` sees row `i`.
    pub fn partial_fit(&mut self, x: &Matrix, y: Option<&Vec<Double>>, counts: &Vec<Vec<u64>>) -> (r: Update)
        requires
            x.wf(),
            x.width < usize::MAX,
            old(self).bag.wf(),
            y matches Some(t) ==> {
                &&& x.height() > 0 ==> t@.len() > 0
                &&& old(self).bag.room(x.height(), count_grid(counts))
                &&& counts@.len() == old(self).bag.start().len()
                &&& forall|m: int| 0 <= m < counts@.len() ==> (#[trigger] counts@[m])@.len() == pair_count(x, t@)
            },
        ensures
            final(self).bag.wf(),
            old(self).bag.answers(&final(self).bag, x, target(y), count_grid(counts), &r),
    {
        self.bag.partial_fit(x, y, counts)
    }

    /// The majority vote of the members, or zeros before the first batch.
    pub fn predict(&self, x: &Matrix) -> (out: Qualified<Vec<Double>>)
        requires
            x.wf(),
            self.bag.wf(),
        ensures
            if self.bag.models@.len() == 0 {
                &&& out.value@ == zero_seq(x.height())
                &&& out.report@ == seq![issue(IssueCode::PartialFitBeforeInit)]
            } else {
                &&& out.value@ == majority(member_mean::<Perceptron>(states_of(self.bag.models@), x@))
                &&& out.report@.len() == 0
            },
    {
        if self.bag.models.len() == 0 {
            return unready(x.nrows());
        }
        let mean = mean_prediction(&self.bag.models, x);
        Qualified { value: to_majority(&mean), report: Vec::new() }
    }
}

/// Recursive least squares models on Poisson bootstraps.
#[derive(Clone, Debug)]
pub struct OnlineBaggingRegressor {
    /// The bag.
    pub bag: Bag<LinearRegression>,
}

impl Default for OnlineBaggingRegressor {
    fn default() -> (r: OnlineBaggingRegressor)
        ensures
            r.bag.blank(3),
    {
        OnlineBaggingRegressor::new(3)
    }
}

impl OnlineBaggingRegressor {
    /// A bag of `n_models` models.
    pub fn new(n_models: usize) -> (r: OnlineBaggingRegressor)
        ensures
            r.bag.blank(at_least_one_member(n_models)),
    {
        OnlineBaggingRegressor { bag: Bag::new(n_models) }
    }

    /// Takes in a batch, unless it has no target. `counts[m][i]` says how often
    /// member `m` sees row `i`.
    pub fn partial_fit(&mut self, x: &Matrix, y: Option<&Vec<Double>>, counts: &Vec<Vec<u64>>) -> (r: Update)
        requires
            x.wf(),
            x.width < usize::MAX,
            old(self).bag.wf(),
            y matches Some(t) ==> {
                &&& x.height() > 0 ==> t@.len() > 0
                &&& old(self).bag.room(x.height(), count_grid(counts))
                &&& counts@.len() == old(self).bag.start().len()
                &&& forall|m: int| 0 <= m < counts@.len() ==> (#[trigger] counts@[m])@.len() == pair_count(x, t@)
            },
        ensures
            final(self).bag.wf(),
            old(self).bag.answers(&final(self).bag, x, target(y), count_grid(counts), &r),
    {
        self.bag.partial_fit(x, y, counts)
    }

    /// The mean of the members' predictions, or zeros before the first batch.
    pub fn predict(&self, x: &Matrix) -> (out: Qualified<Vec<Double>>)
        requires
            x.wf(),
            self.bag.wf(),
            forall|m: int| 0 <= m < self.bag.models@.len() ==> (#[trigger] self.bag.models@[m])@.fits(x.width),
        ensures
            if self.bag.models@.len() == 0 {
                &&& out.value@ == zero_seq(x.height())
                &&& out.report@ == seq![issue(IssueCode::PartialFitBeforeInit)]
            } else {
                &&& out.value@ == member_mean::<LinearRegression>(states_of(self.bag.models@), x@)
                &&& out.report@.len() == 0
            },
    {
        if self.bag.models.len() == 0 {
            return unready(x.nrows());
        }
        let value = mean_prediction(&self.bag.models, x);
        Qualified { value, report: Vec::new() }
    }
}

/// Mistakes among the first `k` predictions, as a number: a prediction that is at
/// least one half away from its label is one.
pub open spec fn mistakes(guesses: Seq<Double>, y: Seq<Double>, k: nat) -> Double
    decreases k,
{
    if k == 0 {
        zero()
    } else if guesses[k - 1].minus(y[k - 1]).abs().ge(half()) {
        mistakes(guesses, y, (k - 1) as nat).plus(one())
    } else {
        mistakes(guesses, y, (k - 1) as nat)
    }
}

fn count_mistakes(guesses: &Vec<Double>, y: &Vec<Double>, k: usize) -> (r: Double)
    requires
        k <= guesses@.len(),
        k <= y@.len(),
    ensures
        r == mistakes(guesses@, y@, k as nat),
{
    let mut r: Double = zero();
    let mut i: usize = 0;
    while i < k
        invariant
            i <= k,
            k <= guesses@.len(),
            k <= y@.len(),
            r == mistakes(guesses@, y@, i as nat),
        decreases k - i,
    {
        if guesses[i].minus(y[i]).abs().ge(half()) {
            r = r.plus(one());
        }
        i = i + 1;
    }
    r
}

/// Perceptrons on Poisson bootstraps, each with a detector of change in its error
/// rate.
#[derive(Clone, Debug)]
pub struct AdwinBagging {
    /// Members asked for.
    pub n_models: usize,
    /// The members.
    pub models: Vec<Perceptron>,
    /// One detector per member.
    pub detectors: Vec<Adwin>,
    /// Rows taken in.
    pub n_seen: u64,
    /// Batches taken in.
    pub updates: u64,
}

/// A perceptron with its detector.
pub struct Post {
    /// The member.
    pub model: PerceptronState,
    /// The detector.
    pub watch: AdwinState,
    /// Whether the member was replaced.
    pub reset: bool,
}

/// A member after its bootstrap of a batch: its error rate on the bootstrap goes to
/// the detector, and a change replaces the member and empties the window.
pub open spec fn post_after(model: PerceptronState, watch: AdwinState, x: Batch, y: Seq<Double>, counts: Seq<u64>, ln: Curve) -> Post {
    let at = sample(counts);
    let xb = rows_at(x, at);
    let yb = targets_at(y, at);
    let taught = model.taught(xb, yb);
    let rate = mistakes(Perceptron::foreseen(taught, xb), yb, yb.len()).over(Double::from_usize(yb.len() as usize));
    let w = watch.watched(rate, ln);
    if x.height() == 0 {
        Post { model, watch, reset: false }
    } else if w.decision is Drift {
        Post {
            model: PerceptronState::blank(),
            watch: AdwinState { window: Seq::empty(), ..w.state },
            reset: true,
        }
    } else {
        Post { model: taught, watch: w.state, reset: false }
    }
}

fn serve<F: Fn(Double) -> Double>(
    model: &mut Perceptron,
    watch: &mut Adwin,
    x: &Matrix,
    y: &Vec<Double>,
    counts: &Vec<u64>,
    ln: &F,
) -> (reset: bool)
    requires
        x.wf(),
        x.width < usize::MAX,
        x.height() > 0 ==> y@.len() > 0,
        counts@.len() == pair_count(x, y@),
        old(model)@.room(sample(counts@).len()),
        old(watch)@.room(1),
        is_function(*ln),
    ensures
        ({
            let p = post_after(old(model)@, old(watch)@, x@, y@, counts@, curve(*ln));
            &&& final(model)@ == p.model
            &&& final(watch)@ == p.watch
            &&& reset == p.reset
        }),
{
    if x.nrows() == 0 {
        return false;
    }
    let (xb, yb) = resample(x, y, counts);
    assert(xb.height() == sample(counts@).len());
    model.teach(&xb, &yb);
    let guesses: Vec<Double> = model.foresee(&xb);
    proof {
        Perceptron::lemma_foreseen(model@, xb@);
    }
    let rate: Double = count_mistakes(&guesses, &yb, yb.len()).over(Double::from_usize(yb.len()));
    let q = watch.update(rate, ln);
    if let DriftDecision::Drift { statistic } = q.value {
        *model = Perceptron::new();
        watch.reset();
        true
    } else {
        false
    }
}

impl Default for AdwinBagging {
    fn default() -> (r: AdwinBagging)
        ensures
            r.blank(3),
    {
        AdwinBagging::new(3)
    }
}

impl AdwinBagging {
    /// The state before any row.
    pub open spec fn blank(&self, n_models: usize) -> bool {
        &&& self.n_models == n_models
        &&& self.models@.len() == 0
        &&& self.detectors@.len() == 0
        &&& self.n_seen == 0
        &&& self.updates == 0
    }

    /// Every member has a detector.
    pub open spec fn wf(&self) -> bool {
        self.detectors@.len() == self.models@.len()
    }

    /// A bag of `n_models` perceptrons.
    pub fn new(n_models: usize) -> (r: AdwinBagging)
        ensures
            r.blank(at_least_one_member(n_models)),
    {
        AdwinBagging {
            n_models: if n_models < 1 {
                1
            } else {
                n_models
            },
            models: Vec::new(),
            detectors: Vec::new(),
            n_seen: 0,
            updates: 0,
        }
    }

    /// The members that a batch starts with.
    pub open spec fn start(&self) -> Seq<PerceptronState> {
        bag_start::<Perceptron>(states_of(self.models@), self.n_models)
    }

    /// The detectors that a batch starts with.
    pub open spec fn watches(&self) -> Seq<AdwinState> {
        if self.models@.len() == 0 {
            Seq::new(at_least_one_member(self.n_models) as nat, |m: int| AdwinState::blank(decimal_002()))
        } else {
            Seq::new(self.detectors@.len(), |m: int| self.detectors@[m]@)
        }
    }

    /// Member `m` after a batch.
    pub open spec fn post(&self, m: int, x: Batch, y: Seq<Double>, counts: Seq<Seq<u64>>, ln: Curve) -> Post {
        post_after(self.start()[m], self.watches()[m], x, y, counts[m], ln)
    }

    /// Members among the first `k` that were replaced.
    pub open spec fn resets(&self, x: Batch, y: Seq<Double>, counts: Seq<Seq<u64>>, ln: Curve, k: nat) -> nat
        decreases k,
    {
        if k == 0 {
            0
        } else {
            self.resets(x, y, counts, ln, (k - 1) as nat) + if self.post(k - 1, x, y, counts, ln).reset {
                1nat
            } else {
                0nat
            }
        }
    }

    /// Counters that leave room for a batch with the given counts.
    pub open spec fn room(&self, rows: nat, counts: Seq<Seq<u64>>) -> bool {
        &&& self.n_seen + rows <= u64::MAX
        &&& self.updates < u64::MAX
        &&& self.start().len() <= u64::MAX
        &&& forall|m: int|
            0 <= m < self.start().len() ==> (#[trigger] self.start()[m]).room(sample(counts[m]).len())
        &&& forall|m: int| 0 <= m < self.watches().len() ==> (#[trigger] self.watches()[m]).room(1)
    }

    /// What a batch does.
    pub open spec fn answers(
        &self,
        after: &AdwinBagging,
        x: &Matrix,
        y: Option<Seq<Double>>,
        counts: Seq<Seq<u64>>,
        ln: Curve,
        r: &Update,
    ) -> bool {
        match y {
            None => {
                &&& *after == *self
                &&& reports(
                    r,
                    IncrementalQuality::new(self.updates, x.height() as usize, self.n_seen),
                    shape_issues(x, y).push(issue(IssueCode::MissingTarget)),
                    false,
                )
            },
            Some(t) => {
                let k = self.start().len();
                &&& after.n_models == self.n_models
                &&& after.models@.len() == k
                &&& after.detectors@.len() == k
                &&& forall|m: int|
                    0 <= m < k ==> (#[trigger] after.models@[m])@ == self.post(m, x@, t, counts, ln).model
                &&& forall|m: int|
                    0 <= m < k ==> (#[trigger] after.detectors@[m])@ == self.post(m, x@, t, counts, ln).watch
                &&& after.n_seen == self.n_seen + x.height()
                &&& after.updates == self.updates + 1
                &&& reports(
                    r,
                    IncrementalQuality {
                        parameter_delta_norm: Some(Double::from_u64(self.resets(x@, t, counts, ln, k) as u64)),
                        ..bag_figures(self.n_seen, after.updates, x.height() as usize)
                    },
                    shape_issues(x, y),
                    true,
                )
            },
        }
    }

    /// Takes in a batch, unless it has no target. `counts[m][i]` says how often
    /// member `m` sees row `i`, and `ln` is the natural logarithm.
    pub fn partial_fit<F: Fn(Double) -> Double>(
        &mut self,
        x: &Matrix,
        y: Option<&Vec<Double>>,
        counts: &Vec<Vec<u64>>,
        ln: &F,
    ) -> (r: Update)
        requires
            x.wf(),
            x.width < usize::MAX,
            old(self).wf(),
            y matches Some(t) ==> {
                &&& x.height() > 0 ==> t@.len() > 0
                &&& old(self).room(x.height(), count_grid(counts))
                &&& counts@.len() == old(self).start().len()
                &&& forall|m: int| 0 <= m < counts@.len() ==> (#[trigger] counts@[m])@.len() == pair_count(x, t@)
            },
            is_function(*ln),
        ensures
            final(self).wf(),
            old(self).answers(final(self), x, target(y), count_grid(counts), curve(*ln), &r),
    {
        let n: usize = x.nrows();
        let mut issues: Vec<Issue> = Vec::new();
        inspect_online_xy(&mut issues, x, y);
        assert(issues@ =~= shape_issues(x, target(y)));
        let t: &Vec<Double> = match y {
            None => {
                issues.push(issue(IssueCode::MissingTarget));
                return rejection(self.updates, n, self.n_seen, issues);
            },
            Some(t) => t,
        };
        let ghost first = *old(self);
        let ghost start = self.start();
        let ghost watches = self.watches();
        let ghost grid = count_grid(counts);
        if self.models.len() == 0 {
            self.models = recruit(self.n_models);
            let mut detectors: Vec<Adwin> = Vec::new();
            let mut m: usize = 0;
            while m < self.models.len()
                invariant
                    m <= self.models@.len(),
                    detectors@.len() == m,
                    forall|a: int| 0 <= a < m ==> (#[trigger] detectors@[a])@ == AdwinState::blank(decimal_002()),
                decreases self.models@.len() - m,
            {
                detectors.push(Adwin::new(decimal_002()));
                m = m + 1;
            }
            self.detectors = detectors;
        }
        let k: usize = self.models.len();
        assert(k == start.len() && k == watches.len());
        let mut resets: u64 = 0;
        let mut m: usize = 0;
        while m < k
            invariant
                m <= k,
                k == self.models@.len(),
                k == self.detectors@.len(),
                k == start.len(),
                k == watches.len(),
                k <= u64::MAX,
                n == x.height(),
                x.wf(),
                x.width < usize::MAX,
                n > 0 ==> t@.len() > 0,
                is_function(*ln),
                self.n_models == old(self).n_models,
                self.n_seen == old(self).n_seen,
                self.updates == old(self).updates,
                first == *old(self),
                start == first.start(),
                watches == first.watches(),
                grid == count_grid(counts),
                counts@.len() == k,
                forall|a: int| 0 <= a < k ==> (#[trigger] counts@[a])@.len() == pair_count(x, t@),
                forall|a: int| 0 <= a < k ==> (#[trigger] start[a]).room(sample(grid[a]).len()),
                forall|a: int| 0 <= a < k ==> (#[trigger] watches[a]).room(1),
                forall|a: int| m <= a < k ==> (#[trigger] self.models@[a])@ == start[a],
                forall|a: int| m <= a < k ==> (#[trigger] self.detectors@[a])@ == watches[a],
                forall|a: int| 0 <= a < m ==> (#[trigger] self.models@[a])@ == first.post(a, x@, t@, grid, curve(*ln)).model,
                forall|a: int|
                    0 <= a < m ==> (#[trigger] self.detectors@[a])@ == first.post(a, x@, t@, grid, curve(*ln)).watch,
                resets == first.resets(x@, t@, grid, curve(*ln), m as nat),
                resets <= m,
            decreases k - m,
        {
            assert(grid[m as int] == counts@[m as int]@);
            assert(start[m as int].room(sample(grid[m as int]).len()));
            assert(watches[m as int].room(1));
            assert(self.models@[m as int]@ == start[m as int]);
            assert(self.detectors@[m as int]@ == watches[m as int]);
            let reset: bool = serve(&mut self.models[m], &mut self.detectors[m], x, t, &counts[m], ln);
            if reset {
                resets = resets + 1;
            }
            m = m + 1;
        }
        self.n_seen = self.n_seen + n as u64;
        self.updates = self.updates + 1;
        let quality = IncrementalQuality {
            effective_sample_size: Double::from_u64(self.n_seen),
            parameter_delta_norm: Some(Double::from_u64(resets)),
            information_gain: Some(Double::from_usize(n)),
            still_identified: self.n_seen >= 2,
            warmup: self.n_seen < 4,
            ..IncrementalQuality::new(self.updates - 1, n, self.n_seen)
        };
        screened_report(quality, issues)
    }

    /// 1 where at least half of the members vote for it.
    pub open spec fn predictions(&self, x: Batch) -> Seq<Double> {
        let states = states_of(self.models@);
        Seq::new(
            x.height(),
            |i: int|
                if counted_up(zero(), states.len()).gt(zero())
                    && crate::streaming::committee::member_sum::<Perceptron>(states, x, i, states.len()).over(
                    counted_up(zero(), states.len()),
                ).ge(half()) {
                    one()
                } else {
                    zero()
                },
        )
    }

    /// 1 where at least half of the members vote for it, or zeros before the first
    /// batch.
    pub fn predict(&self, x: &Matrix) -> (out: Qualified<Vec<Double>>)
        requires
            x.wf(),
        ensures
            if self.models@.len() == 0 {
                &&& out.value@ == zero_seq(x.height())
                &&& out.report@ == shape_issues(x, None).push(issue(IssueCode::PartialFitBeforeInit))
            } else {
                &&& out.value@ == self.predictions(x@)
                &&& out.report@ == shape_issues(x, None)
            },
    {
        let mut report: Vec<Issue> = Vec::new();
        inspect_online_xy(&mut report, x, None);
        assert(report@ =~= shape_issues(x, None));
        if self.models.len() == 0 {
            report.push(issue(IssueCode::PartialFitBeforeInit));
            return Qualified { value: zeros(x.nrows()), report };
        }
        let ghost states = states_of(self.models@);
        let ghost want = self.predictions(x@);
        let (votes, k) = crate::streaming::committee::sum_predictions(&self.models, x);
        let mut value: Vec<Double> = Vec::new();
        let mut i: usize = 0;
        while i < x.nrows()
            invariant
                i <= x.height(),
                votes@.len() == x.height(),
                states == states_of(self.models@),
                k == counted_up(zero(), states.len()),
                forall|a: int|
                    0 <= a < votes@.len() ==> #[trigger] votes@[a] == crate::streaming::committee::member_sum::<Perceptron>(
                        states,
                        x@,
                        a,
                        states.len(),
                    ),
                want == self.predictions(x@),
                value@ == want.take(i as int),
            decreases x.height() - i,
        {
            value.push(
                if k.gt(zero()) && votes[i].over(k).ge(half()) {
                    one()
                } else {
                    zero()
                },
            );
            i = i + 1;
            assert(value@ =~= want.take(i as int));
        }
        assert(value@ =~= want);
        Qualified { value, report }
    }
}

/// Perceptrons whose votes grow while they err.
#[derive(Clone, Debug)]
pub struct OnlineAdaBoost {
    /// Members asked for.
    pub n_models: usize,
    /// The members.
    pub models: Vec<Perceptron>,
    /// Weight of each member's vote.
    pub weights: Vec<Double>,
    /// Rows taken in.
    pub n_seen: u64,
    /// Batches taken in.
    pub updates: u64,
}

/// The weight of a member after a batch: a quarter more if it made a mistake, a fifth
/// less if not.
pub open spec fn boosted(weight: Double, model: PerceptronState, x: Batch, y: Seq<Double>) -> Double {
    if mistakes(Perceptron::foreseen(model, x), y, x.height()).gt(zero()) {
        weight.times(five_quarters())
    } else {
        weight.times(decimal_8())
    }
}

/// Weights divided by their sum, if that is positive.
pub open spec fn balanced(weights: Seq<Double>) -> Seq<Double> {
    let sum = running_sum(weights, weights.len());
    if sum.gt(zero()) {
        Seq::new(weights.len(), |m: int| weights[m].over(sum))
    } else {
        weights
    }
}

fn sum_of(v: &Vec<Double>) -> (r: Double)
    ensures
        r == running_sum(v@, v@.len()),
{
    let mut r: Double = zero();
    let mut i: usize = 0;
    while i < v.len()
        invariant
            i <= v@.len(),
            r == running_sum(v@, i as nat),
        decreases v@.len() - i,
    {
        r = r.plus(v[i]);
        i = i + 1;
    }
    r
}

fn balance(weights: &Vec<Double>) -> (r: Vec<Double>)
    ensures
        r@ == balanced(weights@),
{
    let sum: Double = sum_of(weights);
    if !sum.gt(zero()) {
        return copy(weights);
    }
    let mut r: Vec<Double> = Vec::new();
    let mut m: usize = 0;
    while m < weights.len()
        invariant
            m <= weights@.len(),
            sum == running_sum(weights@, weights@.len()),
            sum.gt(zero()),
            r@ == balanced(weights@).take(m as int),
        decreases weights@.len() - m,
    {
        r.push(weights[m].over(sum));
        m = m + 1;
        assert(r@ =~= balanced(weights@).take(m as int));
    }
    assert(r@ =~= balanced(weights@));
    r
}

impl Default for OnlineAdaBoost {
    fn default() -> (r: OnlineAdaBoost)
        ensures
            r.blank(3),
    {
        OnlineAdaBoost::new(3)
    }
}

impl OnlineAdaBoost {
    /// The state before any row.
    pub open spec fn blank(&self, n_models: usize) -> bool {
        &&& self.n_models == n_models
        &&& self.models@.len() == 0
        &&& self.weights@.len() == 0
        &&& self.n_seen == 0
        &&& self.updates == 0
    }

    /// Every member has a weight.
    pub open spec fn wf(&self) -> bool {
        self.weights@.len() == self.models@.len()
    }

    /// A committee of `n_models` perceptrons.
    pub fn new(n_models: usize) -> (r: OnlineAdaBoost)
        ensures
            r.blank(at_least_one_member(n_models)),
    {
        OnlineAdaBoost {
            n_models: if n_models < 1 {
                1
            } else {
                n_models
            },
            models: Vec::new(),
            weights: Vec::new(),
            n_seen: 0,
            updates: 0,
        }
    }

    /// The members that a batch starts with.
    pub open spec fn start(&self) -> Seq<PerceptronState> {
        bag_start::<Perceptron>(states_of(self.models@), self.n_models)
    }

    /// The weights that a batch starts with.
    pub open spec fn start_weights(&self) -> Seq<Double> {
        if self.models@.len() == 0 {
            Seq::new(at_least_one_member(self.n_models) as nat, |m: int| one())
        } else {
            self.weights@
        }
    }

    /// The weights before they are balanced.
    pub open spec fn raw_weights(&self, x: Batch, y: Seq<Double>) -> Seq<Double> {
        Seq::new(
            self.start().len(),
            |m: int| boosted(self.start_weights()[m], self.start()[m].taught(x, y), x, y),
        )
    }

    /// Counters that leave room for a batch.
    pub open spec fn room(&self, rows: nat) -> bool {
        &&& self.n_seen + rows <= u64::MAX
        &&& self.updates < u64::MAX
        &&& forall|m: int| 0 <= m < self.start().len() ==> (#[trigger] self.start()[m]).room(rows)
    }

    /// What a batch does.
    pub open spec fn answers(&self, after: &OnlineAdaBoost, x: &Matrix, y: Option<Seq<Double>>, r: &Update) -> bool {
        match y {
            None => {
                &&& *after == *self
                &&& reports(
                    r,
                    IncrementalQuality::new(self.updates, x.height() as usize, self.n_seen),
                    shape_issues(x, y).push(issue(IssueCode::MissingTarget)),
                    false,
                )
            },
            Some(t) => {
                let w = balanced(self.raw_weights(x@, t));
                let before = self.start_weights();
                &&& after.n_models == self.n_models
                &&& states_of(after.models@) == Seq::new(self.start().len(), |m: int| self.start()[m].taught(x@, t))
                &&& after.weights@ == w
                &&& after.n_seen == self.n_seen + x.height()
                &&& after.updates == self.updates + 1
                &&& reports(
                    r,
                    IncrementalQuality {
                        parameter_delta_norm: Some(
                            running_sum(w, w.len()).minus(running_sum(before, before.len())).abs(),
                        ),
                        ..bag_figures(self.n_seen, after.updates, x.height() as usize)
                    },
                    shape_issues(x, y),
                    true,
                )
            },
        }
    }

    /// Takes in a batch, unless it has no target.
    pub fn partial_fit(&mut self, x: &Matrix, y: Option<&Vec<Double>>) -> (r: Update)
        requires
            x.wf(),
            x.width < usize::MAX,
            y matches Some(t) ==> x.height() <= t@.len(),
            old(self).wf(),
            old(self).room(x.height()),
        ensures
            final(self).wf(),
            old(self).answers(final(self), x, target(y), &r),
    {
        let n: usize = x.nrows();
        let mut issues: Vec<Issue> = Vec::new();
        inspect_online_xy(&mut issues, x, y);
        assert(issues@ =~= shape_issues(x, target(y)));
        let t: &Vec<Double> = match y {
            None => {
                issues.push(issue(IssueCode::MissingTarget));
                return rejection(self.updates, n, self.n_seen, issues);
            },
            Some(t) => t,
        };
        let ghost first = *old(self);
        let ghost start = self.start();
        let ghost raw = self.raw_weights(x@, t@);
        let ghost held = self.start_weights();
        if self.models.len() == 0 {
            self.models = recruit(self.n_models);
            self.weights = filled(self.models.len(), one());
        }
        assert(self.weights@ =~= held);
        assert(states_of(self.models@) =~= start);
        let before: Double = sum_of(&self.weights);
        let k: usize = self.models.len();
        let mut m: usize = 0;
        while m < k
            invariant
                m <= k,
                k == self.models@.len(),
                k == self.weights@.len(),
                k == start.len(),
                n == x.height(),
                x.wf(),
                x.width < usize::MAX,
                n <= t@.len(),
                self.n_models == old(self).n_models,
                self.n_seen == old(self).n_seen,
                self.updates == old(self).updates,
                first == *old(self),
                start == first.start(),
                held == first.start_weights(),
                raw == first.raw_weights(x@, t@),
                forall|a: int| 0 <= a < k ==> (#[trigger] start[a]).room(n as nat),
                forall|a: int| m <= a < k ==> (#[trigger] self.models@[a])@ == start[a],
                forall|a: int| m <= a < k ==> #[trigger] self.weights@[a] == held[a],
                forall|a: int| 0 <= a < m ==> (#[trigger] self.models@[a])@ == start[a].taught(x@, t@),
                forall|a: int| 0 <= a < m ==> #[trigger] self.weights@[a] == raw[a],
            decreases k - m,
        {
            assert(start[m as int].room(n as nat));
            assert(self.models@[m as int]@ == start[m as int]);
            assert(self.weights@[m as int] == held[m as int]);
            self.models[m].teach(x, t);
            let guesses: Vec<Double> = self.models[m].foresee(x);
            proof {
                Perceptron::lemma_foreseen(self.models@[m as int]@, x@);
            }
            let wrong: Double = count_mistakes(&guesses, t, n);
            let w: Double = if wrong.gt(zero()) {
                self.weights[m].times(five_quarters())
            } else {
                self.weights[m].times(decimal_8())
            };
            self.weights.set(m, w);
            m = m + 1;
        }
        assert(self.weights@ =~= raw);
        assert(states_of(self.models@) =~= Seq::new(start.len(), |m: int| start[m].taught(x@, t@)));
        self.weights = balance(&self.weights);
        self.n_seen = self.n_seen + n as u64;
        self.updates = self.updates + 1;
        let after: Double = sum_of(&self.weights);
        let quality = IncrementalQuality {
            effective_sample_size: Double::from_u64(self.n_seen),
            parameter_delta_norm: Some(after.minus(before).abs()),
            information_gain: Some(Double::from_usize(n)),
            still_identified: self.n_seen >= 2,
            warmup: self.n_seen < 4,
            ..IncrementalQuality::new(self.updates - 1, n, self.n_seen)
        };
        screened_report(quality, issues)
    }

    /// Weighted votes of the first `k` members for row `i`: plus its weight for a one,
    /// minus its weight for a zero.
    pub open spec fn votes(&self, x: Batch, i: int, k: nat) -> Double
        decreases k,
    {
        if k == 0 {
            zero()
        } else {
            self.votes(x, i, (k - 1) as nat).plus(
                self.weights@[k - 1].times(
                    if Perceptron::foreseen(self.models@[k - 1]@, x)[i].ge(half()) {
                        one()
                    } else {
                        neg_one()
                    },
                ),
            )
        }
    }

    /// 1 where the weighted votes are not negative, or zeros before the first batch.
    pub fn predict(&self, x: &Matrix) -> (out: Qualified<Vec<Double>>)
        requires
            x.wf(),
            self.wf(),
        ensures
            if self.models@.len() == 0 {
                &&& out.value@ == zero_seq(x.height())
                &&& out.report@ == shape_issues(x, None).push(issue(IssueCode::PartialFitBeforeInit))
            } else {
                &&& out.value@ == Seq::new(
                    x.height(),
                    |i: int|
                        if self.votes(x@, i, self.models@.len()).ge(zero()) {
                            one()
                        } else {
                            zero()
                        },
                )
                &&& out.report@ == shape_issues(x, None)
            },
    {
        let mut report: Vec<Issue> = Vec::new();
        inspect_online_xy(&mut report, x, None);
        assert(report@ =~= shape_issues(x, None));
        if self.models.len() == 0 {
            report.push(issue(IssueCode::PartialFitBeforeInit));
            return Qualified { value: zeros(x.nrows()), report };
        }
        let n: usize = x.nrows();
        let mut acc: Vec<Double> = zeros(n);
        let mut m: usize = 0;
        while m < self.models.len()
            invariant
                m <= self.models@.len(),
                n == x.height(),
                x.wf(),
                self.wf(),
                acc@.len() == n,
                forall|i: int| 0 <= i < n ==> #[trigger] acc@[i] == self.votes(x@, i, m as nat),
            decreases self.models@.len() - m,
        {
            let w: Double = self.weights[m];
            let guesses: Vec<Double> = self.models[m].foresee(x);
            proof {
                Perceptron::lemma_foreseen(self.models@[m as int]@, x@);
            }
            let ghost before = acc@;
            let mut i: usize = 0;
            while i < n
                invariant
                    i <= n,
                    n == x.height(),
                    m < self.models@.len(),
                    self.wf(),
                    acc@.len() == n,
                    before.len() == n,
                    guesses@.len() == n,
                    guesses@ == Perceptron::foreseen(self.models@[m as int]@, x@),
                    w == self.weights@[m as int],
                    forall|j: int| 0 <= j < n ==> #[trigger] before[j] == self.votes(x@, j, m as nat),
                    forall|j: int| i <= j < n ==> #[trigger] acc@[j] == before[j],
                    forall|j: int| 0 <= j < i ==> #[trigger] acc@[j] == self.votes(x@, j, (m + 1) as nat),
                decreases n - i,
            {
                assert(acc@[i as int] == before[i as int]);
                let v: Double = acc[i].plus(
                    w.times(
                        if guesses[i].ge(half()) {
                            one()
                        } else {
                            neg_one()
                        },
                    ),
                );
                acc.set(i, v);
                i = i + 1;
            }
            m = m + 1;
        }
        let ghost want = Seq::new(
            x.height(),
            |i: int|
                if self.votes(x@, i, self.models@.len()).ge(zero()) {
                    one()
                } else {
                    zero()
                },
        );
        let mut value: Vec<Double> = Vec::new();
        let mut i: usize = 0;
        while i < n
            invariant
                i <= n,
                n == want.len(),
                acc@.len() == n,
                forall|j: int|
                    0 <= j < n ==> want[j] == if (#[trigger] acc@[j]).ge(zero()) {
                        one()
                    } else {
                        zero()
                    },
                value@ == want.take(i as int),
            decreases n - i,
        {
            assert(want[i as int] == if acc@[i as int].ge(zero()) {
                one()
            } else {
                zero()
            });
            value.push(
                if acc[i].ge(zero()) {
                    one()
                } else {
                    zero()
                },
            );
            i = i + 1;
            assert(value@ =~= want.take(i as int));
        }
        assert(value@ =~= want);
        Qualified { value, report }
    }
}

/// Perceptron that is shown its mistakes again.
#[derive(Clone, Debug)]
pub struct HardSamplingClassifier {
    /// The perceptron.
    pub inner: Perceptron,
    /// Rows that were hard.
    pub buffer_x: Vec<Vec<Double>>,
    /// Their targets.
    pub buffer_y: Vec<Double>,
    /// Most rows that are kept.
    pub cap: usize,
    /// Rows taken in.
    pub n_seen: u64,
    /// Batches taken in.
    pub updates: u64,
}

/// The rows among the first `k` that are hard: wrong by at least one half, or any row
/// of the first batch. Rows without a finite target are left out.
pub open spec fn hard_rows(guesses: Seq<Double>, y: Seq<Double>, fresh: bool, k: nat) -> Seq<int>
    decreases k,
{
    if k == 0 {
        Seq::empty()
    } else {
        let before = hard_rows(guesses, y, fresh, (k - 1) as nat);
        if (fresh || guesses[k - 1].minus(y[k - 1]).abs().ge(half())) && y[k - 1].is_finite() {
            before.push(k - 1)
        } else {
            before
        }
    }
}

/// The last `cap` entries, or all if there are no more than that.
pub open spec fn newest<T>(v: Seq<T>, cap: nat) -> Seq<T> {
    if v.len() > cap {
        v.skip(v.len() - cap)
    } else {
        v
    }
}

proof fn lemma_hard_rows(guesses: Seq<Double>, y: Seq<Double>, fresh: bool, k: nat)
    ensures
        hard_rows(guesses, y, fresh, k).len() <= k,
        forall|a: int|
            0 <= a < hard_rows(guesses, y, fresh, k).len() ==> 0 <= #[trigger] hard_rows(guesses, y, fresh, k)[a] < k,
    decreases k,
{
    if k > 0 {
        lemma_hard_rows(guesses, y, fresh, (k - 1) as nat);
    }
}

impl Default for HardSamplingClassifier {
    fn default() -> (r: HardSamplingClassifier)
        ensures
            r.blank(32),
    {
        HardSamplingClassifier::new(32)
    }
}

impl HardSamplingClassifier {
    /// The state before any row.
    pub open spec fn blank(&self, cap: usize) -> bool {
        &&& self.inner@ == PerceptronState::blank()
        &&& self.buffer_x@.len() == 0
        &&& self.buffer_y@.len() == 0
        &&& self.cap == cap
        &&& self.n_seen == 0
        &&& self.updates == 0
    }

    /// Every hard row has a target.
    pub open spec fn wf(&self) -> bool {
        self.buffer_x@.len() == self.buffer_y@.len()
    }

    /// The hard rows.
    pub open spec fn buffer(&self) -> Seq<Seq<Double>> {
        Seq::new(self.buffer_x@.len(), |a: int| self.buffer_x@[a]@)
    }

    /// A classifier that keeps up to `cap` hard rows.
    pub fn new(cap: usize) -> (r: HardSamplingClassifier)
        ensures
            r.blank(
                if cap < 1 {
                    1
                } else {
                    cap
                },
            ),
    {
        HardSamplingClassifier {
            inner: Perceptron::new(),
            buffer_x: Vec::new(),
            buffer_y: Vec::new(),
            cap: if cap < 1 {
                1
            } else {
                cap
            },
            n_seen: 0,
            updates: 0,
        }
    }

    /// The perceptron that a batch is judged by: the first batch is learned first.
    pub open spec fn judge(&self, x: Batch, y: Seq<Double>) -> PerceptronState {
        if self.n_seen == 0 {
            self.inner@.taught(x, y)
        } else {
            self.inner@
        }
    }

    /// The rows of a batch that are hard.
    pub open spec fn hard(&self, x: Batch, y: Seq<Double>) -> Seq<int> {
        hard_rows(
            Perceptron::foreseen(self.judge(x, y), x),
            y,
            self.n_seen == 0,
            if y.len() < x.height() {
                y.len()
            } else {
                x.height()
            },
        )
    }

    /// The buffer after a batch.
    pub open spec fn buffer_after(&self, x: Batch, y: Seq<Double>) -> Seq<Seq<Double>> {
        newest(self.buffer() + rows_at(x, self.hard(x, y)).rows, self.cap as nat)
    }

    /// The targets in the buffer after a batch.
    pub open spec fn targets_after(&self, x: Batch, y: Seq<Double>) -> Seq<Double> {
        newest(self.buffer_y@ + targets_at(y, self.hard(x, y)), self.cap as nat)
    }

    /// Whether no row of the buffer after a batch is shorter than its first one.
    pub open spec fn covers(&self, x: Batch, y: Seq<Double>) -> bool {
        forall|a: int|
            0 <= a < self.buffer_after(x, y).len() ==> (#[trigger] self.buffer_after(x, y)[a]).len()
                >= self.buffer_after(x, y)[0].len()
    }

    /// The perceptron after a batch: it sees the whole buffer, with as many columns as
    /// its first row.
    pub open spec fn inner_after(&self, x: Batch, y: Seq<Double>) -> PerceptronState {
        let rows = self.buffer_after(x, y);
        if rows.len() == 0 {
            self.judge(x, y)
        } else {
            let p = rows[0].len();
            self.judge(x, y).taught(
                Batch { rows: Seq::new(rows.len(), |a: int| rows[a].take(p as int)), width: p as usize },
                self.targets_after(x, y),
            )
        }
    }

    /// Counters that leave room for a batch.
    pub open spec fn room(&self, rows: nat) -> bool {
        &&& self.n_seen + rows <= u64::MAX
        &&& self.updates < u64::MAX
        &&& self.inner.n_seen + rows + self.cap <= u64::MAX
        &&& self.inner.mistakes + rows + self.cap <= u64::MAX
        &&& self.inner.updates + 2 <= u64::MAX
        &&& self.buffer_x@.len() + rows <= usize::MAX
    }

    /// What a batch does.
    pub open spec fn answers(&self, after: &HardSamplingClassifier, x: &Matrix, y: Option<Seq<Double>>, r: &Update) -> bool {
        match y {
            None => {
                &&& *after == *self
                &&& reports(
                    r,
                    IncrementalQuality::new(self.updates, x.height() as usize, self.n_seen),
                    shape_issues(x, y).push(issue(IssueCode::MissingTarget)),
                    false,
                )
            },
            Some(t) => {
                let held = Double::from_usize(after.buffer_x@.len() as usize);
                &&& after.cap == self.cap
                &&& after.buffer() == self.buffer_after(x@, t)
                &&& after.buffer_y@ == self.targets_after(x@, t)
                &&& after.inner@ == self.inner_after(x@, t)
                &&& after.n_seen == self.n_seen + x.height()
                &&& after.updates == self.updates + 1
                &&& reports(
                    r,
                    IncrementalQuality {
                        effective_sample_size: held,
                        parameter_delta_norm: Some(
                            held.minus(Double::from_usize(self.buffer_x@.len() as usize)).abs(),
                        ),
                        ..bag_figures(self.n_seen, after.updates, x.height() as usize)
                    },
                    shape_issues(x, y),
                    true,
                )
            },
        }
    }

    /// Adds the hard rows of a batch and drops the oldest ones beyond the limit.
    fn gather(&mut self, x: &Matrix, y: &Vec<Double>, guesses: &Vec<Double>, fresh: bool)
        requires
            x.wf(),
            old(self).wf(),
            guesses@.len() == x.height(),
        ensures
            final(self).wf(),
            final(self).inner == old(self).inner,
            final(self).cap == old(self).cap,
            final(self).n_seen == old(self).n_seen,
            final(self).updates == old(self).updates,
            ({
                let at = hard_rows(guesses@, y@, fresh, pair_count(x, y@));
                &&& final(self).buffer() == newest(old(self).buffer() + rows_at(x@, at).rows, old(self).cap as nat)
                &&& final(self).buffer_y@ == newest(old(self).buffer_y@ + targets_at(y@, at), old(self).cap as nat)
            }),
    {
        let ghost start = *old(self);
        let n: usize = if y.len() < x.nrows() {
            y.len()
        } else {
            x.nrows()
        };
        let mut i: usize = 0;
        assert(self.buffer() =~= start.buffer() + rows_at(x@, hard_rows(guesses@, y@, fresh, 0)).rows);
        assert(self.buffer_y@ =~= start.buffer_y@ + targets_at(y@, hard_rows(guesses@, y@, fresh, 0)));
        while i < n
            invariant
                i <= n,
                n == pair_count(x, y@),
                x.wf(),
                guesses@.len() == x.height(),
                self.wf(),
                start == *old(self),
                self.inner == start.inner,
                self.cap == start.cap,
                self.n_seen == start.n_seen,
                self.updates == start.updates,
                self.buffer() == start.buffer() + rows_at(x@, hard_rows(guesses@, y@, fresh, i as nat)).rows,
                self.buffer_y@ == start.buffer_y@ + targets_at(y@, hard_rows(guesses@, y@, fresh, i as nat)),
            decreases n - i,
        {
            let ghost before = self.buffer();
            if (fresh || guesses[i].minus(y[i]).abs().ge(half())) && y[i].is_finite() {
                assert(x.rows[i as int]@.len() == x.width);
                let row = x.row(i);
                self.buffer_x.push(row);
                self.buffer_y.push(y[i]);
                assert(self.buffer() =~= before.push(x@.rows[i as int]));
            }
            i = i + 1;
            assert(self.buffer() =~= start.buffer() + rows_at(x@, hard_rows(guesses@, y@, fresh, i as nat)).rows);
            assert(self.buffer_y@ =~= start.buffer_y@ + targets_at(y@, hard_rows(guesses@, y@, fresh, i as nat)));
        }
        let ghost full = self.buffer();
        let ghost full_y = self.buffer_y@;
        assert(full.skip(0) =~= full);
        assert(full_y.skip(0) =~= full_y);
        while self.buffer_x.len() > self.cap
            invariant
                self.wf(),
                start == *old(self),
                self.inner == start.inner,
                self.cap == start.cap,
                self.n_seen == start.n_seen,
                self.updates == start.updates,
                self.buffer_x@.len() <= full.len(),
                full.len() == full_y.len(),
                self.buffer_x@.len() >= self.cap || self.buffer_x@.len() == full.len(),
                self.buffer() == full.skip(full.len() - self.buffer_x@.len()),
                self.buffer_y@ == full_y.skip(full.len() - self.buffer_x@.len()),
            decreases self.buffer_x@.len(),
        {
            let ghost before = self.buffer();
            let ghost before_y = self.buffer_y@;
            let ghost held = self.buffer_x@;
            self.buffer_x.remove(0);
            self.buffer_y.remove(0);
            assert(self.buffer_x@ =~= held.skip(1));
            assert(self.buffer() =~= before.skip(1));
            assert(self.buffer_y@ =~= before_y.skip(1));
            assert(self.buffer() =~= full.skip(full.len() - self.buffer_x@.len()));
            assert(self.buffer_y@ =~= full_y.skip(full.len() - self.buffer_x@.len()));
        }
        assert(self.buffer() =~= newest(full, start.cap as nat));
        assert(self.buffer_y@ =~= newest(full_y, start.cap as nat));
    }

    /// Takes in a batch, unless it has no target.
    pub fn partial_fit(&mut self, x: &Matrix, y: Option<&Vec<Double>>) -> (r: Update)
        requires
            x.wf(),
            old(self).wf(),
            y matches Some(t) ==> {
                &&& old(self).n_seen == 0 ==> x.height() <= t@.len()
                &&& old(self).covers(x@, t@)
            },
            old(self).room(x.height()),
        ensures
            final(self).wf(),
            old(self).answers(final(self), x, target(y), &r),
    {
        let n: usize = x.nrows();
        let mut issues: Vec<Issue> = Vec::new();
        inspect_online_xy(&mut issues, x, y);
        assert(issues@ =~= shape_issues(x, target(y)));
        let t: &Vec<Double> = match y {
            None => {
                issues.push(issue(IssueCode::MissingTarget));
                return rejection(self.updates, n, self.n_seen, issues);
            },
            Some(t) => t,
        };
        let before: usize = self.buffer_x.len();
        let fresh: bool = self.n_seen == 0;
        if fresh {
            proof {
                crate::streaming::linear::law_perceptron_mistakes(
                    self.inner@.ready(x.width as nat),
                    x@,
                    t@,
                    x.height(),
                );
            }
            let _ = self.inner.partial_fit(x, Some(t));
        }
        let ghost judge = self.inner@;
        assert(judge == old(self).judge(x@, t@));
        let guesses: Vec<Double> = self.inner.foresee(x);
        proof {
            Perceptron::lemma_foreseen(judge, x@);
            lemma_hard_rows(guesses@, t@, fresh, pair_count(x, t@));
        }
        self.gather(x, t, &guesses, fresh);
        assert(self.buffer() == old(self).buffer_after(x@, t@));
        if self.buffer_x.len() > 0 {
            let p: usize = self.buffer_x[0].len();
            let ghost held = self.buffer();
            assert(held[0].len() == p);
            let mut rows: Vec<Vec<Double>> = Vec::new();
            let mut a: usize = 0;
            while a < self.buffer_x.len()
                invariant
                    a <= self.buffer_x@.len(),
                    held == self.buffer(),
                    forall|b: int| 0 <= b < held.len() ==> (#[trigger] held[b]).len() >= p,
                    rows@.len() == a,
                    forall|b: int| 0 <= b < a ==> (#[trigger] rows@[b])@ == held[b].take(p as int),
                decreases self.buffer_x@.len() - a,
            {
                assert(held[a as int].len() >= p);
                rows.push(part(&self.buffer_x[a], 0, p));
                a = a + 1;
            }
            let xb = Matrix { rows, width: p };
            assert(xb@.rows =~= Seq::new(held.len(), |b: int| held[b].take(p as int)));
            let _ = self.inner.partial_fit(&xb, Some(&self.buffer_y));
        }
        self.n_seen = self.n_seen + n as u64;
        self.updates = self.updates + 1;
        let held: Double = Double::from_usize(self.buffer_x.len());
        let quality = IncrementalQuality {
            effective_sample_size: held,
            parameter_delta_norm: Some(held.minus(Double::from_usize(before)).abs()),
            information_gain: Some(Double::from_usize(n)),
            still_identified: self.n_seen >= 2,
            warmup: self.n_seen < 4,
            ..IncrementalQuality::new(self.updates - 1, n, self.n_seen)
        };
        screened_report(quality, issues)
    }

    /// What the perceptron predicts, or zeros before the first row.
    pub fn predict(&self, x: &Matrix) -> (out: Qualified<Vec<Double>>)
        requires
            x.wf(),
        ensures
            if self.n_seen == 0 {
                &&& out.value@ == zero_seq(x.height())
                &&& out.report@ == shape_issues(x, None).push(issue(IssueCode::PartialFitBeforeInit))
            } else {
                &&& out.value@ == Perceptron::foreseen(self.inner@, x@)
                &&& out.report@ == shape_issues(x, None)
            },
    {
        let mut report: Vec<Issue> = Vec::new();
        inspect_online_xy(&mut report, x, None);
        assert(report@ =~= shape_issues(x, None));
        if self.n_seen == 0 {
            report.push(issue(IssueCode::PartialFitBeforeInit));
            return Qualified { value: zeros(x.nrows()), report };
        }
        let value: Vec<Double> = self.inner.foresee(x);
        Qualified { value, report }
    }
}

} // verus!
