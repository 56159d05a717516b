//! Linear models that learn row by row.

use crate::constants::{decimal_9, half, neg_one, ten_to_minus_12, ten_to_minus_15, tenth, two};
use crate::data::{Batch, 
    copy, difference, max_abs, max_abs_of, norm, norm_of, subtract, zero_seq, zeros, Matrix,
};
use crate::double::{nan, one, zero, Double};
use crate::functions::{apply, apply_two, curve, is_function, is_function_of_two, surface, Curve, Surface};
use crate::online::common::{inspect_online_xy, shape_issues, target};
use crate::online::linear_regression::{lists_top, top_moved, ParameterUpdate};
use crate::quality::{given, issue, raise, IncrementalQuality, Issue, IssueCode, Qualified, Update};
use crate::streaming::columns::{plain_report, rejection, reports};
use crate::streaming::learner::Learner;
use crate::streaming::scalers::at_least_one_of;
use vstd::prelude::*;

verus! {

/// `start` plus the products of the first `k` entries, added from left to right.
pub open spec fn linear_score(start: Double, coef: Seq<Double>, row: Seq<Double>, k: nat) -> Double
    decreases k,
{
    if k == 0 {
        start
    } else {
        linear_score(start, coef, row, (k - 1) as nat).plus(coef[k - 1].times(row[k - 1]))
    }
}

/// `start` plus the products of the first `k` entries.
pub fn score_row(start: Double, coef: &Vec<Double>, row: &Vec<Double>, k: usize) -> (r: Double)
    requires
        k <= coef@.len(),
        k <= row@.len(),
    ensures
        r == linear_score(start, coef@, row@, k as nat),
{
    let mut s: Double = start;
    let mut j: usize = 0;
    while j < k
        invariant
            j <= k,
            k <= coef@.len(),
            k <= row@.len(),
            s == linear_score(start, coef@, row@, j as nat),
        decreases k - j,
    {
        s = s.plus(coef[j].times(row[j]));
        j = j + 1;
    }
    s
}

/// Weights moved along a row.
pub open spec fn moved_along(coef: Seq<Double>, row: Seq<Double>, step: Double) -> Seq<Double> {
    Seq::new(coef.len(), |j: int| coef[j].plus(step.times(row[j])))
}

/// Weights moved along a row.
pub fn move_along(coef: &Vec<Double>, row: &Vec<Double>, step: Double) -> (r: Vec<Double>)
    requires
        coef@.len() == row@.len(),
    ensures
        r@ == moved_along(coef@, row@, step),
{
    let mut r: Vec<Double> = Vec::new();
    let mut j: usize = 0;
    while j < coef.len()
        invariant
            j <= coef@.len(),
            coef@.len() == row@.len(),
            r@ == moved_along(coef@, row@, step).take(j as int),
        decreases coef@.len() - j,
    {
        r.push(coef[j].plus(step.times(row[j])));
        j = j + 1;
        assert(r@ =~= moved_along(coef@, row@, step).take(j as int));
    }
    assert(r@ =~= moved_along(coef@, row@, step));
    r
}

/// A label as plus or minus one.
pub open spec fn sign_label(y: Double) -> Double {
    if y.ge(half()) {
        one()
    } else {
        neg_one()
    }
}

/// A label as plus or minus one.
#[verifier::when_used_as_spec(sign_label)]
pub fn as_pm(y: Double) -> (r: Double)
    ensures
        r == sign_label(y),
{
    if y.ge(half()) {
        one()
    } else {
        neg_one()
    }
}

/// A label as zero or one.
pub open spec fn unit_label(y: Double) -> Double {
    if y.ge(half()) {
        one()
    } else {
        zero()
    }
}

/// A label as zero or one.
#[verifier::when_used_as_spec(unit_label)]
pub fn as01(y: Double) -> (r: Double)
    ensures
        r == unit_label(y),
{
    if y.ge(half()) {
        one()
    } else {
        zero()
    }
}

/// Quality figures of a linear model.
pub open spec fn linear_figures(
    updates: u64,
    batch: usize,
    n_seen: u64,
    delta: Seq<Double>,
    loss_before: Double,
    loss_after: Double,
    identified: bool,
    warmup: bool,
) -> IncrementalQuality {
    IncrementalQuality {
        effective_sample_size: Double::from_u64(n_seen),
        parameter_delta_norm: Some(norm_of(delta)),
        parameter_delta_max: Some(max_abs_of(delta, delta.len())),
        loss_before: Some(loss_before),
        loss_after: Some(loss_after),
        information_gain: Some(loss_before.minus(loss_after).abs().max(norm_of(delta))),
        still_identified: identified,
        warmup,
        ..IncrementalQuality::new(
            if updates == 0 {
                0
            } else {
                (updates - 1) as u64
            },
            batch,
            n_seen,
        )
    }
}

/// What the update of a linear model reports.
pub open spec fn linear_reports(
    r: &ParameterUpdate,
    quality: IncrementalQuality,
    issues: Seq<Issue>,
    delta: Seq<Double>,
) -> bool {
    &&& r.update.quality == quality
    &&& r.update.issues@ == issues
    &&& r.update.screened
    &&& !r.update.idle
    &&& r.update.trailing@ == given(quality.warmup, IssueCode::WarmupIncomplete)
    &&& lists_top(r.top_moved@, delta, 3)
}

/// Packs the report of a linear model.
pub fn pack_linear_explain(
    updates: u64,
    batch: usize,
    n_seen: u64,
    delta: &Vec<Double>,
    loss_before: Double,
    loss_after: Double,
    identified: bool,
    warmup: bool,
    issues: Vec<Issue>,
) -> (r: ParameterUpdate)
    ensures
        linear_reports(
            &r,
            linear_figures(updates, batch, n_seen, delta@, loss_before, loss_after, identified, warmup),
            issues@,
            delta@,
        ),
{
    let length: Double = norm(delta);
    let quality = IncrementalQuality {
        effective_sample_size: Double::from_u64(n_seen),
        parameter_delta_norm: Some(length),
        parameter_delta_max: Some(max_abs(delta)),
        loss_before: Some(loss_before),
        loss_after: Some(loss_after),
        information_gain: Some(loss_before.minus(loss_after).abs().max(length)),
        still_identified: identified,
        warmup,
        ..IncrementalQuality::new(
            if updates == 0 {
                0
            } else {
                updates - 1
            },
            batch,
            n_seen,
        )
    };
    let mut trailing: Vec<Issue> = Vec::new();
    raise(&mut trailing, warmup, IssueCode::WarmupIncomplete);
    assert(trailing@ =~= given(warmup, IssueCode::WarmupIncomplete));
    let top = top_moved(delta, 3);
    ParameterUpdate { update: Update { quality, issues, screened: true, idle: false, trailing }, top_moved: top }
}

/// The report of a linear model that was given nothing to learn from.
pub open spec fn linear_refused(r: &ParameterUpdate, updates: u64, batch: usize, n_seen: u64, issues: Seq<Issue>) -> bool {
    &&& reports(&r.update, IncrementalQuality::new(updates, batch, n_seen), issues, false)
    &&& r.top_moved@.len() == 0
}

fn refuse(updates: u64, batch: usize, n_seen: u64, code: IssueCode) -> (r: ParameterUpdate)
    ensures
        linear_refused(&r, updates, batch, n_seen, seq![issue(code)]),
{
    let mut issues: Vec<Issue> = Vec::new();
    issues.push(issue(code));
    assert(issues@ =~= seq![issue(code)]);
    ParameterUpdate { update: rejection(updates, batch, n_seen, issues), top_moved: Vec::new() }
}

/// Why a batch is turned away by a linear model with weights for `width` columns.
pub open spec fn linear_refusal(
    initialized: bool,
    width: nat,
    x: Batch,
    y: Option<Seq<Double>>,
) -> Option<IssueCode> {
    if y is None {
        Some(IssueCode::MissingTarget)
    } else if !initialized && x.width == 0 {
        Some(IssueCode::PartialFitBeforeInit)
    } else if initialized && width != x.width {
        Some(IssueCode::FeatureSpaceChangedOnline)
    } else {
        None
    }
}

/// The labels of a linear classifier: 1 where the score is not negative.
pub open spec fn sign_predictions(coef: Seq<Double>, intercept: Double, x: Batch) -> Seq<Double> {
    let k: nat = if x.width < coef.len() {
        x.width as nat
    } else {
        coef.len()
    };
    Seq::new(
        x.height(),
        |i: int|
            if linear_score(intercept, coef, x.rows[i], k).ge(zero()) {
                one()
            } else {
                zero()
            },
    )
}

/// What a classifier predicts: zeros, with an issue, before it is initialised.
pub open spec fn sign_predicted(out: &Qualified<Vec<Double>>, initialized: bool, coef: Seq<Double>, intercept: Double, x: &Matrix) -> bool {
    if !initialized {
        &&& out.value@ == zero_seq(x.height())
        &&& out.report@ == seq![issue(IssueCode::PartialFitBeforeInit)]
    } else {
        &&& out.value@ == sign_predictions(coef, intercept, x@)
        &&& out.report@.len() == 0
    }
}

/// The answer before a model is initialised: zeros, with an issue.
pub fn unready(n: usize) -> (out: Qualified<Vec<Double>>)
    ensures
        out.value@ == zero_seq(n as nat),
        out.report@ == seq![issue(IssueCode::PartialFitBeforeInit)],
{
    let mut report: Vec<Issue> = Vec::new();
    report.push(issue(IssueCode::PartialFitBeforeInit));
    assert(report@ =~= seq![issue(IssueCode::PartialFitBeforeInit)]);
    Qualified { value: zeros(n), report }
}

fn predict_signs(initialized: bool, coef: &Vec<Double>, intercept: Double, x: &Matrix) -> (out: Qualified<Vec<Double>>)
    requires
        x.wf(),
    ensures
        sign_predicted(&out, initialized, coef@, intercept, x),
{
    if !initialized {
        return unready(x.nrows());
    }
    let k: usize = if x.ncols() < coef.len() {
        x.ncols()
    } else {
        coef.len()
    };
    let ghost want = sign_predictions(coef@, intercept, x@);
    let mut value: Vec<Double> = Vec::new();
    let mut i: usize = 0;
    while i < x.nrows()
        invariant
            i <= x.height(),
            x.wf(),
            k <= coef@.len(),
            k <= x.width,
            k == x.width || k == coef@.len(),
            want == sign_predictions(coef@, intercept, x@),
            value@ == want.take(i as int),
        decreases x.height() - i,
    {
        let s: Double = score_row(intercept, coef, &x.rows[i], k);
        value.push(
            if s.ge(zero()) {
                one()
            } else {
                zero()
            },
        );
        i = i + 1;
        assert(value@ =~= want.take(i as int));
    }
    assert(value@ =~= want);
    Qualified { value, report: Vec::new() }
}

/// Mistake-driven perceptron with labels plus and minus one.
#[derive(Clone, Debug)]
pub struct Perceptron {
    /// Slopes.
    pub coef: Vec<Double>,
    /// Intercept.
    pub intercept: Double,
    /// Rows taken in.
    pub n_seen: u64,
    /// Batches taken in.
    pub updates: u64,
    /// Mistakes made.
    pub mistakes: u64,
    /// Whether the column count is fixed.
    pub initialized: bool,
}

/// The state of a perceptron.
pub struct PerceptronState {
    /// Slopes.
    pub coef: Seq<Double>,
    /// Intercept.
    pub intercept: Double,
    /// Rows taken in.
    pub n_seen: nat,
    /// Batches taken in.
    pub updates: nat,
    /// Mistakes made.
    pub mistakes: nat,
    /// Whether the column count is fixed.
    pub initialized: bool,
}

impl View for Perceptron {
    type V = PerceptronState;

    open spec fn view(&self) -> PerceptronState {
        PerceptronState {
            coef: self.coef@,
            intercept: self.intercept,
            n_seen: self.n_seen as nat,
            updates: self.updates as nat,
            mistakes: self.mistakes as nat,
            initialized: self.initialized,
        }
    }
}

impl PerceptronState {
    /// The state before any row.
    pub open spec fn blank() -> PerceptronState {
        PerceptronState {
            coef: Seq::empty(),
            intercept: zero(),
            n_seen: 0,
            updates: 0,
            mistakes: 0,
            initialized: false,
        }
    }

    /// The state with one slope per column.
    pub open spec fn ready(self, width: nat) -> PerceptronState {
        if self.initialized {
            self
        } else {
            PerceptronState { coef: zero_seq(width), initialized: true, ..self }
        }
    }

    /// The weights after one more row: they move where the sign is wrong.
    pub open spec fn shown(self, row: Seq<Double>, y: Double) -> PerceptronState {
        let label = as_pm(y);
        if label.times(linear_score(self.intercept, self.coef, row, row.len())).le(zero()) {
            PerceptronState {
                coef: moved_along(self.coef, row, label),
                intercept: self.intercept.plus(label),
                mistakes: self.mistakes + 1,
                ..self
            }
        } else {
            self
        }
    }

    /// The weights after the first `k` rows.
    pub open spec fn after(self, x: Batch, y: Seq<Double>, k: nat) -> PerceptronState
        decreases k,
    {
        if k == 0 {
            self
        } else {
            self.after(x, y, (k - 1) as nat).shown(x.rows[k - 1], y[k - 1])
        }
    }

    /// The state after a batch. A batch that does not fit changes nothing.
    pub open spec fn taught(self, x: Batch, y: Seq<Double>) -> PerceptronState {
        if linear_refusal(self.initialized, self.coef.len(), x, Some(y)) is Some {
            self
        } else {
            PerceptronState {
                n_seen: self.n_seen + x.height(),
                updates: self.updates + 1,
                ..self.ready(x.width as nat).after(x, y, x.height())
            }
        }
    }

    /// Counters that leave room for a batch.
    pub open spec fn room(self, rows: nat) -> bool {
        &&& self.n_seen + rows <= u64::MAX
        &&& self.mistakes + rows <= u64::MAX
        &&& self.updates < u64::MAX
    }
}

/// A batch adds at most one mistake per row and keeps the number of slopes.
pub proof fn law_perceptron_mistakes(start: PerceptronState, x: Batch, y: Seq<Double>, k: nat)
    ensures
        start.mistakes <= start.after(x, y, k).mistakes <= start.mistakes + k,
        start.after(x, y, k).coef.len() == start.coef.len(),
    decreases k,
{
    if k > 0 {
        law_perceptron_mistakes(start, x, y, (k - 1) as nat);
    }
}

/// A batch without a mistake moves no weight.
pub proof fn law_perceptron_moves_on_mistakes_only(start: PerceptronState, x: Batch, y: Seq<Double>, k: nat)
    requires
        start.after(x, y, k).mistakes == start.mistakes,
    ensures
        start.after(x, y, k) == start,
    decreases k,
{
    if k > 0 {
        law_perceptron_mistakes(start, x, y, (k - 1) as nat);
        law_perceptron_moves_on_mistakes_only(start, x, y, (k - 1) as nat);
    }
}

impl Default for Perceptron {
    fn default() -> (r: Perceptron)
        ensures
            r@ == PerceptronState::blank(),
    {
        Perceptron::new()
    }
}

impl Perceptron {
    /// A perceptron with zero weights.
    pub fn new() -> (r: Perceptron)
        ensures
            r@ == PerceptronState::blank(),
    {
        let r = Perceptron {
            coef: Vec::new(),
            intercept: zero(),
            n_seen: 0,
            updates: 0,
            mistakes: 0,
            initialized: false,
        };
        assert(r.coef@ =~= Seq::empty());
        r
    }

    /// Current slopes.
    pub fn coef(&self) -> (r: &Vec<Double>)
        ensures
            r@ == self@.coef,
    {
        &self.coef
    }

    /// A copy with the same state.
    pub fn copy(&self) -> (r: Perceptron)
        ensures
            r@ == self@,
    {
        Perceptron {
            coef: copy(&self.coef),
            intercept: self.intercept,
            n_seen: self.n_seen,
            updates: self.updates,
            mistakes: self.mistakes,
            initialized: self.initialized,
        }
    }

    /// What a batch that fits reports.
    pub open spec fn tells(&self, after: &Perceptron, x: &Matrix, y: Seq<Double>, r: &ParameterUpdate) -> bool {
        let delta = difference(after@.coef, self@.ready(x.width as nat).coef);
        linear_reports(
            r,
            linear_figures(
                after.updates,
                x.height() as usize,
                after.n_seen,
                delta,
                Double::from_u64((after.mistakes - self.mistakes) as u64).over(at_least_one_of(x.height() as u64)),
                zero(),
                after.n_seen > x.width,
                after.n_seen < 5,
            ),
            shape_issues(x, Some(y)),
            delta,
        )
    }

    /// Takes in a batch, unless it has no target or its column count does not fit.
    pub fn partial_fit(&mut self, x: &Matrix, y: Option<&Vec<Double>>) -> (r: ParameterUpdate)
        requires
            x.wf(),
            old(self)@.room(x.height()),
            linear_refusal(old(self).initialized, old(self).coef@.len(), x@, target(y)) is None ==> x.height()
                <= y->0@.len(),
        ensures
            match linear_refusal(old(self).initialized, old(self)@.coef.len(), x@, target(y)) {
                Some(code) => {
                    &&& *final(self) == *old(self)
                    &&& linear_refused(&r, old(self).updates, x.height() as usize, old(self).n_seen, seq![issue(code)])
                },
                None => {
                    &&& final(self)@ == old(self)@.taught(x@, y->0@)
                    &&& old(self).tells(final(self), x, y->0@, &r)
                },
            },
    {
        let n: usize = x.nrows();
        let t: &Vec<Double> = match y {
            None => {
                return refuse(self.updates, n, self.n_seen, IssueCode::MissingTarget);
            },
            Some(t) => t,
        };
        if !self.initialized {
            if x.ncols() == 0 {
                return refuse(self.updates, n, self.n_seen, IssueCode::PartialFitBeforeInit);
            }
        } else if self.coef.len() != x.ncols() {
            return refuse(self.updates, n, self.n_seen, IssueCode::FeatureSpaceChangedOnline);
        }
        let mut issues: Vec<Issue> = Vec::new();
        inspect_online_xy(&mut issues, x, Some(t));
        assert(issues@ =~= shape_issues(x, Some(t@)));
        let ghost first = self@.ready(x.width as nat);
        let before: Vec<Double> = if self.initialized {
            copy(&self.coef)
        } else {
            zeros(x.ncols())
        };
        let mut coef: Vec<Double> = copy(&before);
        let mut intercept: Double = self.intercept;
        let mut made: u64 = 0;
        let mut i: usize = 0;
        while i < n
            invariant
                i <= n,
                n == x.height(),
                x.wf(),
                n <= t@.len(),
                coef@.len() == x.width,
                first.after(x@, t@, i as nat) == (PerceptronState {
                    coef: coef@,
                    intercept,
                    mistakes: (first.mistakes + made) as nat,
                    ..first
                }),
                made <= i,
            decreases n - i,
        {
            let row: &Vec<Double> = &x.rows[i];
            let label: Double = as_pm(t[i]);
            let s: Double = score_row(intercept, &coef, row, x.ncols());
            if label.times(s).le(zero()) {
                made = made + 1;
                coef = move_along(&coef, row, label);
                intercept = intercept.plus(label);
            }
            i = i + 1;
        }
        let delta = subtract(&coef, &before);
        self.coef = coef;
        self.intercept = intercept;
        self.mistakes = self.mistakes + made;
        self.n_seen = self.n_seen + n as u64;
        self.updates = self.updates + 1;
        self.initialized = true;
        let loss: Double = Double::from_u64(made).over(at_least_one_of(n as u64));
        pack_linear_explain(
            self.updates,
            n,
            self.n_seen,
            &delta,
            loss,
            zero(),
            self.n_seen > x.ncols() as u64,
            self.n_seen < 5,
            issues,
        )
    }

    /// 1 where the score is not negative, else 0.
    pub fn predict(&self, x: &Matrix) -> (out: Qualified<Vec<Double>>)
        requires
            x.wf(),
        ensures
            sign_predicted(&out, self.initialized, self.coef@, self.intercept, x),
    {
        predict_signs(self.initialized, &self.coef, self.intercept, x)
    }
}

impl Learner for Perceptron {
    open spec fn sound(&self) -> bool {
        true
    }

    open spec fn room(s: PerceptronState, rows: nat) -> bool {
        s.room(rows)
    }

    open spec fn apt(s: PerceptronState, x: Batch) -> bool {
        true
    }

    open spec fn taught(s: PerceptronState, x: Batch, y: Seq<Double>) -> PerceptronState {
        s.taught(x, y)
    }

    open spec fn foreseen(s: PerceptronState, x: Batch) -> Seq<Double> {
        if s.initialized {
            sign_predictions(s.coef, s.intercept, x)
        } else {
            zero_seq(x.height())
        }
    }

    proof fn lemma_foreseen(s: PerceptronState, x: Batch) {
    }

    fn teach(&mut self, x: &Matrix, y: &Vec<Double>) {
        let _ = self.partial_fit(x, Some(y));
    }

    fn foresee(&self, x: &Matrix) -> (r: Vec<Double>) {
        let out = self.predict(x);
        out.value
    }

    fn duplicate(&self) -> (r: Perceptron) {
        self.copy()
    }
}

/// Passive-aggressive classifier with capped steps.
#[derive(Clone, Debug)]
pub struct PassiveAggressive {
    /// Largest step.
    pub c: Double,
    /// Slopes.
    pub coef: Vec<Double>,
    /// Intercept.
    pub intercept: Double,
    /// Rows taken in.
    pub n_seen: u64,
    /// Batches taken in.
    pub updates: u64,
    /// Whether the column count is fixed.
    pub initialized: bool,
}

/// Weights of a passive-aggressive classifier with the hinge losses met so far.
pub struct HingeTrail {
    /// Slopes.
    pub coef: Seq<Double>,
    /// Intercept.
    pub intercept: Double,
    /// Sum of the hinge losses before each step.
    pub hinge: Double,
}

/// One plus the squares of the first `k` entries, added from left to right.
pub open spec fn one_plus_squares(row: Seq<Double>, k: nat) -> Double
    decreases k,
{
    if k == 0 {
        one()
    } else {
        one_plus_squares(row, (k - 1) as nat).plus(row[k - 1].times(row[k - 1]))
    }
}

impl HingeTrail {
    /// Hinge loss of a row.
    pub open spec fn loss(self, row: Seq<Double>, y: Double) -> Double {
        one().minus(as_pm(y).times(linear_score(self.intercept, self.coef, row, row.len()))).max(zero())
    }

    /// The weights after one more row: the smallest step that removes the loss, but
    /// no larger than the cap.
    pub open spec fn shown(self, row: Seq<Double>, y: Double, cap: Double) -> HingeTrail {
        let loss = self.loss(row, y);
        let length = one_plus_squares(row, row.len());
        let hinge = self.hinge.plus(loss);
        if loss.gt(zero()) && length.gt(zero()) {
            let step = loss.over(length).min(cap).times(as_pm(y));
            HingeTrail { coef: moved_along(self.coef, row, step), intercept: self.intercept.plus(step), hinge }
        } else {
            HingeTrail { hinge, ..self }
        }
    }

    /// The weights after the first `k` rows.
    pub open spec fn after(self, x: Batch, y: Seq<Double>, cap: Double, k: nat) -> HingeTrail
        decreases k,
    {
        if k == 0 {
            self
        } else {
            self.after(x, y, cap, (k - 1) as nat).shown(x.rows[k - 1], y[k - 1], cap)
        }
    }
}

/// Passive: a row that is already on the right side of the margin moves no weight.
pub proof fn law_passive_on_margin(t: HingeTrail, row: Seq<Double>, y: Double, cap: Double)
    requires
        !t.loss(row, y).gt(zero()),
    ensures
        t.shown(row, y, cap).coef == t.coef,
        t.shown(row, y, cap).intercept == t.intercept,
{
}

impl Default for PassiveAggressive {
    fn default() -> (r: PassiveAggressive)
        ensures
            r.blank(one()),
    {
        PassiveAggressive::new(one())
    }
}

impl PassiveAggressive {
    /// The state before any row.
    pub open spec fn blank(&self, c: Double) -> bool {
        &&& self.c == c
        &&& self.coef@.len() == 0
        &&& self.intercept == zero()
        &&& self.n_seen == 0
        &&& self.updates == 0
        &&& !self.initialized
    }

    /// A classifier whose steps are capped at `c`.
    pub fn new(c: Double) -> (r: PassiveAggressive)
        ensures
            r.blank(c),
    {
        PassiveAggressive { c, coef: Vec::new(), intercept: zero(), n_seen: 0, updates: 0, initialized: false }
    }

    /// Current slopes.
    pub fn coef(&self) -> (r: &Vec<Double>)
        ensures
            r@ == self.coef@,
    {
        &self.coef
    }

    /// What a batch starts from.
    pub open spec fn trail(&self, width: usize) -> HingeTrail {
        HingeTrail {
            coef: if self.initialized {
                self.coef@
            } else {
                zero_seq(width as nat)
            },
            intercept: self.intercept,
            hinge: zero(),
        }
    }

    /// What a batch ends with.
    pub open spec fn end(&self, x: Batch, y: Seq<Double>) -> HingeTrail {
        self.trail(x.width).after(x, y, self.c, x.height())
    }

    /// What a batch that fits does.
    pub open spec fn learns(&self, after: &PassiveAggressive, x: &Matrix, y: Seq<Double>, r: &ParameterUpdate) -> bool {
        let end = self.end(x@, y);
        let delta = difference(end.coef, self.trail(x.width).coef);
        &&& after.c == self.c
        &&& after.coef@ == end.coef
        &&& after.intercept == end.intercept
        &&& after.n_seen == self.n_seen + x.height()
        &&& after.updates == self.updates + 1
        &&& after.initialized
        &&& linear_reports(
            r,
            linear_figures(
                after.updates,
                x.height() as usize,
                after.n_seen,
                delta,
                end.hinge.over(at_least_one_of(x.height() as u64)),
                zero(),
                after.n_seen > x.width,
                after.n_seen < 5,
            ),
            shape_issues(x, Some(y)),
            delta,
        )
    }

    /// Takes in a batch, unless it has no target or its column count does not fit.
    pub fn partial_fit(&mut self, x: &Matrix, y: Option<&Vec<Double>>) -> (r: ParameterUpdate)
        requires
            x.wf(),
            old(self).n_seen + x.height() <= u64::MAX,
            old(self).updates < u64::MAX,
            linear_refusal(old(self).initialized, old(self).coef@.len(), x@, target(y)) is None ==> x.height()
                <= y->0@.len(),
        ensures
            match linear_refusal(old(self).initialized, old(self).coef@.len(), x@, target(y)) {
                Some(code) => {
                    &&& *final(self) == *old(self)
                    &&& linear_refused(&r, old(self).updates, x.height() as usize, old(self).n_seen, seq![issue(code)])
                },
                None => old(self).learns(final(self), x, y->0@, &r),
            },
    {
        let n: usize = x.nrows();
        let t: &Vec<Double> = match y {
            None => {
                return refuse(self.updates, n, self.n_seen, IssueCode::MissingTarget);
            },
            Some(t) => t,
        };
        if !self.initialized {
            if x.ncols() == 0 {
                return refuse(self.updates, n, self.n_seen, IssueCode::PartialFitBeforeInit);
            }
        } else if self.coef.len() != x.ncols() {
            return refuse(self.updates, n, self.n_seen, IssueCode::FeatureSpaceChangedOnline);
        }
        let mut issues: Vec<Issue> = Vec::new();
        inspect_online_xy(&mut issues, x, Some(t));
        assert(issues@ =~= shape_issues(x, Some(t@)));
        let ghost first = self.trail(x.width);
        let before: Vec<Double> = if self.initialized {
            copy(&self.coef)
        } else {
            zeros(x.ncols())
        };
        let mut coef: Vec<Double> = copy(&before);
        let mut intercept: Double = self.intercept;
        let mut hinge: Double = zero();
        let mut i: usize = 0;
        while i < n
            invariant
                i <= n,
                n == x.height(),
                x.wf(),
                n <= t@.len(),
                coef@.len() == x.width,
                first.after(x@, t@, self.c, i as nat) == (HingeTrail { coef: coef@, intercept, hinge }),
            decreases n - i,
        {
            let row: &Vec<Double> = &x.rows[i];
            assert(x@.rows[i as int] == row@);
            let label: Double = as_pm(t[i]);
            let s: Double = score_row(intercept, &coef, row, x.ncols());
            let mut length: Double = one();
            let mut j: usize = 0;
            while j < row.len()
                invariant
                    j <= row@.len(),
                    length == one_plus_squares(row@, j as nat),
                decreases row@.len() - j,
            {
                length = length.plus(row[j].times(row[j]));
                j = j + 1;
            }
            let loss: Double = one().minus(label.times(s)).max(zero());
            hinge = hinge.plus(loss);
            if loss.gt(zero()) && length.gt(zero()) {
                let step: Double = loss.over(length).min(self.c).times(label);
                coef = move_along(&coef, row, step);
                intercept = intercept.plus(step);
            }
            i = i + 1;
        }
        let delta = subtract(&coef, &before);
        self.coef = coef;
        self.intercept = intercept;
        self.n_seen = self.n_seen + n as u64;
        self.updates = self.updates + 1;
        self.initialized = true;
        let loss: Double = hinge.over(at_least_one_of(n as u64));
        pack_linear_explain(
            self.updates,
            n,
            self.n_seen,
            &delta,
            loss,
            zero(),
            self.n_seen > x.ncols() as u64,
            self.n_seen < 5,
            issues,
        )
    }

    /// 1 where the score is not negative, else 0.
    pub fn predict(&self, x: &Matrix) -> (out: Qualified<Vec<Double>>)
        requires
            x.wf(),
        ensures
            sign_predicted(&out, self.initialized, self.coef@, self.intercept, x),
    {
        predict_signs(self.initialized, &self.coef, self.intercept, x)
    }
}

/// The logistic function, given the exponential.
pub open spec fn logistic(z: Double, exp: Curve) -> Double {
    if z.ge(zero()) {
        let e = exp(z.neg());
        one().over(one().plus(e))
    } else {
        let e = exp(z);
        e.over(one().plus(e))
    }
}

/// The logistic function, given the exponential.
pub fn sigmoid<E: Fn(Double) -> Double>(z: Double, exp: &E) -> (r: Double)
    requires
        is_function(*exp),
    ensures
        r == logistic(z, curve(*exp)),
{
    if z.ge(zero()) {
        let e: Double = apply(exp, z.neg());
        one().over(one().plus(e))
    } else {
        let e: Double = apply(exp, z);
        e.over(one().plus(e))
    }
}

/// Sum of the log losses of the first `k` rows.
pub open spec fn log_losses(coef: Seq<Double>, intercept: Double, x: Batch, y: Seq<Double>, exp: Curve, ln: Curve, k: nat) -> Double
    decreases k,
{
    if k == 0 {
        zero()
    } else {
        let mu = logistic(linear_score(intercept, coef, x.rows[k - 1], x.width as nat), exp).clamp(
            ten_to_minus_12(),
            one().minus(ten_to_minus_12()),
        );
        let t = as01(y[k - 1]);
        log_losses(coef, intercept, x, y, exp, ln, (k - 1) as nat).plus(
            t.times(ln(mu)).plus(one().minus(t).times(ln(one().minus(mu)))).neg(),
        )
    }
}

/// Mean log loss, NaN for an empty batch.
pub open spec fn log_loss(coef: Seq<Double>, intercept: Double, x: Batch, y: Seq<Double>, exp: Curve, ln: Curve) -> Double {
    if x.height() == 0 || coef.len() != x.width {
        nan()
    } else {
        log_losses(coef, intercept, x, y, exp, ln, x.height()).over(Double::from_usize(x.height() as usize))
    }
}

fn logloss_of<E: Fn(Double) -> Double, L: Fn(Double) -> Double>(
    x: &Matrix,
    y: &Vec<Double>,
    coef: &Vec<Double>,
    intercept: Double,
    exp: &E,
    ln: &L,
) -> (r: Double)
    requires
        x.wf(),
        x.height() <= y@.len(),
        is_function(*exp),
        is_function(*ln),
    ensures
        r == log_loss(coef@, intercept, x@, y@, curve(*exp), curve(*ln)),
{
    if x.nrows() == 0 || coef.len() != x.ncols() {
        return nan();
    }
    let mut s: Double = zero();
    let mut i: usize = 0;
    while i < x.nrows()
        invariant
            i <= x.height(),
            x.wf(),
            x.height() <= y@.len(),
            coef@.len() == x.width,
            is_function(*exp),
            is_function(*ln),
            s == log_losses(coef@, intercept, x@, y@, curve(*exp), curve(*ln), i as nat),
        decreases x.height() - i,
    {
        assert(x@.rows[i as int] == x.rows@[i as int]@);
        let eta: Double = score_row(intercept, coef, &x.rows[i], x.ncols());
        let mu: Double = sigmoid(eta, exp).clamp(ten_to_minus_12(), one().minus(ten_to_minus_12()));
        let t: Double = as01(y[i]);
        s = s.plus(t.times(apply(ln, mu)).plus(one().minus(t).times(apply(ln, one().minus(mu)))).neg());
        i = i + 1;
    }
    s.over(Double::from_usize(x.nrows()))
}

/// Logistic regression by stochastic gradient descent.
#[derive(Clone, Debug)]
pub struct LogisticRegression {
    /// Step size.
    pub learning_rate: Double,
    /// Penalty on the squares of the slopes.
    pub l2: Double,
    /// Whether the intercept is fitted.
    pub fit_intercept: bool,
    /// Slopes.
    pub coef: Vec<Double>,
    /// Intercept.
    pub intercept: Double,
    /// Rows taken in.
    pub n_seen: u64,
    /// Batches taken in.
    pub updates: u64,
    /// Whether the column count is fixed.
    pub initialized: bool,
}

/// Slopes and intercept.
pub struct Weights {
    /// Slopes.
    pub coef: Seq<Double>,
    /// Intercept.
    pub intercept: Double,
}

impl Default for LogisticRegression {
    fn default() -> (r: LogisticRegression)
        ensures
            r.blank(),
    {
        LogisticRegression::new()
    }
}

impl LogisticRegression {
    /// The state before any row.
    pub open spec fn blank(&self) -> bool {
        &&& self.learning_rate == tenth()
        &&& self.l2 == zero()
        &&& self.fit_intercept
        &&& self.coef@.len() == 0
        &&& self.intercept == zero()
        &&& self.n_seen == 0
        &&& self.updates == 0
        &&& !self.initialized
    }

    /// A regression with the default settings.
    pub fn new() -> (r: LogisticRegression)
        ensures
            r.blank(),
    {
        LogisticRegression {
            learning_rate: tenth(),
            l2: zero(),
            fit_intercept: true,
            coef: Vec::new(),
            intercept: zero(),
            n_seen: 0,
            updates: 0,
            initialized: false,
        }
    }

    /// Current slopes.
    pub fn coef(&self) -> (r: &Vec<Double>)
        ensures
            r@ == self.coef@,
    {
        &self.coef
    }

    /// Current intercept.
    pub fn intercept(&self) -> (r: Double)
        ensures
            r == self.intercept,
    {
        self.intercept
    }

    /// The weights that a batch starts from.
    pub open spec fn start(&self, width: usize) -> Weights {
        Weights {
            coef: if self.initialized {
                self.coef@
            } else {
                zero_seq(width as nat)
            },
            intercept: self.intercept,
        }
    }

    /// The weights after one gradient step.
    pub open spec fn stepped(&self, w: Weights, row: Seq<Double>, y: Double, exp: Curve) -> Weights {
        let g = logistic(linear_score(w.intercept, w.coef, row, row.len()), exp).minus(as01(y));
        Weights {
            coef: Seq::new(
                w.coef.len(),
                |j: int|
                    w.coef[j].minus(self.learning_rate.times(g.times(row[j]).plus(self.l2.times(w.coef[j])))),
            ),
            intercept: if self.fit_intercept {
                w.intercept.minus(self.learning_rate.times(g))
            } else {
                w.intercept
            },
        }
    }

    /// The weights after the first `k` rows.
    pub open spec fn after(&self, x: Batch, y: Seq<Double>, exp: Curve, k: nat) -> Weights
        decreases k,
    {
        if k == 0 {
            self.start(x.width)
        } else {
            self.stepped(self.after(x, y, exp, (k - 1) as nat), x.rows[k - 1], y[k - 1], exp)
        }
    }

    /// What a batch that fits does.
    pub open spec fn learns(&self, after: &LogisticRegression, x: &Matrix, y: Seq<Double>, exp: Curve, ln: Curve, r: &ParameterUpdate) -> bool {
        let w0 = self.start(x.width);
        let w1 = self.after(x@, y, exp, x.height());
        let delta = difference(w1.coef, w0.coef);
        &&& after.learning_rate == self.learning_rate
        &&& after.l2 == self.l2
        &&& after.fit_intercept == self.fit_intercept
        &&& after.coef@ == w1.coef
        &&& after.intercept == w1.intercept
        &&& after.n_seen == self.n_seen + x.height()
        &&& after.updates == self.updates + 1
        &&& after.initialized
        &&& linear_reports(
            r,
            linear_figures(
                after.updates,
                x.height() as usize,
                after.n_seen,
                delta,
                log_loss(w0.coef, w0.intercept, x@, y, exp, ln),
                log_loss(w1.coef, w1.intercept, x@, y, exp, ln),
                after.n_seen > x.width,
                after.n_seen < 5,
            ),
            shape_issues(x, Some(y)) + given(self.learning_rate.gt(one()), IssueCode::LearningRateTooLarge),
            delta,
        )
    }

    fn step<E: Fn(Double) -> Double>(&self, coef: &Vec<Double>, intercept: Double, row: &Vec<Double>, y: Double, exp: &E) -> (r: (Vec<Double>, Double))
        requires
            coef@.len() == row@.len(),
            is_function(*exp),
        ensures
            ({
                let w = self.stepped(Weights { coef: coef@, intercept }, row@, y, curve(*exp));
                &&& r.0@ == w.coef
                &&& r.1 == w.intercept
            }),
    {
        let ghost w = self.stepped(Weights { coef: coef@, intercept }, row@, y, curve(*exp));
        let g: Double = sigmoid(score_row(intercept, coef, row, row.len()), exp).minus(as01(y));
        let mut next: Vec<Double> = Vec::new();
        let mut j: usize = 0;
        while j < coef.len()
            invariant
                j <= coef@.len(),
                coef@.len() == row@.len(),
                g == logistic(linear_score(intercept, coef@, row@, row@.len()), curve(*exp)).minus(as01(y)),
                w == self.stepped(Weights { coef: coef@, intercept }, row@, y, curve(*exp)),
                next@ == w.coef.take(j as int),
            decreases coef@.len() - j,
        {
            next.push(coef[j].minus(self.learning_rate.times(g.times(row[j]).plus(self.l2.times(coef[j])))));
            j = j + 1;
            assert(next@ =~= w.coef.take(j as int));
        }
        assert(next@ =~= w.coef);
        if self.fit_intercept {
            (next, intercept.minus(self.learning_rate.times(g)))
        } else {
            (next, intercept)
        }
    }

    /// Takes in a batch, unless it has no target or its column count does not fit.
    /// `exp` is the exponential and `ln` the natural logarithm.
    pub fn partial_fit<E: Fn(Double) -> Double, L: Fn(Double) -> Double>(
        &mut self,
        x: &Matrix,
        y: Option<&Vec<Double>>,
        exp: &E,
        ln: &L,
    ) -> (r: ParameterUpdate)
        requires
            x.wf(),
            old(self).n_seen + x.height() <= u64::MAX,
            old(self).updates < u64::MAX,
            linear_refusal(old(self).initialized, old(self).coef@.len(), x@, target(y)) is None ==> x.height()
                <= y->0@.len(),
            is_function(*exp),
            is_function(*ln),
        ensures
            match linear_refusal(old(self).initialized, old(self).coef@.len(), x@, target(y)) {
                Some(code) => {
                    &&& *final(self) == *old(self)
                    &&& linear_refused(&r, old(self).updates, x.height() as usize, old(self).n_seen, seq![issue(code)])
                },
                None => old(self).learns(final(self), x, y->0@, curve(*exp), curve(*ln), &r),
            },
    {
        let n: usize = x.nrows();
        let t: &Vec<Double> = match y {
            None => {
                return refuse(self.updates, n, self.n_seen, IssueCode::MissingTarget);
            },
            Some(t) => t,
        };
        if !self.initialized {
            if x.ncols() == 0 {
                return refuse(self.updates, n, self.n_seen, IssueCode::PartialFitBeforeInit);
            }
        } else if self.coef.len() != x.ncols() {
            return refuse(self.updates, n, self.n_seen, IssueCode::FeatureSpaceChangedOnline);
        }
        let mut issues: Vec<Issue> = Vec::new();
        inspect_online_xy(&mut issues, x, Some(t));
        assert(issues@ =~= shape_issues(x, Some(t@)));
        raise(&mut issues, self.learning_rate.gt(one()), IssueCode::LearningRateTooLarge);
        let before: Vec<Double> = if self.initialized {
            copy(&self.coef)
        } else {
            zeros(x.ncols())
        };
        let loss_before: Double = logloss_of(x, t, &before, self.intercept, exp, ln);
        let mut coef: Vec<Double> = copy(&before);
        let mut intercept: Double = self.intercept;
        let mut i: usize = 0;
        while i < n
            invariant
                i <= n,
                n == x.height(),
                x.wf(),
                n <= t@.len(),
                coef@.len() == x.width,
                is_function(*exp),
                self.after(x@, t@, curve(*exp), i as nat) == (Weights { coef: coef@, intercept }),
            decreases n - i,
        {
            assert(x@.rows[i as int] == x.rows@[i as int]@);
            let (next, shift) = self.step(&coef, intercept, &x.rows[i], t[i], exp);
            coef = next;
            intercept = shift;
            i = i + 1;
        }
        let loss_after: Double = logloss_of(x, t, &coef, intercept, exp, ln);
        let delta = subtract(&coef, &before);
        self.coef = coef;
        self.intercept = intercept;
        self.n_seen = self.n_seen + n as u64;
        self.updates = self.updates + 1;
        self.initialized = true;
        pack_linear_explain(
            self.updates,
            n,
            self.n_seen,
            &delta,
            loss_before,
            loss_after,
            self.n_seen > x.ncols() as u64,
            self.n_seen < 5,
            issues,
        )
    }

    /// 1 where the probability is at least one half, else 0.
    pub open spec fn predictions(&self, x: Batch, exp: Curve) -> Seq<Double> {
        let k: nat = if x.width < self.coef@.len() {
            x.width as nat
        } else {
            self.coef@.len()
        };
        Seq::new(
            x.height(),
            |i: int|
                if logistic(linear_score(self.intercept, self.coef@, x.rows[i], k), exp).ge(half()) {
                    one()
                } else {
                    zero()
                },
        )
    }

    /// 1 where the probability is at least one half, else 0.
    pub fn predict<E: Fn(Double) -> Double>(&self, x: &Matrix, exp: &E) -> (out: Qualified<Vec<Double>>)
        requires
            x.wf(),
            is_function(*exp),
        ensures
            if !self.initialized {
                &&& out.value@ == zero_seq(x.height())
                &&& out.report@ == seq![issue(IssueCode::PartialFitBeforeInit)]
            } else {
                &&& out.value@ == self.predictions(x@, curve(*exp))
                &&& out.report@.len() == 0
            },
    {
        if !self.initialized {
            return unready(x.nrows());
        }
        let k: usize = if x.ncols() < self.coef.len() {
            x.ncols()
        } else {
            self.coef.len()
        };
        let ghost want = self.predictions(x@, curve(*exp));
        let mut value: Vec<Double> = Vec::new();
        let mut i: usize = 0;
        while i < x.nrows()
            invariant
                i <= x.height(),
                x.wf(),
                k <= self.coef@.len(),
                k <= x.width,
                k == x.width || k == self.coef@.len(),
                is_function(*exp),
                want == self.predictions(x@, curve(*exp)),
                value@ == want.take(i as int),
            decreases x.height() - i,
        {
            assert(x@.rows[i as int] == x.rows@[i as int]@);
            let s: Double = score_row(self.intercept, &self.coef, &x.rows[i], k);
            value.push(
                if sigmoid(s, exp).ge(half()) {
                    one()
                } else {
                    zero()
                },
            );
            i = i + 1;
            assert(value@ =~= want.take(i as int));
        }
        assert(value@ =~= want);
        Qualified { value, report: Vec::new() }
    }
}

/// Large-margin classifier whose weights have unit length after each step.
#[derive(Clone, Debug)]
pub struct Alma {
    /// Margin parameter.
    pub alpha: Double,
    /// Aggressiveness.
    pub c: Double,
    /// Exponent of the decaying rate.
    pub p: Double,
    /// Weights.
    pub coef: Vec<Double>,
    /// Rows taken in.
    pub n_seen: u64,
    /// Batches taken in.
    pub updates: u64,
    /// Whether the column count is fixed.
    pub initialized: bool,
}

/// Weights of a large-margin classifier in the middle of a batch.
pub struct MarginTrail {
    /// Weights.
    pub coef: Seq<Double>,
    /// Rows taken in.
    pub n_seen: nat,
    /// Steps in the batch, as a number.
    pub hits: Double,
    /// Sum of the margin losses before each step.
    pub loss: Double,
}

/// A vector divided by its length.
pub open spec fn unit(v: Seq<Double>) -> Seq<Double> {
    Seq::new(v.len(), |j: int| v[j].over(norm_of(v).max(ten_to_minus_15())))
}

fn to_unit(v: &Vec<Double>) -> (r: Vec<Double>)
    ensures
        r@ == unit(v@),
{
    let length: Double = norm(v).max(ten_to_minus_15());
    let mut r: Vec<Double> = Vec::new();
    let mut j: usize = 0;
    while j < v.len()
        invariant
            j <= v@.len(),
            length == norm_of(v@).max(ten_to_minus_15()),
            r@ == unit(v@).take(j as int),
        decreases v@.len() - j,
    {
        r.push(v[j].over(length));
        j = j + 1;
        assert(r@ =~= unit(v@).take(j as int));
    }
    assert(r@ =~= unit(v@));
    r
}

impl Default for Alma {
    fn default() -> (r: Alma)
        ensures
            r.blank(),
    {
        Alma::new()
    }
}

impl Alma {
    /// The state before any row.
    pub open spec fn blank(&self) -> bool {
        &&& self.alpha == decimal_9()
        &&& self.c == one()
        &&& self.p == two()
        &&& self.coef@.len() == 0
        &&& self.n_seen == 0
        &&& self.updates == 0
        &&& !self.initialized
    }

    /// A classifier with the default settings.
    pub fn new() -> (r: Alma)
        ensures
            r.blank(),
    {
        Alma {
            alpha: decimal_9(),
            c: one(),
            p: two(),
            coef: Vec::new(),
            n_seen: 0,
            updates: 0,
            initialized: false,
        }
    }

    /// Current weights.
    pub fn coef(&self) -> (r: &Vec<Double>)
        ensures
            r@ == self.coef@,
    {
        &self.coef
    }

    /// The margin asked for after `n` rows.
    pub open spec fn bound(&self, n: nat, pow: Surface) -> Double {
        self.alpha.times(
            one().plus(self.c.times(pow(Double::from_u64(n as u64).plus(one()), neg_one().over(self.p)))),
        )
    }

    /// The weights after one more row: a step along the row, then back to unit
    /// length, where the margin is too small.
    pub open spec fn shown(&self, t: MarginTrail, row: Seq<Double>, y: Double, pow: Surface) -> MarginTrail {
        let label = as_pm(y);
        let margin = label.times(linear_score(zero(), t.coef, row, row.len()));
        let b = self.bound(t.n_seen, pow);
        let loss = t.loss.plus(b.minus(margin).max(zero()));
        if margin.le(one().minus(self.alpha).times(b.max(ten_to_minus_12()))) {
            let rate = self.c.over(Double::from_u64(t.n_seen as u64).plus(one()).sqrt());
            MarginTrail {
                coef: unit(moved_along(t.coef, row, rate.times(label))),
                n_seen: t.n_seen + 1,
                hits: t.hits.plus(one()),
                loss,
            }
        } else {
            MarginTrail { n_seen: t.n_seen + 1, loss, ..t }
        }
    }

    /// The weights that a batch starts from.
    pub open spec fn start(&self, width: usize) -> MarginTrail {
        MarginTrail {
            coef: if self.initialized {
                self.coef@
            } else {
                zero_seq(width as nat)
            },
            n_seen: self.n_seen as nat,
            hits: zero(),
            loss: zero(),
        }
    }

    /// The weights after the first `k` rows.
    pub open spec fn after(&self, x: Batch, y: Seq<Double>, pow: Surface, k: nat) -> MarginTrail
        decreases k,
    {
        if k == 0 {
            self.start(x.width)
        } else {
            self.shown(self.after(x, y, pow, (k - 1) as nat), x.rows[k - 1], y[k - 1], pow)
        }
    }

    /// Why a batch is turned away.
    pub open spec fn refusal(&self, x: Batch, y: Option<Seq<Double>>) -> Option<IssueCode> {
        if y is None {
            Some(IssueCode::MissingTarget)
        } else if self.initialized && self.coef@.len() != x.width {
            Some(IssueCode::FeatureSpaceChangedOnline)
        } else {
            None
        }
    }

    /// What a batch that fits does.
    pub open spec fn learns(&self, after: &Alma, x: &Matrix, y: Seq<Double>, pow: Surface, r: &Update) -> bool {
        let t = self.after(x@, y, pow, x.height());
        let delta = difference(t.coef, self.start(x.width).coef);
        &&& after.alpha == self.alpha
        &&& after.c == self.c
        &&& after.p == self.p
        &&& after.coef@ == t.coef
        &&& after.n_seen == self.n_seen + x.height()
        &&& after.updates == self.updates + 1
        &&& after.initialized
        &&& reports(
            r,
            IncrementalQuality {
                effective_sample_size: Double::from_u64(after.n_seen),
                parameter_delta_norm: Some(norm_of(delta)),
                information_gain: Some(t.hits),
                loss_before: Some(t.loss),
                still_identified: after.n_seen > x.width,
                warmup: after.n_seen < 5,
                ..IncrementalQuality::new(self.updates, x.height() as usize, after.n_seen)
            },
            given(t.hits.same(zero()), IssueCode::UpdateWithZeroInformation),
            false,
        )
    }

    /// Takes in a batch, unless it has no target or its column count does not fit.
    /// `pow` raises its first argument to its second.
    pub fn partial_fit<P: Fn(Double, Double) -> Double>(&mut self, x: &Matrix, y: Option<&Vec<Double>>, pow: &P) -> (r: Update)
        requires
            x.wf(),
            old(self).n_seen + x.height() <= u64::MAX,
            old(self).updates < u64::MAX,
            old(self).refusal(x@, target(y)) is None ==> x.height() <= y->0@.len(),
            is_function_of_two(*pow),
        ensures
            match old(self).refusal(x@, target(y)) {
                Some(code) => {
                    &&& *final(self) == *old(self)
                    &&& reports(
                        &r,
                        IncrementalQuality::new(old(self).updates, x.height() as usize, old(self).n_seen),
                        seq![issue(code)],
                        false,
                    )
                },
                None => old(self).learns(final(self), x, y->0@, surface(*pow), &r),
            },
    {
        let n: usize = x.nrows();
        let mut issues: Vec<Issue> = Vec::new();
        let t: &Vec<Double> = match y {
            None => {
                issues.push(issue(IssueCode::MissingTarget));
                assert(issues@ =~= seq![issue(IssueCode::MissingTarget)]);
                return rejection(self.updates, n, self.n_seen, issues);
            },
            Some(t) => t,
        };
        if self.initialized && self.coef.len() != x.ncols() {
            issues.push(issue(IssueCode::FeatureSpaceChangedOnline));
            assert(issues@ =~= seq![issue(IssueCode::FeatureSpaceChangedOnline)]);
            return rejection(self.updates, n, self.n_seen, issues);
        }
        let before: Vec<Double> = if self.initialized {
            copy(&self.coef)
        } else {
            zeros(x.ncols())
        };
        let mut coef: Vec<Double> = copy(&before);
        let mut hits: Double = zero();
        let mut loss: Double = zero();
        let mut i: usize = 0;
        while i < n
            invariant
                i <= n,
                n == x.height(),
                x.wf(),
                n <= t@.len(),
                coef@.len() == x.width,
                self.n_seen + n <= u64::MAX,
                is_function_of_two(*pow),
                self.after(x@, t@, surface(*pow), i as nat) == (MarginTrail {
                    coef: coef@,
                    n_seen: (self.n_seen + i) as nat,
                    hits,
                    loss,
                }),
            decreases n - i,
        {
            let row: &Vec<Double> = &x.rows[i];
            assert(x@.rows[i as int] == row@);
            let count: Double = Double::from_u64(self.n_seen + i as u64).plus(one());
            let label: Double = as_pm(t[i]);
            let margin: Double = label.times(score_row(zero(), &coef, row, x.ncols()));
            let b: Double = self.alpha.times(one().plus(self.c.times(apply_two(pow, count, neg_one().over(self.p)))));
            loss = loss.plus(b.minus(margin).max(zero()));
            if margin.le(one().minus(self.alpha).times(b.max(ten_to_minus_12()))) {
                hits = hits.plus(one());
                let rate: Double = self.c.over(count.sqrt());
                let moved = move_along(&coef, row, rate.times(label));
                coef = to_unit(&moved);
            }
            i = i + 1;
        }
        let delta = subtract(&coef, &before);
        self.coef = coef;
        self.n_seen = self.n_seen + n as u64;
        self.updates = self.updates + 1;
        self.initialized = true;
        raise(&mut issues, hits.same(zero()), IssueCode::UpdateWithZeroInformation);
        assert(issues@ =~= given(hits.same(zero()), IssueCode::UpdateWithZeroInformation));
        let quality = IncrementalQuality {
            effective_sample_size: Double::from_u64(self.n_seen),
            parameter_delta_norm: Some(norm(&delta)),
            information_gain: Some(hits),
            loss_before: Some(loss),
            still_identified: self.n_seen > x.ncols() as u64,
            warmup: self.n_seen < 5,
            ..IncrementalQuality::new(self.updates - 1, n, self.n_seen)
        };
        plain_report(quality, issues)
    }
}

impl Alma {
    /// 1 where the score is not negative, else 0.
    pub fn predict(&self, x: &Matrix) -> (out: Qualified<Vec<Double>>)
        requires
            x.wf(),
        ensures
            sign_predicted(&out, self.initialized, self.coef@, zero(), x),
    {
        predict_signs(self.initialized, &self.coef, zero(), x)
    }
}

} // verus!
