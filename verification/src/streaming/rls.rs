//! Recursive least squares that keeps going past rows it cannot use.

use crate::constants::{ten_to_minus_12, ten_to_minus_15, ten_to_minus_18, thousand};
use crate::data::{Batch, 
    copy, difference, dot, dot_of, max_abs, max_abs_of, norm, norm_of, subtract, zero_seq, zeros,
    Matrix,
};
use crate::double::{one, zero, Double};
use crate::functions::{apply_two, is_function_of_two, surface};
use crate::online::common::{inspect_online_xy, shape_issues, target};
use crate::online::linear_regression::{
    design_of, design_row, diagonal, dimension, downdated, lists_top, product, scaled_identity,
    top_moved, ParameterUpdate,
};
use crate::quality::{given, issue, raise, IncrementalQuality, Issue, IssueCode, Policy, Qualified, Update};
use crate::streaming::columns::{rejection, reports};
use crate::streaming::learner::Learner;
use crate::streaming::linear::unready;
use vstd::prelude::*;

verus! {

/// Recursive least squares with exponential forgetting.
///
/// The effective sample size is the sum `(1 - l^n) / (1 - l)` of the weights of
/// `n` rows under the forgetting factor `l`, which is `n` where `l` is one.
#[derive(Clone, Debug)]
pub struct LinearRegression {
    /// Forgetting factor, above zero and at most one.
    pub forgetting_factor: Double,
    /// Whether the design starts with a column of ones.
    pub fit_intercept: bool,
    /// Diagonal of the initial inverse Gram matrix.
    pub p0: Double,
    /// Coefficients, the intercept first.
    pub theta: Vec<Double>,
    /// Inverse Gram matrix.
    pub p_mat: Option<Matrix>,
    /// Rows taken in.
    pub n_seen: u64,
    /// Batches taken in.
    pub updates: u64,
    /// Whether the column count is fixed.
    pub initialized: bool,
}

/// The state of the recursion.
pub struct RlsState {
    /// Forgetting factor.
    pub forgetting_factor: Double,
    /// Whether the design starts with a column of ones.
    pub fit_intercept: bool,
    /// Diagonal of the initial inverse Gram matrix.
    pub p0: Double,
    /// Coefficients.
    pub theta: Seq<Double>,
    /// Rows of the inverse Gram matrix.
    pub gram: Option<Seq<Seq<Double>>>,
    /// Rows taken in.
    pub n_seen: nat,
    /// Batches taken in.
    pub updates: nat,
    /// Whether the column count is fixed.
    pub initialized: bool,
}

/// What the recursion carries from row to row.
pub struct RlsTrail {
    /// Coefficients.
    pub theta: Seq<Double>,
    /// Rows of the inverse Gram matrix.
    pub gram: Seq<Seq<Double>>,
    /// Sum of squared residuals before each step.
    pub info: Double,
    /// Rows left out because the gain could not be computed.
    pub faults: nat,
}

/// The inverse Gram matrix after a step.
pub open spec fn downdated_gram(p: Seq<Seq<Double>>, pz: Seq<Double>, denominator: Double, lambda: Double) -> Seq<Seq<Double>> {
    Seq::new(pz.len(), |r: int| Seq::new(pz.len(), |c: int| downdated(p, pz, denominator, lambda, r, c)))
}

impl RlsTrail {
    /// The denominator of the gain for a design row.
    pub open spec fn denominator(self, z: Seq<Double>, lambda: Double) -> Double {
        lambda.plus(dot_of(z, product(self.gram, z), z.len()))
    }

    /// The recursion after one more row. A row is left out where the denominator
    /// is not finite or vanishes.
    pub open spec fn shown(self, z: Seq<Double>, y: Double, lambda: Double) -> RlsTrail {
        let denominator = self.denominator(z, lambda);
        if !denominator.is_finite() || denominator.abs().lt(ten_to_minus_18()) {
            RlsTrail { faults: self.faults + 1, ..self }
        } else {
            let pz = product(self.gram, z);
            let residual = y.minus(dot_of(z, self.theta, z.len()));
            RlsTrail {
                theta: Seq::new(
                    self.theta.len(),
                    |j: int| self.theta[j].plus(pz[j].over(denominator).times(residual)),
                ),
                gram: downdated_gram(self.gram, pz, denominator, lambda),
                info: self.info.plus(residual.times(residual)),
                ..self
            }
        }
    }

    /// The recursion after the first `k` rows.
    pub open spec fn after(self, x: Batch, y: Seq<Double>, fit_intercept: bool, lambda: Double, k: nat) -> RlsTrail
        decreases k,
    {
        if k == 0 {
            self
        } else {
            self.after(x, y, fit_intercept, lambda, (k - 1) as nat).shown(
                design_of(x.rows[k - 1], fit_intercept),
                y[k - 1],
                lambda,
            )
        }
    }
}

/// At most one row is left out per row, and the number of coefficients stays.
pub proof fn law_rls_faults(start: RlsTrail, x: Batch, y: Seq<Double>, fit_intercept: bool, lambda: Double, k: nat)
    ensures
        start.faults <= start.after(x, y, fit_intercept, lambda, k).faults <= start.faults + k,
        start.after(x, y, fit_intercept, lambda, k).theta.len() == start.theta.len(),
    decreases k,
{
    if k > 0 {
        law_rls_faults(start, x, y, fit_intercept, lambda, (k - 1) as nat);
    }
}

/// A row whose gain cannot be computed moves neither the coefficients nor the
/// inverse Gram matrix.
pub proof fn law_rls_left_out_row(start: RlsTrail, z: Seq<Double>, y: Double, lambda: Double)
    requires
        !start.denominator(z, lambda).is_finite() || start.denominator(z, lambda).abs().lt(ten_to_minus_18()),
    ensures
        start.shown(z, y, lambda).theta == start.theta,
        start.shown(z, y, lambda).gram == start.gram,
        start.shown(z, y, lambda).faults == start.faults + 1,
{
}

/// Sum of squared errors over the first `k` rows.
pub open spec fn fitted_error(theta: Seq<Double>, x: Batch, y: Seq<Double>, fit_intercept: bool, k: nat) -> Double
    decreases k,
{
    if k == 0 {
        zero()
    } else {
        let z = design_of(x.rows[k - 1], fit_intercept);
        let e = dot_of(z, theta, z.len()).minus(y[k - 1]);
        fitted_error(theta, x, y, fit_intercept, (k - 1) as nat).plus(e.times(e))
    }
}

/// Mean of the squared errors over all rows.
pub open spec fn rls_error(theta: Seq<Double>, x: Batch, y: Seq<Double>, fit_intercept: bool) -> Double {
    fitted_error(theta, x, y, fit_intercept, x.height()).over(Double::from_usize(x.height() as usize))
}

fn rls_mse(theta: &Vec<Double>, x: &Matrix, y: &Vec<Double>, fit_intercept: bool) -> (r: Double)
    requires
        x.wf(),
        x.height() <= y@.len(),
        theta@.len() == dimension(x.width as nat, fit_intercept),
    ensures
        r == rls_error(theta@, x@, y@, fit_intercept),
{
    let mut s: Double = zero();
    let mut i: usize = 0;
    while i < x.nrows()
        invariant
            i <= x.height(),
            x.wf(),
            x.height() <= y@.len(),
            theta@.len() == dimension(x.width as nat, fit_intercept),
            s == fitted_error(theta@, x@, y@, fit_intercept, i as nat),
        decreases x.height() - i,
    {
        let z = design_row(x, i, fit_intercept);
        let e: Double = dot(&z, theta).minus(y[i]);
        s = s.plus(e.times(e));
        i = i + 1;
    }
    s.over(Double::from_usize(x.nrows()))
}

impl RlsState {
    /// The state before any row.
    pub open spec fn blank(forgetting_factor: Double) -> RlsState {
        RlsState {
            forgetting_factor,
            fit_intercept: true,
            p0: thousand(),
            theta: Seq::empty(),
            gram: None,
            n_seen: 0,
            updates: 0,
            initialized: false,
        }
    }

    /// Parameters for `width` columns.
    pub open spec fn dim(self, width: usize) -> nat {
        dimension(width as nat, self.fit_intercept)
    }

    /// What the recursion starts a batch from.
    pub open spec fn trail(self, width: usize) -> RlsTrail {
        if self.initialized {
            RlsTrail { theta: self.theta, gram: self.gram->0, info: zero(), faults: 0 }
        } else {
            RlsTrail {
                theta: zero_seq(self.dim(width)),
                gram: scaled_identity(self.dim(width), self.p0),
                info: zero(),
                faults: 0,
            }
        }
    }

    /// The forgetting factor that the recursion uses.
    pub open spec fn lambda(self) -> Double {
        self.forgetting_factor.clamp(ten_to_minus_12(), one())
    }

    /// What the recursion carries at the end of a batch.
    pub open spec fn end(self, x: Batch, y: Seq<Double>) -> RlsTrail {
        self.trail(x.width).after(x, y, self.fit_intercept, self.lambda(), x.height())
    }

    /// Whether the columns of a batch fit.
    pub open spec fn fits(self, width: usize) -> bool {
        !self.initialized || self.dim(width) == self.theta.len()
    }

    /// The state after a batch. An empty batch, or one that does not fit, changes
    /// nothing.
    pub open spec fn taught(self, x: Batch, y: Seq<Double>) -> RlsState {
        if x.height() == 0 || x.width == 0 || !self.fits(x.width) {
            self
        } else {
            RlsState {
                theta: self.end(x, y).theta,
                gram: Some(self.end(x, y).gram),
                n_seen: self.n_seen + x.height(),
                updates: self.updates + 1,
                initialized: true,
                ..self
            }
        }
    }

    /// Slope coefficients, without the intercept.
    pub open spec fn slopes(self) -> Seq<Double> {
        if self.fit_intercept && self.theta.len() > 0 {
            self.theta.skip(1)
        } else {
            self.theta
        }
    }

    /// The intercept, or zero if the design has none.
    pub open spec fn offset(self) -> Double {
        if self.fit_intercept && self.theta.len() > 0 {
            self.theta[0]
        } else {
            zero()
        }
    }

    /// Counters that leave room for a batch.
    pub open spec fn room(self, rows: nat) -> bool {
        &&& self.n_seen + rows <= u64::MAX
        &&& self.updates < u64::MAX
    }

    /// One prediction per row.
    pub open spec fn foreseen(self, x: Batch) -> Seq<Double> {
        Seq::new(
            x.height(),
            |i: int|
                if self.initialized {
                    dot_of(design_of(x.rows[i], self.fit_intercept), self.theta, self.theta.len())
                } else {
                    zero()
                },
        )
    }

    /// The effective sample size, given the forgetting factor raised to the number
    /// of rows.
    pub open spec fn effective(self, power: Double) -> Double {
        if one().minus(self.forgetting_factor).abs().lt(ten_to_minus_15()) {
            Double::from_u64(self.n_seen as u64)
        } else {
            one().minus(power).over(one().minus(self.forgetting_factor))
        }
    }

    /// Quality figures after a batch.
    pub open spec fn figures(self, before: RlsState, x: &Matrix, y: Seq<Double>, power: Double) -> IncrementalQuality {
        let first = before.trail(x.width).theta;
        let end = before.end(x@, y);
        let delta = difference(end.theta, first);
        let loss_before = rls_error(first, x@, y, self.fit_intercept);
        let loss_after = rls_error(end.theta, x@, y, self.fit_intercept);
        let d = Double::from_usize(self.theta.len() as usize);
        IncrementalQuality {
            effective_sample_size: self.effective(power),
            forgetting_factor: Some(self.forgetting_factor),
            parameter_delta_norm: Some(norm_of(delta)),
            parameter_delta_max: Some(max_abs_of(delta, delta.len())),
            loss_before: Some(loss_before),
            loss_after: Some(loss_after),
            information_gain: Some(
                loss_before.minus(loss_after).abs().max(end.info.over(Double::from_usize(x.height() as usize))),
            ),
            still_identified: self.effective(power).gt(d) && self.n_seen > self.theta.len(),
            warmup: self.n_seen < 5 || self.n_seen <= self.theta.len(),
            ..IncrementalQuality::new(before.updates as u64, x.height() as usize, self.n_seen as u64)
        }
    }

    /// Issues about the settings and the batch.
    pub open spec fn early_issues(self, x: &Matrix, y: Seq<Double>) -> Seq<Issue> {
        shape_issues(x, Some(y)) + given(
            !(self.forgetting_factor.gt(zero()) && self.forgetting_factor.le(one())),
            IssueCode::InvalidWeight,
        )
    }

    /// Issues about the state after a batch.
    pub open spec fn late_issues(self, power: Double, policy: Policy) -> Seq<Issue> {
        given(
            self.effective(power).lt(policy.min_effective_sample) || self.effective(power).le(
                Double::from_usize(self.theta.len() as usize),
            ),
            IssueCode::ForgettingErasedIdentification,
        ) + given(self.n_seen < 5 || self.n_seen <= self.theta.len(), IssueCode::WarmupIncomplete)
    }
}

/// `n` times the same issue.
pub open spec fn repeated(n: nat, code: IssueCode) -> Seq<Issue> {
    Seq::new(n, |i: int| issue(code))
}

/// Appends the same issue `n` times.
pub fn repeat(issues: &mut Vec<Issue>, n: u64, code: IssueCode)
    ensures
        final(issues)@ == old(issues)@ + repeated(n as nat, code),
{
    let ghost start = issues@;
    assert(start =~= start + repeated(0, code));
    let mut k: u64 = 0;
    while k < n
        invariant
            k <= n,
            issues@ == start + repeated(k as nat, code),
        decreases n - k,
    {
        issues.push(issue(code));
        k = k + 1;
        assert(issues@ =~= start + repeated(k as nat, code));
    }
}

/// What an update of the recursion reports.
pub open spec fn rls_reports(
    r: &ParameterUpdate,
    before: RlsState,
    after: RlsState,
    x: &Matrix,
    y: Seq<Double>,
    power: Double,
    policy: Policy,
) -> bool {
    let q = after.figures(before, x, y, power);
    let delta = difference(before.end(x@, y).theta, before.trail(x.width).theta);
    &&& r.update.quality == q
    &&& r.update.issues@ == before.early_issues(x, y) + repeated(before.end(x@, y).faults, IssueCode::NearSingular)
    &&& r.update.screened
    &&& r.update.idle == (q.loss_before->0.minus(q.loss_after->0).abs().le(policy.uninformative_info_eps) && norm_of(
        delta,
    ).le(policy.uninformative_info_eps))
    &&& r.update.trailing@ == after.late_issues(power, policy)
    &&& lists_top(r.top_moved@, delta, 3)
}

/// What a refused batch reports.
pub open spec fn rls_refused(r: &ParameterUpdate, before: RlsState, x: &Matrix, issues: Seq<Issue>) -> bool {
    &&& reports(
        &r.update,
        IncrementalQuality::new(before.updates as u64, x.height() as usize, before.n_seen as u64),
        issues,
        false,
    )
    &&& r.top_moved@.len() == 0
}

/// What a batch of the recursion does.
pub open spec fn rls_answers(
    before: RlsState,
    after: RlsState,
    x: &Matrix,
    y: Option<Seq<Double>>,
    power: Double,
    policy: Policy,
    r: &ParameterUpdate,
) -> bool {
    if y is None {
        &&& after == before
        &&& rls_refused(r, before, x, seq![issue(IssueCode::MissingTarget)])
    } else if x.height() == 0 || x.width == 0 {
        &&& after == before
        &&& rls_refused(r, before, x, given(!before.initialized, IssueCode::PartialFitBeforeInit))
    } else if !before.fits(x.width) {
        &&& after == before
        &&& rls_refused(
            r,
            before,
            x,
            before.early_issues(x, y->0).push(issue(IssueCode::FeatureSpaceChangedOnline)),
        )
    } else {
        &&& after == before.taught(x@, y->0)
        &&& rls_reports(r, before, after, x, y->0, power, policy)
    }
}

/// What a batch did to the coefficients.
#[derive(Clone, Debug)]
pub struct Passage {
    /// Coefficients before the batch.
    pub first: Vec<Double>,
    /// Mean squared error before the batch.
    pub loss_before: Double,
    /// Mean squared error after the batch.
    pub loss_after: Double,
    /// Sum of squared residuals before each step.
    pub info: Double,
    /// Rows left out.
    pub faults: usize,
}

impl View for LinearRegression {
    type V = RlsState;

    open spec fn view(&self) -> RlsState {
        RlsState {
            forgetting_factor: self.forgetting_factor,
            fit_intercept: self.fit_intercept,
            p0: self.p0,
            theta: self.theta@,
            gram: match self.p_mat {
                Some(p) => Some(p.grid()),
                None => None,
            },
            n_seen: self.n_seen as nat,
            updates: self.updates as nat,
            initialized: self.initialized,
        }
    }
}

impl Default for LinearRegression {
    fn default() -> (r: LinearRegression)
        ensures
            r@ == RlsState::blank(one()),
            r.wf(),
    {
        LinearRegression::new(one())
    }
}

impl LinearRegression {
    /// The inverse Gram matrix is there once the model is initialised, with one
    /// row and one column per coefficient.
    pub open spec fn wf(&self) -> bool {
        &&& self.p_mat is Some <==> self.initialized
        &&& self.p_mat matches Some(p) ==> {
            &&& p.wf()
            &&& p.height() == self.theta@.len()
            &&& p.width == self.theta@.len()
        }
    }

    /// A model with the given forgetting factor.
    pub fn new(forgetting_factor: Double) -> (r: LinearRegression)
        ensures
            r@ == RlsState::blank(forgetting_factor),
            r.wf(),
    {
        let r = LinearRegression {
            forgetting_factor,
            fit_intercept: true,
            p0: thousand(),
            theta: Vec::new(),
            p_mat: None,
            n_seen: 0,
            updates: 0,
            initialized: false,
        };
        assert(r.theta@ =~= Seq::empty());
        r
    }

    /// Slope coefficients, without the intercept.
    pub fn coef(&self) -> (r: Vec<Double>)
        ensures
            r@ == self@.slopes(),
    {
        if self.fit_intercept && self.theta.len() > 0 {
            let mut r: Vec<Double> = Vec::new();
            let mut i: usize = 1;
            while i < self.theta.len()
                invariant
                    1 <= i <= self.theta@.len(),
                    r@ == self.theta@.subrange(1, i as int),
                decreases self.theta@.len() - i,
            {
                r.push(self.theta[i]);
                i = i + 1;
                assert(r@ =~= self.theta@.subrange(1, i as int));
            }
            assert(r@ =~= self.theta@.skip(1));
            r
        } else {
            copy(&self.theta)
        }
    }

    /// The intercept, or zero if the design has none.
    pub fn intercept(&self) -> (r: Double)
        ensures
            r == self@.offset(),
    {
        if self.fit_intercept && self.theta.len() > 0 {
            self.theta[0]
        } else {
            zero()
        }
    }

    /// The inverse Gram matrix.
    pub fn p_matrix(&self) -> (r: Option<&Matrix>)
        ensures
            match (r, self.p_mat) {
                (Some(p), Some(q)) => *p == q,
                (None, None) => true,
                _ => false,
            },
    {
        self.p_mat.as_ref()
    }

    fn dim(&self, p_x: usize) -> (d: usize)
        requires
            p_x < usize::MAX,
        ensures
            d == self@.dim(p_x),
    {
        if self.fit_intercept {
            p_x + 1
        } else {
            p_x
        }
    }

    fn init(&mut self, p_x: usize)
        requires
            p_x < usize::MAX,
            !old(self).initialized,
        ensures
            final(self).wf(),
            final(self)@ == (RlsState {
                theta: zero_seq(old(self)@.dim(p_x)),
                gram: Some(scaled_identity(old(self)@.dim(p_x), old(self).p0)),
                initialized: true,
                ..old(self)@
            }),
    {
        let p: usize = self.dim(p_x);
        self.theta = zeros(p);
        self.p_mat = Some(diagonal(p, self.p0));
        self.initialized = true;
    }

    fn n_eff(&self, power: Double) -> (r: Double)
        ensures
            r == self@.effective(power),
    {
        let lam: Double = self.forgetting_factor;
        if one().minus(lam).abs().lt(ten_to_minus_15()) {
            Double::from_u64(self.n_seen)
        } else {
            one().minus(power).over(one().minus(lam))
        }
    }

    /// One step of the recursion. The answer is the residual, or none if the row
    /// was left out.
    fn show(&mut self, z: &Vec<Double>, y: Double, lam: Double, Ghost(info): Ghost<Double>, Ghost(faults): Ghost<nat>) -> (r: Option<Double>)
        requires
            old(self).wf(),
            old(self).initialized,
            z@.len() == old(self).theta@.len(),
        ensures
            final(self).wf(),
            ({
                let before = RlsTrail { theta: old(self).theta@, gram: old(self)@.gram->0, info, faults };
                let after = before.shown(z@, y, lam);
                &&& final(self)@ == (RlsState { theta: after.theta, gram: Some(after.gram), ..old(self)@ })
                &&& match r {
                    Some(e) => after.info == info.plus(e.times(e)) && after.faults == faults,
                    None => after.info == info && after.faults == faults + 1,
                }
            }),
    {
        let ghost before = RlsTrail { theta: self.theta@, gram: self@.gram->0, info, faults };
        let d: usize = z.len();
        let mut pz: Vec<Double> = Vec::new();
        let denominator: Double;
        if let Some(p) = &self.p_mat {
            let mut k: usize = 0;
            while k < d
                invariant
                    k <= d,
                    d == z@.len(),
                    p.wf(),
                    p.height() == d,
                    p.width == d,
                    p.grid() == before.gram,
                    pz@ == product(before.gram, z@).take(k as int),
                decreases d - k,
            {
                assert(p.rows@[k as int]@ == before.gram[k as int]);
                let s: Double = dot(&p.rows[k], z);
                pz.push(s);
                k = k + 1;
                assert(pz@ =~= product(before.gram, z@).take(k as int));
            }
            assert(pz@ =~= product(before.gram, z@));
            denominator = lam.plus(dot(z, &pz));
        } else {
            return None;
        }
        if !denominator.is_finite() || denominator.abs().lt(ten_to_minus_18()) {
            assert(self@.gram == Some(before.gram));
            return None;
        }
        let ghost after = before.shown(z@, y, lam);
        let residual: Double = y.minus(dot(z, &self.theta));
        let mut theta: Vec<Double> = Vec::new();
        let mut j: usize = 0;
        while j < d
            invariant
                j <= d,
                d == z@.len(),
                d == self.theta@.len(),
                before.theta == self.theta@,
                pz@ == product(before.gram, z@),
                denominator == before.denominator(z@, lam),
                denominator.is_finite() && !denominator.abs().lt(ten_to_minus_18()),
                residual == y.minus(dot_of(z@, before.theta, z@.len())),
                after == before.shown(z@, y, lam),
                theta@ == after.theta.take(j as int),
            decreases d - j,
        {
            theta.push(self.theta[j].plus(pz[j].over(denominator).times(residual)));
            j = j + 1;
            assert(theta@ =~= after.theta.take(j as int));
        }
        assert(theta@ =~= after.theta);
        let next: Option<Matrix> = match &self.p_mat {
            Some(p) => Some(downdate(p, &pz, denominator, lam)),
            None => None,
        };
        self.p_mat = next;
        self.theta = theta;
        Some(residual)
    }

    /// Takes in a batch that fits.
    pub fn absorb(&mut self, x: &Matrix, y: &Vec<Double>) -> (r: Passage)
        requires
            x.wf(),
            x.height() > 0,
            x.height() <= y@.len(),
            0 < x.width < usize::MAX,
            old(self).wf(),
            old(self)@.fits(x.width),
            old(self)@.room(x.height()),
        ensures
            final(self).wf(),
            final(self)@ == old(self)@.taught(x@, y@),
            r.first@ == old(self)@.trail(x.width).theta,
            r.loss_before == rls_error(r.first@, x@, y@, old(self).fit_intercept),
            r.loss_after == rls_error(final(self).theta@, x@, y@, old(self).fit_intercept),
            r.info == old(self)@.end(x@, y@).info,
            r.faults == old(self)@.end(x@, y@).faults,
    {
        let ghost start = self@;
        let ghost trail = self@.trail(x.width);
        if !self.initialized {
            self.init(x.ncols());
        }
        let first: Vec<Double> = copy(&self.theta);
        let loss_before: Double = rls_mse(&self.theta, x, y, self.fit_intercept);
        let lam: Double = self.forgetting_factor.clamp(ten_to_minus_12(), one());
        let mut info: Double = zero();
        let mut faults: usize = 0;
        let mut i: usize = 0;
        while i < x.nrows()
            invariant
                i <= x.height(),
                faults <= i,
                x.wf(),
                x.height() <= y@.len(),
                trail == start.trail(x.width),
                lam == start.lambda(),
                self.wf(),
                self.initialized,
                self.theta@.len() == start.dim(x.width),
                self@ == (RlsState { theta: self.theta@, gram: self@.gram, initialized: true, ..start }),
                ({
                    let t = trail.after(x@, y@, start.fit_intercept, lam, i as nat);
                    &&& t.theta == self.theta@
                    &&& Some(t.gram) == self@.gram
                    &&& t.info == info
                    &&& t.faults == faults
                }),
            decreases x.height() - i,
        {
            let z = design_row(x, i, self.fit_intercept);
            let ghost t = trail.after(x@, y@, start.fit_intercept, lam, i as nat);
            let e: Option<Double> = self.show(&z, y[i], lam, Ghost(info), Ghost(faults as nat));
            assert(t == (RlsTrail { theta: t.theta, gram: t.gram, info, faults: faults as nat }));
            match e {
                Some(e) => {
                    info = info.plus(e.times(e));
                },
                None => {
                    faults = faults + 1;
                },
            }
            i = i + 1;
            proof {
                law_rls_faults(trail, x@, y@, start.fit_intercept, lam, i as nat);
            }
        }
        self.n_seen = self.n_seen + x.nrows() as u64;
        self.updates = self.updates + 1;
        let loss_after: Double = rls_mse(&self.theta, x, y, self.fit_intercept);
        Passage { first, loss_before, loss_after, info, faults }
    }

    fn describe(&self, p: &Passage, delta: &Vec<Double>, batch: usize, power: Double) -> (q: IncrementalQuality)
        requires
            self.updates > 0,
            batch > 0,
        ensures
            q == (IncrementalQuality {
                effective_sample_size: self@.effective(power),
                forgetting_factor: Some(self.forgetting_factor),
                parameter_delta_norm: Some(norm_of(delta@)),
                parameter_delta_max: Some(max_abs_of(delta@, delta@.len())),
                loss_before: Some(p.loss_before),
                loss_after: Some(p.loss_after),
                information_gain: Some(
                    p.loss_before.minus(p.loss_after).abs().max(p.info.over(Double::from_usize(batch))),
                ),
                still_identified: self@.effective(power).gt(Double::from_usize(self.theta@.len() as usize))
                    && self.n_seen > self.theta@.len(),
                warmup: self.n_seen < 5 || self.n_seen <= self.theta@.len(),
                ..IncrementalQuality::new((self.updates - 1) as u64, batch, self.n_seen)
            }),
    {
        let n_eff: Double = self.n_eff(power);
        let d: usize = self.theta.len();
        IncrementalQuality {
            effective_sample_size: n_eff,
            forgetting_factor: Some(self.forgetting_factor),
            parameter_delta_norm: Some(norm(delta)),
            parameter_delta_max: Some(max_abs(delta)),
            loss_before: Some(p.loss_before),
            loss_after: Some(p.loss_after),
            information_gain: Some(p.loss_before.minus(p.loss_after).abs().max(p.info.over(Double::from_usize(batch)))),
            still_identified: n_eff.gt(Double::from_usize(d)) && self.n_seen > d as u64,
            warmup: self.n_seen < 5 || self.n_seen <= d as u64,
            ..IncrementalQuality::new(self.updates - 1, batch, self.n_seen)
        }
    }

    fn examine(&self, x: &Matrix, y: &Vec<Double>) -> (issues: Vec<Issue>)
        requires
            x.wf(),
        ensures
            issues@ == self@.early_issues(x, y@),
    {
        let mut issues: Vec<Issue> = Vec::new();
        inspect_online_xy(&mut issues, x, Some(y));
        assert(issues@ =~= shape_issues(x, Some(y@)));
        raise(
            &mut issues,
            !(self.forgetting_factor.gt(zero()) && self.forgetting_factor.le(one())),
            IssueCode::InvalidWeight,
        );
        issues
    }

    /// Takes in a batch, unless it has no target, is empty or its column count does
    /// not fit. `pow` raises its first argument to its second.
    pub fn partial_fit<P: Fn(Double, Double) -> Double>(
        &mut self,
        x: &Matrix,
        y: Option<&Vec<Double>>,
        pow: &P,
        policy: &Policy,
    ) -> (r: ParameterUpdate)
        requires
            is_function_of_two(*pow),
            x.wf(),
            x.width < usize::MAX,
            old(self).wf(),
            old(self)@.room(x.height()),
            y matches Some(t) ==> x.width > 0 && old(self)@.fits(x.width) ==> x.height() <= t@.len(),
        ensures
            final(self).wf(),
            rls_answers(
                old(self)@,
                final(self)@,
                x,
                target(y),
                surface(*pow)(old(self).forgetting_factor, Double::from_u64((old(self).n_seen + x.height()) as u64)),
                *policy,
                &r,
            ),
    {
        let n: usize = x.nrows();
        let t: &Vec<Double> = match y {
            None => {
                let mut issues: Vec<Issue> = Vec::new();
                issues.push(issue(IssueCode::MissingTarget));
                assert(issues@ =~= seq![issue(IssueCode::MissingTarget)]);
                return ParameterUpdate { update: rejection(self.updates, n, self.n_seen, issues), top_moved: Vec::new() };
            },
            Some(t) => t,
        };
        if n == 0 || x.ncols() == 0 {
            let mut issues: Vec<Issue> = Vec::new();
            raise(&mut issues, !self.initialized, IssueCode::PartialFitBeforeInit);
            assert(issues@ =~= given(!self.initialized, IssueCode::PartialFitBeforeInit));
            return ParameterUpdate { update: rejection(self.updates, n, self.n_seen, issues), top_moved: Vec::new() };
        }
        let mut issues: Vec<Issue> = self.examine(x, t);
        if self.initialized && self.dim(x.ncols()) != self.theta.len() {
            issues.push(issue(IssueCode::FeatureSpaceChangedOnline));
            return ParameterUpdate { update: rejection(self.updates, n, self.n_seen, issues), top_moved: Vec::new() };
        }
        let ghost start = self@;
        let ghost early = issues@;
        let passage = self.absorb(x, t);
        proof {
            law_rls_faults(start.trail(x.width), x@, t@, start.fit_intercept, start.lambda(), x.height());
        }
        repeat(&mut issues, passage.faults as u64, IssueCode::NearSingular);
        assert(issues@ =~= early + repeated(passage.faults as nat, IssueCode::NearSingular));
        let delta = subtract(&self.theta, &passage.first);
        let power: Double = apply_two(pow, self.forgetting_factor, Double::from_u64(self.n_seen));
        let quality = self.describe(&passage, &delta, n, power);
        let n_eff: Double = self.n_eff(power);
        let idle: bool = passage.loss_before.minus(passage.loss_after).abs().le(policy.uninformative_info_eps) && norm(
            &delta,
        ).le(policy.uninformative_info_eps);
        let mut trailing: Vec<Issue> = Vec::new();
        raise(
            &mut trailing,
            n_eff.lt(policy.min_effective_sample) || n_eff.le(Double::from_usize(self.theta.len())),
            IssueCode::ForgettingErasedIdentification,
        );
        raise(&mut trailing, quality.warmup, IssueCode::WarmupIncomplete);
        assert(trailing@ =~= self@.late_issues(power, *policy));
        let top = top_moved(&delta, 3);
        ParameterUpdate { update: Update { quality, issues, screened: true, idle, trailing }, top_moved: top }
    }

    /// The fitted value of row `i`, or zero before the first batch.
    pub fn predict_row(&self, x: &Matrix, i: usize) -> (r: Double)
        requires
            x.wf(),
            i < x.height(),
            self.wf(),
            self@.fits(x.width),
        ensures
            r == self@.foreseen(x@)[i as int],
    {
        if !self.initialized {
            return zero();
        }
        let z = design_row(x, i, self.fit_intercept);
        dot(&z, &self.theta)
    }

    /// The fitted values, or zeros before the first batch.
    pub fn predict(&self, x: &Matrix) -> (out: Qualified<Vec<Double>>)
        requires
            x.wf(),
            self.wf(),
            self@.fits(x.width),
        ensures
            out.value@ == self@.foreseen(x@),
            out.report@ == given(!self.initialized, IssueCode::PartialFitBeforeInit),
    {
        if !self.initialized {
            let out = unready(x.nrows());
            assert(out.value@ =~= self@.foreseen(x@));
            return out;
        }
        let mut value: Vec<Double> = Vec::new();
        let mut i: usize = 0;
        while i < x.nrows()
            invariant
                i <= x.height(),
                x.wf(),
                self.initialized,
                self@.fits(x.width),
                value@ == self@.foreseen(x@).take(i as int),
            decreases x.height() - i,
        {
            let z = design_row(x, i, self.fit_intercept);
            value.push(dot(&z, &self.theta));
            i = i + 1;
            assert(value@ =~= self@.foreseen(x@).take(i as int));
        }
        assert(value@ =~= self@.foreseen(x@));
        Qualified { value, report: Vec::new() }
    }

    /// A copy with the same state.
    pub fn copy(&self) -> (r: LinearRegression)
        requires
            self.wf(),
        ensures
            r.wf(),
            r@ == self@,
    {
        let p_mat: Option<Matrix> = match &self.p_mat {
            Some(p) => {
                let q = p.copy();
                assert(q.grid() =~= p.grid());
                Some(q)
            },
            None => None,
        };
        LinearRegression {
            forgetting_factor: self.forgetting_factor,
            fit_intercept: self.fit_intercept,
            p0: self.p0,
            theta: copy(&self.theta),
            p_mat,
            n_seen: self.n_seen,
            updates: self.updates,
            initialized: self.initialized,
        }
    }
}

/// The inverse Gram matrix after a step.
pub fn downdate(p: &Matrix, pz: &Vec<Double>, denominator: Double, lambda: Double) -> (r: Matrix)
    requires
        p.wf(),
        p.height() == pz@.len(),
        p.width == pz@.len(),
    ensures
        r.wf(),
        r.height() == pz@.len(),
        r.width == pz@.len(),
        r.grid() == downdated_gram(p.grid(), pz@, denominator, lambda),
{
    let d: usize = pz.len();
    let ghost want = downdated_gram(p.grid(), pz@, denominator, lambda);
    let mut rows: Vec<Vec<Double>> = Vec::new();
    let mut r: usize = 0;
    while r < d
        invariant
            r <= d,
            d == pz@.len(),
            p.wf(),
            p.height() == d,
            p.width == d,
            want == downdated_gram(p.grid(), pz@, denominator, lambda),
            rows@.len() == r,
            forall|a: int| 0 <= a < r ==> (#[trigger] rows@[a])@ == want[a],
        decreases d - r,
    {
        let mut row: Vec<Double> = Vec::new();
        let mut c: usize = 0;
        while c < d
            invariant
                c <= d,
                r < d,
                d == pz@.len(),
                p.wf(),
                p.height() == d,
                p.width == d,
                want == downdated_gram(p.grid(), pz@, denominator, lambda),
                row@ == want[r as int].take(c as int),
            decreases d - c,
        {
            row.push(p.get(r, c).minus(pz[r].times(pz[c]).over(denominator)).over(lambda));
            c = c + 1;
            assert(row@ =~= want[r as int].take(c as int));
        }
        assert(row@ =~= want[r as int]);
        rows.push(row);
        r = r + 1;
    }
    let m = Matrix { rows, width: d };
    assert(m.grid() =~= want);
    m
}

impl Learner for LinearRegression {
    open spec fn sound(&self) -> bool {
        self.wf()
    }

    open spec fn room(s: RlsState, rows: nat) -> bool {
        s.room(rows)
    }

    open spec fn apt(s: RlsState, x: Batch) -> bool {
        s.fits(x.width)
    }

    open spec fn taught(s: RlsState, x: Batch, y: Seq<Double>) -> RlsState {
        s.taught(x, y)
    }

    open spec fn foreseen(s: RlsState, x: Batch) -> Seq<Double> {
        s.foreseen(x)
    }

    proof fn lemma_foreseen(s: RlsState, x: Batch) {
    }

    fn teach(&mut self, x: &Matrix, y: &Vec<Double>) {
        if x.nrows() > 0 && x.ncols() > 0 && (!self.initialized || self.dim(x.ncols()) == self.theta.len()) {
            let _ = self.absorb(x, y);
        }
    }

    fn foresee(&self, x: &Matrix) -> (r: Vec<Double>) {
        let out = self.predict(x);
        out.value
    }

    fn duplicate(&self) -> (r: LinearRegression) {
        self.copy()
    }
}

} // verus!
