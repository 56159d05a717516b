//! Model rules: a linear model that splits into two once a column tells its errors
//! apart.

use crate::constants::{five, hundredth, ten_to_minus_12, ten_to_minus_18, thousand, two};
use crate::data::{dot, dot_of, zero_seq, zeros, Batch, Matrix};
use crate::double::{one, zero, Double};
use crate::functions::{apply, curve, is_function, Curve};
use crate::online::common::target;
use crate::online::linear_regression::{design_of, design_row, diagonal, product, scaled_identity, ParameterUpdate};
use crate::quality::{advisory, given, issue, raise, Issue, IssueCode, Qualified};
use crate::streaming::columns::rejection;
use crate::streaming::linear::{linear_figures, linear_refused, linear_reports, pack_linear_explain};
use crate::streaming::rls::{downdate, downdated_gram};
use vstd::prelude::*;

verus! {

/// Recursive least squares in a rule.
#[derive(Clone, Debug)]
pub struct RuleLeaf {
    /// Coefficients, the intercept first.
    pub theta: Vec<Double>,
    /// Inverse Gram matrix.
    pub p_mat: Matrix,
    /// Rows taken in.
    pub n: u64,
}

/// The state of a rule.
pub struct RuleState {
    /// Coefficients.
    pub theta: Seq<Double>,
    /// Rows of the inverse Gram matrix.
    pub gram: Seq<Seq<Double>>,
    /// Rows taken in.
    pub n: nat,
}

impl View for RuleLeaf {
    type V = RuleState;

    open spec fn view(&self) -> RuleState {
        RuleState { theta: self.theta@, gram: self.p_mat.grid(), n: self.n as nat }
    }
}

/// Sum of the squares of the first `k` entries, added from left to right.
pub open spec fn square_sum(v: Seq<Double>, k: nat) -> Double
    decreases k,
{
    if k == 0 {
        zero()
    } else {
        square_sum(v, (k - 1) as nat).plus(v[k - 1].times(v[k - 1]))
    }
}

impl RuleState {
    /// A rule without rows.
    pub open spec fn blank(p: nat, p0: Double) -> RuleState {
        RuleState { theta: zero_seq(p), gram: scaled_identity(p, p0), n: 0 }
    }

    /// The prediction for a design row, zero if its length does not fit.
    pub open spec fn foreseen(self, z: Seq<Double>) -> Double {
        if self.theta.len() != z.len() {
            zero()
        } else {
            dot_of(self.theta, z, z.len())
        }
    }

    /// The rule, started over if its length does not fit.
    pub open spec fn fitted(self, p: nat) -> RuleState {
        if self.theta.len() != p {
            RuleState::blank(p, thousand())
        } else {
            self
        }
    }

    /// The denominator of the gain.
    pub open spec fn denominator(self, z: Seq<Double>, lambda: Double) -> Double {
        lambda.plus(dot_of(z, product(self.gram, z), z.len()))
    }

    /// What a row adds to the coefficients.
    pub open spec fn shift(self, z: Seq<Double>, y: Double, lambda: Double) -> Seq<Double> {
        let pz = product(self.gram, z);
        let err = y.minus(self.foreseen(z));
        Seq::new(z.len(), |i: int| pz[i].times(err).over(self.denominator(z, lambda)))
    }

    /// The rule after one more row. Nothing moves where the denominator vanishes.
    pub open spec fn taught(self, z: Seq<Double>, y: Double, lambda: Double) -> RuleState {
        let f = self.fitted(z.len());
        let denominator = f.denominator(z, lambda);
        if denominator.abs().le(ten_to_minus_18()) {
            f
        } else {
            RuleState {
                theta: Seq::new(z.len(), |i: int| f.theta[i].plus(f.shift(z, y, lambda)[i])),
                gram: downdated_gram(f.gram, product(f.gram, z), denominator, lambda),
                n: f.n + 1,
            }
        }
    }

    /// How far the coefficients move.
    pub open spec fn moved(self, z: Seq<Double>, y: Double, lambda: Double) -> Double {
        let f = self.fitted(z.len());
        if f.denominator(z, lambda).abs().le(ten_to_minus_18()) {
            zero()
        } else {
            square_sum(f.shift(z, y, lambda), z.len()).sqrt()
        }
    }
}

impl RuleLeaf {
    /// The inverse Gram matrix has one row and one column per coefficient.
    pub open spec fn wf(&self) -> bool {
        &&& self.p_mat.wf()
        &&& self.p_mat.height() == self.theta@.len()
        &&& self.p_mat.width == self.theta@.len()
    }

    fn new(p: usize, p0: Double) -> (r: RuleLeaf)
        ensures
            r.wf(),
            r@ == RuleState::blank(p as nat, p0),
    {
        RuleLeaf { theta: zeros(p), p_mat: diagonal(p, p0), n: 0 }
    }

    fn predict(&self, z: &Vec<Double>) -> (r: Double)
        ensures
            r == self@.foreseen(z@),
    {
        if self.theta.len() != z.len() {
            return zero();
        }
        dot(&self.theta, z)
    }

    fn update(&mut self, z: &Vec<Double>, y: Double, lam: Double) -> (r: Double)
        requires
            old(self).wf(),
            old(self).n < u64::MAX,
        ensures
            final(self).wf(),
            final(self)@ == old(self)@.taught(z@, y, lam),
            r == old(self)@.moved(z@, y, lam),
            final(self).n <= old(self).n + 1,
    {
        let p: usize = z.len();
        if self.theta.len() != p {
            *self = RuleLeaf::new(p, thousand());
        }
        let ghost f = self@;
        assert(f == old(self)@.fitted(p as nat));
        let err: Double = y.minus(self.predict(z));
        let mut px: Vec<Double> = Vec::new();
        let mut i: usize = 0;
        while i < p
            invariant
                i <= p,
                p == z@.len(),
                self.wf(),
                self.theta@.len() == p,
                f == self@,
                px@ == product(f.gram, z@).take(i as int),
            decreases p - i,
        {
            assert(f.gram[i as int] == self.p_mat.rows@[i as int]@);
            let s: Double = dot(&self.p_mat.rows[i], z);
            px.push(s);
            i = i + 1;
            assert(px@ =~= product(f.gram, z@).take(i as int));
        }
        assert(px@ =~= product(f.gram, z@));
        let denominator: Double = lam.plus(dot(z, &px));
        if denominator.abs().le(ten_to_minus_18()) {
            return zero();
        }
        let ghost shift = f.shift(z@, y, lam);
        let ghost want = f.taught(z@, y, lam);
        let mut theta: Vec<Double> = Vec::new();
        let mut squares: Double = zero();
        let mut i: usize = 0;
        while i < p
            invariant
                i <= p,
                p == z@.len(),
                self.wf(),
                self.theta@.len() == p,
                f == self@,
                px@ == product(f.gram, z@),
                err == y.minus(f.foreseen(z@)),
                denominator == f.denominator(z@, lam),
                !denominator.abs().le(ten_to_minus_18()),
                shift == f.shift(z@, y, lam),
                want == f.taught(z@, y, lam),
                theta@ == want.theta.take(i as int),
                squares == square_sum(shift, i as nat),
            decreases p - i,
        {
            let d: Double = px[i].times(err).over(denominator);
            theta.push(self.theta[i].plus(d));
            squares = squares.plus(d.times(d));
            i = i + 1;
            assert(theta@ =~= want.theta.take(i as int));
        }
        assert(theta@ =~= want.theta);
        self.p_mat = downdate(&self.p_mat, &px, denominator, lam);
        self.theta = theta;
        self.n = self.n + 1;
        squares.sqrt()
    }
}

/// Errors on both sides of the running mean of a column.
#[derive(Clone, Copy, Debug, PartialEq, Eq, Structural)]
pub struct Divide {
    /// Running mean.
    pub mean: Double,
    /// Squared errors of rows up to the mean.
    pub left_sse: Double,
    /// Rows up to the mean.
    pub left_n: Double,
    /// Squared errors of rows above it.
    pub right_sse: Double,
    /// Rows above it.
    pub right_n: Double,
}

impl Divide {
    /// No rows yet.
    #[verifier::allow_in_spec]
    pub fn fresh() -> (r: Divide)
        returns
            (Divide { mean: zero(), left_sse: zero(), left_n: zero(), right_sse: zero(), right_n: zero() }),
    {
        Divide { mean: zero(), left_sse: zero(), left_n: zero(), right_sse: zero(), right_n: zero() }
    }

    /// After the `n`-th row, with value `v` and squared error `e2`.
    pub open spec fn spec_shown(self, v: Double, e2: Double, n: Double) -> Divide {
        let mean = self.mean.plus(v.minus(self.mean).over(n));
        if v.le(mean) {
            Divide { mean, left_sse: self.left_sse.plus(e2), left_n: self.left_n.plus(one()), ..self }
        } else {
            Divide { mean, right_sse: self.right_sse.plus(e2), right_n: self.right_n.plus(one()), ..self }
        }
    }

    /// After the `n`-th row, with value `v` and squared error `e2`.
    #[verifier::when_used_as_spec(spec_shown)]
    pub fn shown(self, v: Double, e2: Double, n: Double) -> (r: Divide)
        ensures
            r == self.spec_shown(v, e2, n),
    {
        let mean: Double = self.mean.plus(v.minus(self.mean).over(n));
        if v.le(mean) {
            Divide { mean, left_sse: self.left_sse.plus(e2), left_n: self.left_n.plus(one()), ..self }
        } else {
            Divide { mean, right_sse: self.right_sse.plus(e2), right_n: self.right_n.plus(one()), ..self }
        }
    }
}

/// The best column so far with its gain, and the runner-up's gain.
#[derive(Clone, Copy, Debug, PartialEq, Eq, Structural)]
pub struct Contest {
    /// The best column.
    pub best: Option<usize>,
    /// Its gain.
    pub gain: Double,
    /// Gain of the runner-up.
    pub second: Double,
}

/// Linear rules with an optional split.
#[derive(Clone, Debug)]
pub struct AdaptiveModelRules {
    /// Forgetting factor of each rule.
    pub forgetting: Double,
    /// Probability that a split is taken wrongly.
    pub delta: Double,
    /// Coefficients of a rule.
    pub p: usize,
    /// Column and threshold of the split.
    pub split: Option<(usize, Double)>,
    /// The rule before the split.
    pub default: RuleLeaf,
    /// The rule up to the threshold.
    pub left: Option<RuleLeaf>,
    /// The rule above it.
    pub right: Option<RuleLeaf>,
    /// Errors on both sides of each column's mean.
    pub divides: Vec<Divide>,
    /// Rows behind the means.
    pub feat_n: u64,
    /// Squared errors before the split.
    pub parent_sse: Double,
    /// Rows before the split.
    pub parent_n: u64,
    /// Batches taken in.
    pub updates: u64,
    /// Rows taken in.
    pub n_seen: u64,
}

/// The state of the rules.
pub struct RulesState {
    /// Forgetting factor of each rule.
    pub forgetting: Double,
    /// Probability that a split is taken wrongly.
    pub delta: Double,
    /// Coefficients of a rule.
    pub p: usize,
    /// Column and threshold of the split.
    pub split: Option<(usize, Double)>,
    /// The rule before the split.
    pub default: RuleState,
    /// The rule up to the threshold.
    pub left: Option<RuleState>,
    /// The rule above it.
    pub right: Option<RuleState>,
    /// Errors on both sides of each column's mean.
    pub divides: Seq<Divide>,
    /// Rows behind the means.
    pub feat_n: nat,
    /// Squared errors before the split.
    pub parent_sse: Double,
    /// Rows before the split.
    pub parent_n: nat,
    /// Batches taken in.
    pub updates: nat,
    /// Rows taken in.
    pub n_seen: nat,
}

/// The rules in the middle of a batch.
pub struct RulesTrail {
    /// The rules.
    pub rules: RulesState,
    /// Sum of the coefficient moves.
    pub moved: Double,
    /// Squared errors before each step.
    pub loss_before: Double,
    /// Squared errors after each step.
    pub loss_after: Double,
}

/// The state of an optional rule.
pub open spec fn leaf_state(leaf: Option<RuleLeaf>) -> Option<RuleState> {
    match leaf {
        Some(l) => Some(l@),
        None => None,
    }
}

impl View for AdaptiveModelRules {
    type V = RulesState;

    open spec fn view(&self) -> RulesState {
        RulesState {
            forgetting: self.forgetting,
            delta: self.delta,
            p: self.p,
            split: self.split,
            default: self.default@,
            left: leaf_state(self.left),
            right: leaf_state(self.right),
            divides: self.divides@,
            feat_n: self.feat_n as nat,
            parent_sse: self.parent_sse,
            parent_n: self.parent_n as nat,
            updates: self.updates as nat,
            n_seen: self.n_seen as nat,
        }
    }
}

/// Which rule a row belongs to.
#[derive(Clone, Copy, Debug, PartialEq, Eq, Structural)]
pub enum Side {
    /// The only rule.
    Whole,
    /// The rule up to the threshold.
    Left,
    /// The rule above it.
    Right,
}

impl RulesState {
    /// No rows yet.
    pub open spec fn blank(forgetting: Double) -> RulesState {
        RulesState {
            forgetting,
            delta: hundredth(),
            p: 0,
            split: None,
            default: RuleState::blank(0, thousand()),
            left: None,
            right: None,
            divides: Seq::empty(),
            feat_n: 0,
            parent_sse: zero(),
            parent_n: 0,
            updates: 0,
            n_seen: 0,
        }
    }

    /// The rules for `width` columns: another column count starts the first rule and
    /// the divides over.
    pub open spec fn ensured(self, width: usize) -> RulesState {
        if self.p == width + 1 {
            self
        } else {
            RulesState {
                p: (width + 1) as usize,
                default: RuleState::blank(width as nat + 1, thousand()),
                divides: Seq::new(width as nat, |j: int| Divide::fresh()),
                ..self
            }
        }
    }

    /// Which rule a row belongs to.
    pub open spec fn side(self, row: Seq<Double>) -> Side {
        match self.split {
            None => Side::Whole,
            Some((j, t)) => if row[j as int].le(t) {
                Side::Left
            } else {
                Side::Right
            },
        }
    }

    /// The rule of one side.
    pub open spec fn rule(self, side: Side) -> Option<RuleState> {
        match side {
            Side::Whole => Some(self.default),
            Side::Left => self.left,
            Side::Right => self.right,
        }
    }

    /// The rules with one side replaced.
    pub open spec fn with_rule(self, side: Side, rule: RuleState) -> RulesState {
        match side {
            Side::Whole => RulesState { default: rule, ..self },
            Side::Left => RulesState { left: Some(rule), ..self },
            Side::Right => RulesState { right: Some(rule), ..self },
        }
    }

    /// The prediction for a row, zero where the rule is missing.
    pub open spec fn foreseen(self, row: Seq<Double>) -> Double {
        match self.rule(self.side(row)) {
            Some(r) => r.foreseen(design_of(row, true)),
            None => zero(),
        }
    }

    /// The rule that learns from a row.
    pub open spec fn pupil(self, row: Seq<Double>) -> RuleState {
        match self.rule(self.side(row)) {
            Some(r) => r,
            None => RuleState::blank(self.p as nat, thousand()),
        }
    }

    /// The rules after their rule for a row has learned from it.
    pub open spec fn taught(self, row: Seq<Double>, y: Double) -> RulesState {
        self.with_rule(self.side(row), self.pupil(row).taught(design_of(row, true), y, self.forgetting))
    }

    /// The divides after a row with squared error `e2`, as long as there is no split.
    pub open spec fn divided(self, row: Seq<Double>, e2: Double) -> RulesState {
        if self.split is Some {
            self
        } else {
            let n = Double::from_u64((self.feat_n + 1) as u64);
            RulesState {
                parent_sse: self.parent_sse.plus(e2),
                parent_n: self.parent_n + 1,
                feat_n: self.feat_n + 1,
                divides: Seq::new(self.divides.len(), |j: int| self.divides[j].shown(row[j], e2, n)),
                ..self
            }
        }
    }

    /// The contest over the first `k` columns. A column takes part once both of its
    /// sides hold five rows.
    pub open spec fn contest(self, k: nat) -> Contest
        decreases k,
    {
        if k == 0 {
            Contest { best: None, gain: zero(), second: zero() }
        } else {
            let before = self.contest((k - 1) as nat);
            let d = self.divides[k - 1];
            if d.left_n.lt(five()) || d.right_n.lt(five()) {
                before
            } else {
                let parent = self.parent_sse.over(Double::from_u64(self.parent_n as u64));
                let gain = parent.minus(
                    d.left_n.times(d.left_sse.over(d.left_n)).plus(d.right_n.times(d.right_sse.over(d.right_n))).over(
                        d.left_n.plus(d.right_n),
                    ),
                );
                if gain.gt(before.gain) {
                    Contest { best: Some((k - 1) as usize), gain, second: before.gain }
                } else if gain.gt(before.second) {
                    Contest { second: gain, ..before }
                } else {
                    before
                }
            }
        }
    }

    /// The split that the errors call for, given the natural logarithm.
    pub open spec fn verdict(self, ln: Curve) -> Option<(usize, Double)> {
        let bound = one().times(one()).times(ln(one().over(self.delta.max(ten_to_minus_12())))).over(
            two().times(Double::from_u64(self.parent_n as u64)),
        ).sqrt();
        let c = self.contest(self.divides.len());
        if self.split is Some || self.divides.len() == 0 || self.parent_n < 20 || c.best is None {
            None
        } else if c.gain.minus(c.second).gt(bound) && c.gain.gt(zero()) {
            Some((c.best->0, self.divides[c.best->0 as int].mean))
        } else {
            None
        }
    }

    /// The rules after the split test.
    pub open spec fn tested(self, ln: Curve) -> RulesState {
        match self.verdict(ln) {
            None => self,
            Some(s) => RulesState {
                split: Some(s),
                left: Some(RuleState::blank(self.p as nat, thousand())),
                right: Some(RuleState::blank(self.p as nat, thousand())),
                ..self
            },
        }
    }

    /// Quantities that a batch starts from.
    pub open spec fn start(self, width: usize) -> RulesTrail {
        RulesTrail { rules: self.ensured(width), moved: zero(), loss_before: zero(), loss_after: zero() }
    }

    /// The rules after a batch of `n` targets.
    pub open spec fn after_batch(self, x: Batch, y: Seq<Double>, ln: Curve) -> RulesState {
        let t = self.start(x.width).after(x, y, y.len());
        RulesState { n_seen: t.rules.n_seen + y.len(), updates: t.rules.updates + 1, ..t.rules }.tested(ln)
    }
}

impl RulesTrail {
    /// After one more row.
    pub open spec fn shown(self, row: Seq<Double>, y: Double) -> RulesTrail {
        let before = self.rules.foreseen(row).minus(y);
        let taught = self.rules.taught(row, y);
        let after = taught.foreseen(row).minus(y);
        RulesTrail {
            rules: taught.divided(row, after.times(after)),
            moved: self.moved.plus(self.rules.pupil(row).moved(design_of(row, true), y, self.rules.forgetting)),
            loss_before: self.loss_before.plus(before.times(before)),
            loss_after: self.loss_after.plus(after.times(after)),
        }
    }

    /// After the first `k` rows.
    pub open spec fn after(self, x: Batch, y: Seq<Double>, k: nat) -> RulesTrail
        decreases k,
    {
        if k == 0 {
            self
        } else {
            self.after(x, y, (k - 1) as nat).shown(x.rows[k - 1], y[k - 1])
        }
    }
}

proof fn lemma_contest(s: RulesState, k: nat)
    requires
        k <= usize::MAX,
    ensures
        s.contest(k).best matches Some(j) ==> j < k,
    decreases k,
{
    if k > 0 {
        lemma_contest(s, (k - 1) as nat);
    }
}

/// A split is taken at most once, looks at a known column, and starts two new rules.
pub proof fn law_rules_split_once(s: RulesState, ln: Curve)
    requires
        s.divides.len() <= usize::MAX,
    ensures
        s.split is Some ==> s.tested(ln) == s,
        s.verdict(ln) matches Some(v) ==> v.0 < s.divides.len() && s.tested(ln).split == Some(v),
        s.tested(ln).split != s.split ==> s.tested(ln).left is Some && s.tested(ln).right is Some,
{
    lemma_contest(s, s.divides.len());
}

/// Before the split every row leaves the missing rules alone; after it the first rule
/// and the divides rest.
pub proof fn law_split_freezes_first_rule(t: RulesTrail, row: Seq<Double>, y: Double)
    ensures
        t.rules.split is Some ==> t.shown(row, y).rules.default == t.rules.default && t.shown(row, y).rules.divides
            == t.rules.divides && t.shown(row, y).rules.parent_n == t.rules.parent_n,
        t.rules.split is None ==> t.shown(row, y).rules.left == t.rules.left && t.shown(row, y).rules.right
            == t.rules.right,
        t.shown(row, y).rules.split == t.rules.split,
{
}

impl Default for AdaptiveModelRules {
    fn default() -> (r: AdaptiveModelRules)
        ensures
            r@ == RulesState::blank(one()),
            r.wf(),
    {
        AdaptiveModelRules::new(one())
    }
}

impl AdaptiveModelRules {
    /// Rules are well formed, no counter exceeds the rows, and there is one divide
    /// per column.
    pub open spec fn wf(&self) -> bool {
        &&& self.default.wf()
        &&& self.left matches Some(l) ==> l.wf()
        &&& self.right matches Some(l) ==> l.wf()
        &&& self.within(self.n_seen as nat)
        &&& self.p == 0 ==> self.divides@.len() == 0
        &&& self.p > 0 ==> self.divides@.len() + 1 == self.p
    }

    /// No counter is above `cap`.
    pub open spec fn within(&self, cap: nat) -> bool {
        &&& self.default.n <= cap
        &&& self.left matches Some(l) ==> l.n <= cap
        &&& self.right matches Some(l) ==> l.n <= cap
        &&& self.feat_n <= cap
        &&& self.parent_n <= cap
    }

    /// Rules with the given forgetting factor.
    pub fn new(forgetting: Double) -> (r: AdaptiveModelRules)
        ensures
            r@ == RulesState::blank(forgetting),
            r.wf(),
    {
        let r = AdaptiveModelRules {
            forgetting,
            delta: hundredth(),
            p: 0,
            split: None,
            default: RuleLeaf::new(0, thousand()),
            left: None,
            right: None,
            divides: Vec::new(),
            feat_n: 0,
            parent_sse: zero(),
            parent_n: 0,
            updates: 0,
            n_seen: 0,
        };
        assert(r.divides@ =~= Seq::empty());
        r
    }

    fn ensure(&mut self, p_x: usize)
        requires
            p_x < usize::MAX,
            old(self).wf(),
        ensures
            final(self).wf(),
            final(self)@ == old(self)@.ensured(p_x),
            final(self).divides@.len() == p_x,
            final(self).p == p_x + 1,
    {
        let p: usize = p_x + 1;
        if self.p == p {
            return ;
        }
        self.p = p;
        self.default = RuleLeaf::new(p, thousand());
        let mut divides: Vec<Divide> = Vec::new();
        let mut j: usize = 0;
        while j < p_x
            invariant
                j <= p_x,
                divides@ == Seq::new(j as nat, |k: int| Divide::fresh()),
            decreases p_x - j,
        {
            divides.push(Divide::fresh());
            j = j + 1;
            assert(divides@ =~= Seq::new(j as nat, |k: int| Divide::fresh()));
        }
        self.divides = divides;
        assert(self.divides@ =~= old(self)@.ensured(p_x).divides);
    }

    fn side(&self, row: &Vec<Double>) -> (s: Side)
        requires
            self.split matches Some(s) ==> s.0 < row@.len(),
        ensures
            s == self@.side(row@),
    {
        match self.split {
            None => Side::Whole,
            Some((j, t)) => if row[j].le(t) {
                Side::Left
            } else {
                Side::Right
            },
        }
    }

    fn foresee(&self, row: &Vec<Double>, z: &Vec<Double>) -> (r: Double)
        requires
            self.split matches Some(s) ==> s.0 < row@.len(),
            z@ == design_of(row@, true),
        ensures
            r == self@.foreseen(row@),
    {
        match self.side(row) {
            Side::Whole => self.default.predict(z),
            Side::Left => match &self.left {
                Some(l) => l.predict(z),
                None => zero(),
            },
            Side::Right => match &self.right {
                Some(l) => l.predict(z),
                None => zero(),
            },
        }
    }

    fn teach(&mut self, row: &Vec<Double>, z: &Vec<Double>, y: Double, Ghost(cap): Ghost<nat>) -> (moved: Double)
        requires
            old(self).split matches Some(s) ==> s.0 < row@.len(),
            old(self).default.wf(),
            old(self).left matches Some(l) ==> l.wf(),
            old(self).right matches Some(l) ==> l.wf(),
            old(self).within(cap),
            cap < u64::MAX,
            z@ == design_of(row@, true),
        ensures
            final(self)@ == old(self)@.taught(row@, y),
            moved == old(self)@.pupil(row@).moved(z@, y, old(self).forgetting),
            final(self).default.wf(),
            final(self).left matches Some(l) ==> l.wf(),
            final(self).right matches Some(l) ==> l.wf(),
            final(self).within(cap + 1),
    {
        let lam: Double = self.forgetting;
        match self.side(row) {
            Side::Whole => self.default.update(z, y, lam),
            Side::Left => {
                let mut leaf: RuleLeaf = RuleLeaf::new(self.p, thousand());
                if let Some(l) = self.left.take() {
                    leaf = l;
                }
                assert(leaf@ == old(self)@.pupil(row@));
                let moved: Double = leaf.update(z, y, lam);
                self.left = Some(leaf);
                moved
            },
            Side::Right => {
                let mut leaf: RuleLeaf = RuleLeaf::new(self.p, thousand());
                if let Some(l) = self.right.take() {
                    leaf = l;
                }
                assert(leaf@ == old(self)@.pupil(row@));
                let moved: Double = leaf.update(z, y, lam);
                self.right = Some(leaf);
                moved
            },
        }
    }

    fn divide(&mut self, row: &Vec<Double>, e2: Double)
        requires
            old(self).divides@.len() == row@.len(),
            old(self).feat_n < u64::MAX,
            old(self).parent_n < u64::MAX,
        ensures
            final(self)@ == old(self)@.divided(row@, e2),
            final(self).default == old(self).default,
            final(self).left == old(self).left,
            final(self).right == old(self).right,
            final(self).feat_n <= old(self).feat_n + 1,
            final(self).parent_n <= old(self).parent_n + 1,
    {
        if self.split.is_some() {
            return ;
        }
        let ghost before = self.divides@;
        self.parent_sse = self.parent_sse.plus(e2);
        self.parent_n = self.parent_n + 1;
        self.feat_n = self.feat_n + 1;
        let n: Double = Double::from_u64(self.feat_n);
        let mut next: Vec<Divide> = Vec::new();
        let mut j: usize = 0;
        while j < self.divides.len()
            invariant
                j <= self.divides@.len(),
                self.divides@ == before,
                before.len() == row@.len(),
                next@ == Seq::new(j as nat, |k: int| before[k].shown(row@[k], e2, n)),
            decreases self.divides@.len() - j,
        {
            next.push(self.divides[j].shown(row[j], e2, n));
            j = j + 1;
            assert(next@ =~= Seq::new(j as nat, |k: int| before[k].shown(row@[k], e2, n)));
        }
        self.divides = next;
        assert(self.divides@ =~= old(self)@.divided(row@, e2).divides);
    }

    fn hold_contest(&self) -> (c: Contest)
        ensures
            c == self@.contest(self.divides@.len()),
            c.best matches Some(j) ==> j < self.divides@.len(),
    {
        let parent: Double = self.parent_sse.over(Double::from_u64(self.parent_n));
        let mut c = Contest { best: None, gain: zero(), second: zero() };
        let n: usize = self.divides.len();
        let mut j: usize = 0;
        while j < n
            invariant
                j <= n,
                n == self.divides@.len(),
                parent == self.parent_sse.over(Double::from_u64(self.parent_n)),
                c == self@.contest(j as nat),
            decreases n - j,
        {
            let d: Divide = self.divides[j];
            if !(d.left_n.lt(five()) || d.right_n.lt(five())) {
                let gain: Double = parent.minus(
                    d.left_n.times(d.left_sse.over(d.left_n)).plus(d.right_n.times(d.right_sse.over(d.right_n))).over(
                        d.left_n.plus(d.right_n),
                    ),
                );
                if gain.gt(c.gain) {
                    c = Contest { best: Some(j), gain, second: c.gain };
                } else if gain.gt(c.second) {
                    c = Contest { second: gain, ..c };
                }
            }
            j = j + 1;
        }
        proof {
            lemma_contest(self@, n as nat);
        }
        c
    }

    fn maybe_split<F: Fn(Double) -> Double>(&mut self, ln: &F) -> (split: bool)
        requires
            is_function(*ln),
            old(self).wf(),
        ensures
            final(self).wf(),
            final(self)@ == old(self)@.tested(curve(*ln)),
            split == (old(self)@.verdict(curve(*ln)) is Some),
    {
        if self.split.is_some() || self.divides.len() == 0 || self.parent_n < 20 {
            return false;
        }
        let bound: Double = one().times(one()).times(apply(ln, one().over(self.delta.max(ten_to_minus_12())))).over(
            two().times(Double::from_u64(self.parent_n)),
        ).sqrt();
        let c = self.hold_contest();
        if let Some(j) = c.best {
            if c.gain.minus(c.second).gt(bound) && c.gain.gt(zero()) {
                self.split = Some((j, self.divides[j].mean));
                self.left = Some(RuleLeaf::new(self.p, thousand()));
                self.right = Some(RuleLeaf::new(self.p, thousand()));
                return true;
            }
        }
        false
    }

    /// What a batch reports.
    pub open spec fn tells(&self, after: &AdaptiveModelRules, x: &Matrix, y: Seq<Double>, ln: Curve, r: &ParameterUpdate) -> bool {
        let t = self@.start(x.width).after(x@, y, y.len());
        let tried = RulesState { n_seen: t.rules.n_seen + y.len(), updates: t.rules.updates + 1, ..t.rules };
        let moved = seq![t.moved];
        linear_reports(
            r,
            linear_figures(
                after.updates,
                y.len() as usize,
                after.n_seen,
                moved,
                t.loss_before,
                t.loss_after,
                after.n_seen > after.p,
                after.n_seen < 10,
            ),
            given(x.height() != y.len(), IssueCode::DimensionMismatch) + if tried.verdict(ln) is Some {
                seq![advisory(IssueCode::ConceptDriftDetected)]
            } else {
                Seq::empty()
            },
            moved,
        )
    }

    /// Takes in a batch, unless it has no target. `ln` is the natural logarithm.
    pub fn partial_fit<F: Fn(Double) -> Double>(&mut self, x: &Matrix, y: Option<&Vec<Double>>, ln: &F) -> (r: ParameterUpdate)
        requires
            x.wf(),
            x.width < usize::MAX,
            old(self).wf(),
            old(self).split matches Some(s) ==> s.0 < x.width,
            y matches Some(t) ==> t@.len() <= x.height() && old(self).n_seen + t@.len() <= u64::MAX,
            old(self).updates < u64::MAX,
            is_function(*ln),
        ensures
            final(self).wf(),
            match target(y) {
                None => {
                    &&& *final(self) == *old(self)
                    &&& linear_refused(
                        &r,
                        old(self).updates,
                        0,
                        old(self).n_seen,
                        seq![issue(IssueCode::MissingTarget)] + given(
                            old(self).n_seen == 0,
                            IssueCode::PartialFitBeforeInit,
                        ),
                    )
                },
                Some(t) => {
                    &&& final(self)@ == old(self)@.after_batch(x@, t, curve(*ln))
                    &&& old(self).tells(final(self), x, t, curve(*ln), &r)
                },
            },
    {
        let mut issues: Vec<Issue> = Vec::new();
        let t: &Vec<Double> = match y {
            None => {
                issues.push(issue(IssueCode::MissingTarget));
                raise(&mut issues, self.n_seen == 0, IssueCode::PartialFitBeforeInit);
                assert(issues@ =~= seq![issue(IssueCode::MissingTarget)] + given(
                    self.n_seen == 0,
                    IssueCode::PartialFitBeforeInit,
                ));
                return ParameterUpdate { update: rejection(self.updates, 0, self.n_seen, issues), top_moved: Vec::new() };
            },
            Some(t) => t,
        };
        raise(&mut issues, x.nrows() != t.len(), IssueCode::DimensionMismatch);
        assert(issues@ =~= given(x.height() != t@.len(), IssueCode::DimensionMismatch));
        let ghost before = self@;
        self.ensure(x.ncols());
        let ghost first = before.start(x.width);
        let mut moved: Double = zero();
        let mut loss_before: Double = zero();
        let mut loss_after: Double = zero();
        let mut i: usize = 0;
        while i < t.len()
            invariant
                i <= t@.len(),
                t@.len() <= x.height(),
                x.wf(),
                self.divides@.len() == x.width,
                self.p == x.width + 1,
                self.split matches Some(s) ==> s.0 < x.width,
                self.default.wf(),
                self.left matches Some(l) ==> l.wf(),
                self.right matches Some(l) ==> l.wf(),
                self.within((before.n_seen + i) as nat),
                self.n_seen == before.n_seen,
                self.updates == before.updates,
                before.n_seen + t@.len() <= u64::MAX,
                first == before.start(x.width),
                first.after(x@, t@, i as nat) == (RulesTrail { rules: self@, moved, loss_before, loss_after }),
            decreases t@.len() - i,
        {
            assert(x@.rows[i as int] == x.rows@[i as int]@);
            assert(x.rows[i as int]@.len() == x.width);
            let row: &Vec<Double> = &x.rows[i];
            let z = design_row(x, i, true);
            let b: Double = self.foresee(row, &z).minus(t[i]);
            loss_before = loss_before.plus(b.times(b));
            let step: Double = self.teach(row, &z, t[i], Ghost((before.n_seen + i) as nat));
            moved = moved.plus(step);
            let e: Double = self.foresee(row, &z).minus(t[i]);
            loss_after = loss_after.plus(e.times(e));
            self.divide(row, e.times(e));
            i = i + 1;
        }
        self.n_seen = self.n_seen + t.len() as u64;
        self.updates = self.updates + 1;
        let split: bool = self.maybe_split(ln);
        if split {
            issues.push(advisory(IssueCode::ConceptDriftDetected));
        }
        assert(issues@ =~= given(x.height() != t@.len(), IssueCode::DimensionMismatch) + if split {
            seq![advisory(IssueCode::ConceptDriftDetected)]
        } else {
            Seq::empty()
        });
        let mut delta: Vec<Double> = Vec::new();
        delta.push(moved);
        assert(delta@ =~= seq![moved]);
        pack_linear_explain(
            self.updates,
            t.len(),
            self.n_seen,
            &delta,
            loss_before,
            loss_after,
            self.n_seen > self.p as u64,
            self.n_seen < 10,
            issues,
        )
    }

    /// The prediction of the rule that each row belongs to.
    pub fn predict(&self, x: &Matrix) -> (out: Qualified<Vec<Double>>)
        requires
            x.wf(),
            self.split matches Some(s) ==> s.0 < x.width,
        ensures
            out.value@ == Seq::new(x.height(), |i: int| self@.foreseen(x@.rows[i])),
            out.report@ == given(self.p == 0, IssueCode::PartialFitBeforeInit),
    {
        let mut report: Vec<Issue> = Vec::new();
        raise(&mut report, self.p == 0, IssueCode::PartialFitBeforeInit);
        assert(report@ =~= given(self.p == 0, IssueCode::PartialFitBeforeInit));
        let mut value: Vec<Double> = Vec::new();
        let mut i: usize = 0;
        while i < x.nrows()
            invariant
                i <= x.height(),
                x.wf(),
                self.split matches Some(s) ==> s.0 < x.width,
                value@ == Seq::new(i as nat, |i: int| self@.foreseen(x@.rows[i])),
            decreases x.height() - i,
        {
            assert(x@.rows[i as int] == x.rows@[i as int]@);
            assert(x.rows[i as int]@.len() == x.width);
            let z = design_row(x, i, true);
            value.push(self.foresee(&x.rows[i], &z));
            i = i + 1;
            assert(value@ =~= Seq::new(i as nat, |i: int| self@.foreseen(x@.rows[i])));
        }
        Qualified { value, report }
    }
}

} // verus!
