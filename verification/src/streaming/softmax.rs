//! Multinomial logistic regression.

use crate::constants::{ten_to_minus_12, ten_to_minus_6, tenth};
use crate::data::{zero_seq, zeros, Batch, Matrix};
use crate::double::{neg_infinity, one, zero, Double};
use crate::functions::{apply, curve, is_function, Curve};
use crate::online::common::{inspect_online_xy, shape_issues, target};
use crate::quality::{issue, IncrementalQuality, Issue, IssueCode, Qualified, Update};
use crate::streaming::classes::{find_winner, winner};
use crate::streaming::columns::{plain_report, rejection, reports};
use crate::streaming::drift::running_sum;
use crate::streaming::encoders::{find_slot, slot_of};
use crate::streaming::linear::{linear_score, move_along, moved_along, score_row, unready};
use vstd::prelude::*;

verus! {

/// Labels below `label` at the start of the list.
pub open spec fn lower_labels(labels: Seq<i64>, label: i64, k: nat) -> nat
    decreases labels.len() - k,
{
    if k < labels.len() && labels[k as int] < label {
        lower_labels(labels, label, k + 1)
    } else {
        k
    }
}

/// The ascending list with one more label.
pub open spec fn with_label(labels: Seq<i64>, label: i64) -> Seq<i64> {
    if labels.contains(label) {
        labels
    } else {
        labels.insert(lower_labels(labels, label, 0) as int, label)
    }
}

/// The ascending list after the first `k` targets; targets that are not finite are
/// skipped.
pub open spec fn labels_after(labels: Seq<i64>, y: Seq<Double>, k: nat) -> Seq<i64>
    decreases k,
{
    if k == 0 {
        labels
    } else {
        let before = labels_after(labels, y, (k - 1) as nat);
        if y[k - 1].is_finite() {
            with_label(before, y[k - 1].round_to_i64())
        } else {
            before
        }
    }
}

/// Labels in strictly ascending order.
pub open spec fn ascending(labels: Seq<i64>) -> bool {
    forall|a: int, b: int| 0 <= a < b < labels.len() ==> labels[a] < labels[b]
}

proof fn lemma_lower_labels(labels: Seq<i64>, label: i64, k: nat)
    requires
        k <= labels.len(),
        forall|a: int| 0 <= a < k ==> labels[a] < label,
    ensures
        ({
            let p = lower_labels(labels, label, k);
            &&& p <= labels.len()
            &&& forall|a: int| 0 <= a < p ==> labels[a] < label
            &&& p < labels.len() ==> labels[p as int] >= label
        }),
    decreases labels.len() - k,
{
    if k < labels.len() && labels[k as int] < label {
        lemma_lower_labels(labels, label, k + 1);
    }
}

/// New labels keep the list in ascending order, and every finite target has its
/// label in the list.
pub proof fn law_labels_ascend(labels: Seq<i64>, y: Seq<Double>, k: nat)
    requires
        ascending(labels),
        k <= y.len(),
    ensures
        ascending(labels_after(labels, y, k)),
        labels.len() <= labels_after(labels, y, k).len() <= labels.len() + k,
        forall|v: i64| labels.contains(v) ==> #[trigger] labels_after(labels, y, k).contains(v),
        forall|i: int|
            0 <= i < k && (#[trigger] y[i]).is_finite() ==> labels_after(labels, y, k).contains(y[i].round_to_i64()),
    decreases k,
{
    if k > 0 {
        law_labels_ascend(labels, y, (k - 1) as nat);
        let before = labels_after(labels, y, (k - 1) as nat);
        let after = labels_after(labels, y, k);
        let label = y[k - 1].round_to_i64();
        if y[k - 1].is_finite() && !before.contains(label) {
            lemma_lower_labels(before, label, 0);
            let p = lower_labels(before, label, 0) as int;
            assert(after == before.insert(p, label));
            assert(p < before.len() ==> before[p] != label) by {
                if p < before.len() {
                    assert(before.contains(before[p]));
                }
            }
            assert forall|a: int, b: int| 0 <= a < b < after.len() implies after[a] < after[b] by {
                let u = if a < p {
                    a
                } else {
                    a - 1
                };
                let v = if b < p {
                    b
                } else {
                    b - 1
                };
                if a != p {
                    assert(after[a] == before[u]);
                }
                if b != p {
                    assert(after[b] == before[v]);
                }
                if a == p && v > p {
                    assert(before[p] < before[v]);
                }
            }
            assert(after[p] == label);
            assert forall|v: i64| before.contains(v) implies #[trigger] after.contains(v) by {
                let a = choose|a: int| 0 <= a < before.len() && before[a] == v;
                if a < p {
                    assert(after[a] == v);
                } else {
                    assert(after[a + 1] == v);
                }
            }
        }
    }
}

/// Weights of all classes.
pub struct SoftmaxWeights {
    /// One row of slopes per class.
    pub coef: Seq<Seq<Double>>,
    /// One intercept per class.
    pub intercept: Seq<Double>,
    /// Rows taken in.
    pub n_seen: nat,
}

/// Scores of the classes.
pub open spec fn logits(w: SoftmaxWeights, row: Seq<Double>) -> Seq<Double> {
    Seq::new(w.coef.len(), |c: int| linear_score(w.intercept[c], w.coef[c], row, row.len()))
}

/// The largest of the first `k` scores.
pub open spec fn peak(s: Seq<Double>, k: nat) -> Double
    decreases k,
{
    if k == 0 {
        neg_infinity()
    } else {
        peak(s, (k - 1) as nat).max(s[k - 1])
    }
}

/// Exponentials of the scores below their peak.
pub open spec fn exponentials(s: Seq<Double>, exp: Curve) -> Seq<Double> {
    Seq::new(s.len(), |c: int| exp(s[c].minus(peak(s, s.len()))))
}

/// How far class `c` is from what the label asks for.
pub open spec fn gradient(e: Seq<Double>, c: int, label: int) -> Double {
    (if c == label {
        one()
    } else {
        zero()
    }).minus(e[c].over(running_sum(e, e.len()).max(ten_to_minus_12())))
}

/// The weights after one gradient step on a row of class `label`.
pub open spec fn softmax_step(w: SoftmaxWeights, row: Seq<Double>, label: int, eta: Double, exp: Curve) -> SoftmaxWeights {
    let e = exponentials(logits(w, row), exp);
    SoftmaxWeights {
        coef: Seq::new(w.coef.len(), |c: int| moved_along(w.coef[c], row, eta.times(gradient(e, c, label)))),
        intercept: Seq::new(w.coef.len(), |c: int| w.intercept[c].plus(eta.times(gradient(e, c, label)))),
        n_seen: w.n_seen + 1,
    }
}

/// The weights after the first `k` rows. A row whose label has no class is skipped.
pub open spec fn softmax_after(
    w: SoftmaxWeights,
    x: Batch,
    y: Seq<Double>,
    labels: Seq<i64>,
    eta: Double,
    exp: Curve,
    k: nat,
) -> SoftmaxWeights
    decreases k,
{
    if k == 0 {
        w
    } else {
        let before = softmax_after(w, x, y, labels, eta, exp, (k - 1) as nat);
        let c = slot_of(labels, y[k - 1].round_to_i64());
        if c < labels.len() {
            softmax_step(before, x.rows[k - 1], c as int, eta, exp)
        } else {
            before
        }
    }
}

/// Sum of squared changes in the first `k` slopes of a class, on top of `start`.
pub open spec fn squared_change(start: Double, after: Seq<Double>, before: Seq<Double>, k: nat) -> Double
    decreases k,
{
    if k == 0 {
        start
    } else {
        let d = after[k - 1].minus(before[k - 1]);
        squared_change(start, after, before, (k - 1) as nat).plus(d.times(d))
    }
}

/// Sum of squared changes over the first `k` classes.
pub open spec fn squared_changes(after: Seq<Seq<Double>>, before: Seq<Seq<Double>>, k: nat) -> Double
    decreases k,
{
    if k == 0 {
        zero()
    } else {
        squared_change(
            squared_changes(after, before, (k - 1) as nat),
            after[k - 1],
            before[k - 1],
            after[k - 1].len(),
        )
    }
}

/// Softmax regression by stochastic gradient descent.
#[derive(Clone, Debug)]
pub struct SoftmaxRegression {
    /// Learning rate.
    pub eta: Double,
    /// One row of slopes per class.
    pub coef: Matrix,
    /// One intercept per class.
    pub intercept: Vec<Double>,
    /// Labels in ascending order.
    pub classes: Vec<i64>,
    /// Rows taken in.
    pub n_seen: u64,
    /// Batches taken in.
    pub updates: u64,
    /// Whether the column count is fixed.
    pub initialized: bool,
}

/// Weights for `k` classes and `p` columns: those that are there stay in their
/// places, new ones are zero.
pub open spec fn resized(w: SoftmaxWeights, k: nat, p: nat) -> SoftmaxWeights {
    SoftmaxWeights {
        coef: Seq::new(
            k,
            |c: int|
                if c < w.coef.len() {
                    w.coef[c]
                } else {
                    zero_seq(p)
                },
        ),
        intercept: Seq::new(
            k,
            |c: int|
                if c < w.coef.len() {
                    w.intercept[c]
                } else {
                    zero()
                },
        ),
        n_seen: w.n_seen,
    }
}

/// At least one class.
pub open spec fn class_count(labels: Seq<i64>) -> nat {
    if labels.len() < 1 {
        1
    } else {
        labels.len()
    }
}

proof fn lemma_softmax_shape(
    w: SoftmaxWeights,
    x: Batch,
    y: Seq<Double>,
    labels: Seq<i64>,
    eta: Double,
    exp: Curve,
    k: nat,
)
    requires
        w.intercept.len() == w.coef.len(),
        forall|c: int| 0 <= c < w.coef.len() ==> (#[trigger] w.coef[c]).len() == x.width,
    ensures
        ({
            let a = softmax_after(w, x, y, labels, eta, exp, k);
            &&& a.coef.len() == w.coef.len()
            &&& a.intercept.len() == w.coef.len()
            &&& a.n_seen <= w.n_seen + k
            &&& a.n_seen >= w.n_seen
            &&& forall|c: int| 0 <= c < a.coef.len() ==> (#[trigger] a.coef[c]).len() == x.width
        }),
    decreases k,
{
    if k > 0 {
        lemma_softmax_shape(w, x, y, labels, eta, exp, (k - 1) as nat);
    }
}

impl Default for SoftmaxRegression {
    fn default() -> (r: SoftmaxRegression)
        ensures
            r.blank(),
            r.wf(),
    {
        SoftmaxRegression::new()
    }
}

impl SoftmaxRegression {
    /// The state before any row.
    pub open spec fn blank(&self) -> bool {
        &&& self.eta == tenth()
        &&& self.coef.height() == 0
        &&& self.intercept@.len() == 0
        &&& self.classes@.len() == 0
        &&& self.n_seen == 0
        &&& self.updates == 0
        &&& !self.initialized
    }

    /// Labels ascend, and every class has its weights.
    pub open spec fn wf(&self) -> bool {
        &&& self.coef.wf()
        &&& self.intercept@.len() == self.coef.height()
        &&& ascending(self.classes@)
        &&& self.initialized ==> self.coef.height() == class_count(self.classes@)
    }

    /// The weights.
    pub open spec fn weights(&self) -> SoftmaxWeights {
        SoftmaxWeights { coef: self.coef@.rows, intercept: self.intercept@, n_seen: self.n_seen as nat }
    }

    /// A regression without classes.
    pub fn new() -> (r: SoftmaxRegression)
        ensures
            r.blank(),
            r.wf(),
    {
        SoftmaxRegression {
            eta: tenth(),
            coef: Matrix::zeros(0, 0),
            intercept: Vec::new(),
            classes: Vec::new(),
            n_seen: 0,
            updates: 0,
            initialized: false,
        }
    }

    fn learn_labels(&mut self, y: &Vec<Double>)
        requires
            ascending(old(self).classes@),
        ensures
            final(self).classes@ == labels_after(old(self).classes@, y@, y@.len()),
            *final(self) == (SoftmaxRegression { classes: final(self).classes, ..*old(self) }),
    {
        let ghost start = self.classes@;
        let mut i: usize = 0;
        while i < y.len()
            invariant
                i <= y@.len(),
                ascending(start),
                start == old(self).classes@,
                self.classes@ == labels_after(start, y@, i as nat),
                *self == (SoftmaxRegression { classes: self.classes, ..*old(self) }),
            decreases y@.len() - i,
        {
            if y[i].is_finite() {
                let label: i64 = y[i].round_to_i64();
                let at: usize = find_slot(&self.classes, label);
                if at == self.classes.len() {
                    let mut p: usize = 0;
                    while p < self.classes.len() && self.classes[p] < label
                        invariant
                            p <= self.classes@.len(),
                            lower_labels(self.classes@, label, 0) == lower_labels(self.classes@, label, p as nat),
                        decreases self.classes@.len() - p,
                    {
                        p = p + 1;
                    }
                    self.classes.insert(p, label);
                }
            }
            i = i + 1;
        }
    }

    fn resize(&mut self, k: usize, p: usize)
        requires
            old(self).coef.wf(),
            old(self).coef.height() > 0 ==> old(self).coef.width == p,
            old(self).intercept@.len() == old(self).coef.height(),
            old(self).coef.height() <= k,
        ensures
            final(self).coef.wf(),
            final(self).coef.width == p,
            final(self).weights() == resized(old(self).weights(), k as nat, p as nat),
            *final(self) == (SoftmaxRegression {
                coef: final(self).coef,
                intercept: final(self).intercept,
                ..*old(self)
            }),
    {
        let ghost want = resized(self.weights(), k as nat, p as nat);
        let ghost have = self.weights();
        let mut rows: Vec<Vec<Double>> = Vec::new();
        let mut intercept: Vec<Double> = Vec::new();
        let mut c: usize = 0;
        while c < k
            invariant
                c <= k,
                self.coef.wf(),
                self.coef.height() > 0 ==> self.coef.width == p,
                self.intercept@.len() == self.coef.height(),
                have == self.weights(),
                want == resized(have, k as nat, p as nat),
                rows@.len() == c,
                intercept@.len() == c,
                forall|a: int| 0 <= a < c ==> (#[trigger] rows@[a])@ == want.coef[a],
                forall|a: int| 0 <= a < c ==> (#[trigger] rows@[a])@.len() == p,
                forall|a: int| 0 <= a < c ==> #[trigger] intercept@[a] == want.intercept[a],
            decreases k - c,
        {
            if c < self.coef.nrows() {
                assert(have.coef[c as int] == self.coef.rows@[c as int]@);
                let row = self.coef.row(c);
                rows.push(row);
                intercept.push(self.intercept[c]);
            } else {
                let row = zeros(p);
                rows.push(row);
                intercept.push(zero());
            }
            c = c + 1;
        }
        self.coef = Matrix { rows, width: p };
        self.intercept = intercept;
        assert(self.weights().coef =~= want.coef);
        assert(self.weights().intercept =~= want.intercept);
    }

    fn step<E: Fn(Double) -> Double>(&mut self, row: &Vec<Double>, label: usize, eta: Double, exp: &E)
        requires
            old(self).coef.wf(),
            old(self).coef.width == row@.len(),
            old(self).intercept@.len() == old(self).coef.height(),
            old(self).n_seen < u64::MAX,
            is_function(*exp),
        ensures
            final(self).coef.wf(),
            final(self).coef.width == row@.len(),
            final(self).intercept@.len() == final(self).coef.height(),
            final(self).weights() == softmax_step(old(self).weights(), row@, label as int, eta, curve(*exp)),
            *final(self) == (SoftmaxRegression {
                coef: final(self).coef,
                intercept: final(self).intercept,
                n_seen: final(self).n_seen,
                ..*old(self)
            }),
    {
        let ghost w = self.weights();
        let ghost s = logits(w, row@);
        let k: usize = self.coef.nrows();
        let p: usize = self.coef.ncols();
        let mut scores: Vec<Double> = Vec::new();
        let mut top: Double = neg_infinity();
        let mut c: usize = 0;
        while c < k
            invariant
                c <= k,
                k == self.coef.height(),
                p == self.coef.width,
                p == row@.len(),
                self.coef.wf(),
                self.intercept@.len() == k,
                w == self.weights(),
                s == logits(w, row@),
                scores@ == s.take(c as int),
                top == peak(s, c as nat),
            decreases k - c,
        {
            assert(w.coef[c as int] == self.coef.rows@[c as int]@);
            let v: Double = score_row(self.intercept[c], &self.coef.rows[c], row, p);
            scores.push(v);
            top = top.max(v);
            c = c + 1;
            assert(scores@ =~= s.take(c as int));
        }
        assert(scores@ =~= s);
        let ghost e = exponentials(s, curve(*exp));
        let mut powers: Vec<Double> = Vec::new();
        let mut z: Double = zero();
        let mut c: usize = 0;
        while c < k
            invariant
                c <= k,
                k == s.len(),
                scores@ == s,
                top == peak(s, s.len()),
                is_function(*exp),
                e == exponentials(s, curve(*exp)),
                powers@ == e.take(c as int),
                z == running_sum(e, c as nat),
            decreases k - c,
        {
            let v: Double = apply(exp, scores[c].minus(top));
            powers.push(v);
            z = z.plus(v);
            c = c + 1;
            assert(powers@ =~= e.take(c as int));
        }
        assert(powers@ =~= e);
        let ghost want = softmax_step(w, row@, label as int, eta, curve(*exp));
        let mut rows: Vec<Vec<Double>> = Vec::new();
        let mut intercept: Vec<Double> = Vec::new();
        let mut c: usize = 0;
        while c < k
            invariant
                c <= k,
                k == self.coef.height(),
                k == s.len(),
                p == self.coef.width,
                p == row@.len(),
                self.coef.wf(),
                self.intercept@.len() == k,
                w == self.weights(),
                s == logits(w, row@),
                e == exponentials(s, curve(*exp)),
                powers@ == e,
                z == running_sum(e, e.len()),
                want == softmax_step(w, row@, label as int, eta, curve(*exp)),
                rows@.len() == c,
                intercept@.len() == c,
                forall|a: int| 0 <= a < c ==> (#[trigger] rows@[a])@ == want.coef[a],
                forall|a: int| 0 <= a < c ==> (#[trigger] rows@[a])@.len() == p,
                forall|a: int| 0 <= a < c ==> #[trigger] intercept@[a] == want.intercept[a],
            decreases k - c,
        {
            assert(w.coef[c as int] == self.coef.rows@[c as int]@);
            let share: Double = powers[c].over(z.max(ten_to_minus_12()));
            let g: Double = (if c == label {
                one()
            } else {
                zero()
            }).minus(share);
            intercept.push(self.intercept[c].plus(eta.times(g)));
            let next = move_along(&self.coef.rows[c], row, eta.times(g));
            rows.push(next);
            c = c + 1;
        }
        self.coef = Matrix { rows, width: p };
        self.intercept = intercept;
        self.n_seen = self.n_seen + 1;
        assert(self.weights().coef =~= want.coef);
        assert(self.weights().intercept =~= want.intercept);
    }

    /// What a batch starts from, once its labels are known.
    pub open spec fn start(&self, x: Batch, y: Seq<Double>) -> SoftmaxWeights {
        resized(
            if self.initialized {
                self.weights()
            } else {
                SoftmaxWeights { coef: Seq::empty(), intercept: Seq::empty(), n_seen: self.n_seen as nat }
            },
            class_count(self.labels(y)),
            x.width as nat,
        )
    }

    /// The labels that are known with a batch.
    pub open spec fn labels(&self, y: Seq<Double>) -> Seq<i64> {
        labels_after(self.classes@, y, y.len())
    }

    /// What a batch ends with.
    pub open spec fn end(&self, x: Batch, y: Seq<Double>, exp: Curve) -> SoftmaxWeights {
        softmax_after(self.start(x, y), x, y, self.labels(y), self.eta.max(ten_to_minus_6()), exp, x.height())
    }

    /// Whether a batch has the wrong number of columns.
    pub open spec fn misfits(&self, x: Batch) -> bool {
        self.initialized && self.coef.width != x.width
    }

    /// What a batch does.
    pub open spec fn answers(&self, after: &SoftmaxRegression, x: &Matrix, y: Option<Seq<Double>>, exp: Curve, r: &Update) -> bool {
        let refused = IncrementalQuality::new(self.updates, x.height() as usize, self.n_seen);
        match y {
            None => {
                &&& *after == *self
                &&& reports(r, refused, shape_issues(x, y).push(issue(IssueCode::MissingTarget)), false)
            },
            Some(t) => {
                if self.misfits(x@) {
                    &&& *after == *self
                    &&& reports(r, refused, shape_issues(x, y).push(issue(IssueCode::FeatureSpaceChangedOnline)), false)
                } else {
                    let moved = squared_changes(
                        self.end(x@, t, exp).coef,
                        self.start(x@, t).coef,
                        class_count(self.labels(t)),
                    ).sqrt();
                    &&& after.classes@ == self.labels(t)
                    &&& after.eta == self.eta
                    &&& after.weights() == self.end(x@, t, exp)
                    &&& after.coef.width == x.width
                    &&& after.updates == self.updates + 1
                    &&& after.initialized
                    &&& reports(
                        r,
                        IncrementalQuality {
                            effective_sample_size: Double::from_u64(after.n_seen),
                            parameter_delta_norm: Some(moved),
                            information_gain: Some(moved),
                            still_identified: after.n_seen > x.width && class_count(self.labels(t)) >= 2,
                            warmup: after.n_seen < x.width + 2,
                            ..IncrementalQuality::new(self.updates, x.height() as usize, after.n_seen)
                        },
                        shape_issues(x, y),
                        false,
                    )
                }
            },
        }
    }

    /// Takes in a batch, unless it has no target or its column count does not fit.
    /// `exp` is the exponential.
    pub fn partial_fit<E: Fn(Double) -> Double>(&mut self, x: &Matrix, y: Option<&Vec<Double>>, exp: &E) -> (r: Update)
        requires
            x.wf(),
            x.width + 2 <= u64::MAX,
            y is Some && !old(self).misfits(x@) ==> x.height() <= y->0@.len() && old(self).classes@.len()
                + y->0@.len() <= usize::MAX,
            old(self).wf(),
            old(self).n_seen + x.height() <= u64::MAX,
            old(self).updates < u64::MAX,
            is_function(*exp),
        ensures
            final(self).wf(),
            old(self).answers(final(self), x, target(y), curve(*exp), &r),
    {
        let n: usize = x.nrows();
        let p: usize = x.ncols();
        let mut issues: Vec<Issue> = Vec::new();
        inspect_online_xy(&mut issues, x, y);
        assert(issues@ =~= shape_issues(x, target(y)));
        let t: &Vec<Double> = match y {
            None => {
                issues.push(issue(IssueCode::MissingTarget));
                return rejection(self.updates, n, self.n_seen, issues);
            },
            Some(t) => t,
        };
        if self.initialized && self.coef.ncols() != p {
            issues.push(issue(IssueCode::FeatureSpaceChangedOnline));
            return rejection(self.updates, n, self.n_seen, issues);
        }
        proof {
            law_labels_ascend(self.classes@, t@, t@.len());
        }
        self.learn_labels(t);
        let k: usize = if self.classes.len() < 1 {
            1
        } else {
            self.classes.len()
        };
        if !self.initialized {
            self.coef = Matrix::zeros(0, p);
            self.intercept = Vec::new();
            self.initialized = true;
            assert(self.weights().coef =~= Seq::empty());
            assert(self.weights().intercept =~= Seq::empty());
        }
        self.resize(k, p);
        let ghost w = self.weights();
        assert(w == old(self).start(x@, t@));
        let before: Matrix = self.coef.copy();
        assert(before@.rows =~= w.coef);
        let eta: Double = self.eta.max(ten_to_minus_6());
        proof {
            assert forall|c: int| 0 <= c < w.coef.len() implies (#[trigger] w.coef[c]).len() == x.width by {
                assert(self.coef.rows[c]@.len() == p);
            }
            lemma_softmax_shape(w, x@, t@, self.classes@, eta, curve(*exp), x.height());
        }
        let mut i: usize = 0;
        while i < n
            invariant
                i <= n,
                n == x.height(),
                x.wf(),
                n <= t@.len(),
                p == x.width,
                self.coef.wf(),
                self.coef.width == p,
                self.intercept@.len() == self.coef.height(),
                old(self).n_seen + n <= u64::MAX,
                w.n_seen == old(self).n_seen,
                self.n_seen <= w.n_seen + i,
                is_function(*exp),
                self.weights() == softmax_after(w, x@, t@, self.classes@, eta, curve(*exp), i as nat),
                self.classes@ == old(self).labels(t@),
                self.eta == old(self).eta,
                self.updates == old(self).updates,
                self.initialized,
            decreases n - i,
        {
            assert(x@.rows[i as int] == x.rows@[i as int]@);
            assert(x.rows[i as int]@.len() == x.width);
            let c: usize = find_slot(&self.classes, t[i].round_to_i64());
            if c < self.classes.len() {
                self.step(&x.rows[i], c, eta, exp);
            }
            i = i + 1;
        }
        self.updates = self.updates + 1;
        let ghost end = old(self).end(x@, t@, curve(*exp));
        assert(self.weights() == end);
        let mut moved: Double = zero();
        let mut c: usize = 0;
        while c < k
            invariant
                c <= k,
                k == self.coef.height(),
                k == before.height(),
                p == self.coef.width,
                p == before.width,
                self.coef.wf(),
                before.wf(),
                end.coef == self.coef@.rows,
                w.coef == before@.rows,
                moved == squared_changes(end.coef, w.coef, c as nat),
            decreases k - c,
        {
            assert(end.coef[c as int] == self.coef.rows@[c as int]@);
            assert(w.coef[c as int] == before.rows@[c as int]@);
            assert(self.coef.rows[c as int]@.len() == p);
            let ghost base = moved;
            let mut j: usize = 0;
            while j < p
                invariant
                    j <= p,
                    c < k,
                    k == self.coef.height(),
                    k == before.height(),
                    p == self.coef.width,
                    p == before.width,
                    self.coef.wf(),
                    before.wf(),
                    moved == squared_change(base, self.coef.rows@[c as int]@, before.rows@[c as int]@, j as nat),
                decreases p - j,
            {
                let d: Double = self.coef.get(c, j).minus(before.get(c, j));
                moved = moved.plus(d.times(d));
                j = j + 1;
            }
            c = c + 1;
        }
        let quality = IncrementalQuality {
            effective_sample_size: Double::from_u64(self.n_seen),
            parameter_delta_norm: Some(moved.sqrt()),
            information_gain: Some(moved.sqrt()),
            still_identified: self.n_seen > p as u64 && k >= 2,
            warmup: self.n_seen < p as u64 + 2,
            ..IncrementalQuality::new(self.updates - 1, n, self.n_seen)
        };
        plain_report(quality, issues)
    }

    /// Scores of the first `classes` classes over the columns that a row shares with
    /// the weights.
    pub open spec fn scores(&self, row: Seq<Double>) -> Seq<Double> {
        let k: nat = if row.len() < self.coef.width {
            row.len()
        } else {
            self.coef.width as nat
        };
        Seq::new(
            self.classes@.len(),
            |c: int| linear_score(self.intercept@[c], self.coef.rows@[c]@, row, k),
        )
    }

    /// The label with the highest score, row by row.
    pub open spec fn predictions(&self, x: Batch) -> Seq<Double> {
        Seq::new(
            x.height(),
            |i: int|
                {
                    let s = self.scores(x.rows[i]);
                    Double::from_i64(self.classes@[winner(s, s.len()).0 as int])
                },
        )
    }

    /// The label with the highest score, or zeros before the first label.
    pub fn predict(&self, x: &Matrix) -> (out: Qualified<Vec<Double>>)
        requires
            x.wf(),
            self.wf(),
        ensures
            if !self.initialized || self.classes@.len() == 0 {
                &&& out.value@ == zero_seq(x.height())
                &&& out.report@ == seq![issue(IssueCode::PartialFitBeforeInit)]
            } else {
                &&& out.value@ == self.predictions(x@)
                &&& out.report@.len() == 0
            },
    {
        if !self.initialized || self.classes.len() == 0 {
            return unready(x.nrows());
        }
        let ghost want = self.predictions(x@);
        let n: usize = self.classes.len();
        let k: usize = if x.ncols() < self.coef.ncols() {
            x.ncols()
        } else {
            self.coef.ncols()
        };
        let mut value: Vec<Double> = Vec::new();
        let mut i: usize = 0;
        while i < x.nrows()
            invariant
                i <= x.height(),
                x.wf(),
                self.wf(),
                n == self.classes@.len(),
                0 < n <= self.coef.height(),
                k <= x.width,
                k <= self.coef.width,
                k == x.width || k == self.coef.width,
                want == self.predictions(x@),
                value@ == want.take(i as int),
            decreases x.height() - i,
        {
            assert(x@.rows[i as int] == x.rows@[i as int]@);
            assert(x.rows[i as int]@.len() == x.width);
            let mut scores: Vec<Double> = Vec::new();
            let mut c: usize = 0;
            while c < n
                invariant
                    c <= n,
                    i < x.height(),
                    x.wf(),
                    self.wf(),
                    n == self.classes@.len(),
                    n <= self.coef.height(),
                    k <= x.width,
                    k <= self.coef.width,
                    k == x.width || k == self.coef.width,
                    x.rows@[i as int]@.len() == x.width,
                    scores@ == self.scores(x.rows@[i as int]@).take(c as int),
                decreases n - c,
            {
                scores.push(score_row(self.intercept[c], &self.coef.rows[c], &x.rows[i], k));
                c = c + 1;
                assert(scores@ =~= self.scores(x.rows@[i as int]@).take(c as int));
            }
            assert(scores@ =~= self.scores(x.rows@[i as int]@));
            let best: usize = find_winner(&scores);
            value.push(Double::from_i64(self.classes[best]));
            i = i + 1;
            assert(value@ =~= want.take(i as int));
        }
        assert(value@ =~= want);
        Qualified { value, report: Vec::new() }
    }
}

} // verus!
