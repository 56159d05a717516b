//! Naive Bayes classifiers and the choice of the columns that tell classes apart.

use crate::constants::{half, neg_half, ten_to_minus_12, ten_to_minus_18, ten_to_minus_6, two};
use crate::data::{zero_seq, Batch, Matrix};
use crate::double::{infinity, one, zero, Double};
use crate::functions::{apply, curve, is_function, Curve};
use crate::online::common::{inspect_online_xy, shape_issues, target};
use crate::online::variance_threshold::select_columns;
use crate::quality::{issue, warning, IncrementalQuality, Issue, IssueCode, Qualified, Update};
use crate::streaming::classes::{find_winner, objections, winner, ClassBank, ClassCell, ClassState};
use crate::streaming::columns::{rejection, reports, screened_report};
use crate::streaming::drift::running_sum;
use crate::streaming::linear::unready;
use crate::streaming::ranking::{rank, ranking};
use vstd::prelude::*;

verus! {

/// Mean and spread of a column within a class.
#[derive(Clone, Copy, Debug, PartialEq, Eq, Structural)]
pub struct MomentCell {
    /// Mean.
    pub mean: Double,
    /// Sum of squared deviations.
    pub m2: Double,
}

impl ClassCell for MomentCell {
    open spec fn blank() -> MomentCell {
        MomentCell { mean: zero(), m2: zero() }
    }

    open spec fn seen(self, n: Double, v: Double) -> MomentCell {
        let d = v.minus(self.mean);
        let mean = self.mean.plus(d.over(n));
        MomentCell { mean, m2: self.m2.plus(d.times(v.minus(mean))) }
    }

    open spec fn objects(v: Double) -> bool {
        false
    }

    fn start() -> (r: MomentCell) {
        MomentCell { mean: zero(), m2: zero() }
    }

    fn see(self, n: Double, v: Double) -> (r: MomentCell) {
        let d: Double = v.minus(self.mean);
        let mean: Double = self.mean.plus(d.over(n));
        MomentCell { mean, m2: self.m2.plus(d.times(v.minus(mean))) }
    }

    fn is_objected(v: Double) -> (r: bool) {
        false
    }
}

/// Mean and spread of the finite values of a column within a class.
#[derive(Clone, Copy, Debug, PartialEq, Eq, Structural)]
pub struct FiniteMomentCell {
    /// Mean.
    pub mean: Double,
    /// Sum of squared deviations.
    pub m2: Double,
}

impl ClassCell for FiniteMomentCell {
    open spec fn blank() -> FiniteMomentCell {
        FiniteMomentCell { mean: zero(), m2: zero() }
    }

    open spec fn seen(self, n: Double, v: Double) -> FiniteMomentCell {
        if !v.is_finite() {
            self
        } else {
            let d = v.minus(self.mean);
            let mean = self.mean.plus(d.over(n));
            FiniteMomentCell { mean, m2: self.m2.plus(d.times(v.minus(mean))) }
        }
    }

    open spec fn objects(v: Double) -> bool {
        false
    }

    fn start() -> (r: FiniteMomentCell) {
        FiniteMomentCell { mean: zero(), m2: zero() }
    }

    fn see(self, n: Double, v: Double) -> (r: FiniteMomentCell) {
        if !v.is_finite() {
            self
        } else {
            let d: Double = v.minus(self.mean);
            let mean: Double = self.mean.plus(d.over(n));
            FiniteMomentCell { mean, m2: self.m2.plus(d.times(v.minus(mean))) }
        }
    }

    fn is_objected(v: Double) -> (r: bool) {
        false
    }
}

/// Total of the counts of a column within a class. Negative counts are skipped.
#[derive(Clone, Copy, Debug, PartialEq, Eq, Structural)]
pub struct CountCell {
    /// Total.
    pub total: Double,
}

impl ClassCell for CountCell {
    open spec fn blank() -> CountCell {
        CountCell { total: zero() }
    }

    open spec fn seen(self, n: Double, v: Double) -> CountCell {
        if !v.is_finite() || v.lt(zero()) {
            self
        } else {
            CountCell { total: self.total.plus(v) }
        }
    }

    open spec fn objects(v: Double) -> bool {
        v.is_finite() && v.lt(zero())
    }

    fn start() -> (r: CountCell) {
        CountCell { total: zero() }
    }

    fn see(self, n: Double, v: Double) -> (r: CountCell) {
        if !v.is_finite() || v.lt(zero()) {
            self
        } else {
            CountCell { total: self.total.plus(v) }
        }
    }

    fn is_objected(v: Double) -> (r: bool) {
        v.is_finite() && v.lt(zero())
    }
}

/// Rows of a class in which a column is set, that is above one half.
#[derive(Clone, Copy, Debug, PartialEq, Eq, Structural)]
pub struct OnesCell {
    /// Rows.
    pub ones: Double,
}

impl ClassCell for OnesCell {
    open spec fn blank() -> OnesCell {
        OnesCell { ones: zero() }
    }

    open spec fn seen(self, n: Double, v: Double) -> OnesCell {
        if v.gt(half()) {
            OnesCell { ones: self.ones.plus(one()) }
        } else {
            self
        }
    }

    open spec fn objects(v: Double) -> bool {
        false
    }

    fn start() -> (r: OnesCell) {
        OnesCell { ones: zero() }
    }

    fn see(self, n: Double, v: Double) -> (r: OnesCell) {
        if v.gt(half()) {
            OnesCell { ones: self.ones.plus(one()) }
        } else {
            self
        }
    }

    fn is_objected(v: Double) -> (r: bool) {
        false
    }
}

/// Naive Bayes with a normal law per column and class.
#[derive(Clone, Debug)]
pub struct OnlineGaussianNb {
    /// Classes with their statistics.
    pub bank: ClassBank<MomentCell>,
}

impl Default for OnlineGaussianNb {
    fn default() -> (r: OnlineGaussianNb)
        ensures
            r.blank(),
    {
        OnlineGaussianNb::new()
    }
}

impl OnlineGaussianNb {
    /// The state before any row.
    pub open spec fn blank(&self) -> bool {
        &&& self.bank@ == ClassState::<MomentCell>::blank()
        &&& self.bank.wf()
    }

    /// A classifier without classes.
    pub fn new() -> (r: OnlineGaussianNb)
        ensures
            r.blank(),
    {
        OnlineGaussianNb { bank: ClassBank::new() }
    }

    /// Takes in a batch, unless it has no target or its column count does not fit.
    pub fn partial_fit(&mut self, x: &Matrix, y: Option<&Vec<Double>>) -> (r: Update)
        requires
            x.wf(),
            y is Some && (!old(self).bank.initialized || old(self).bank.width == x.width) ==> x.height() <= y->0@.len(),
            old(self).bank.wf(),
            old(self).bank.room(x.height()),
        ensures
            final(self).bank.wf(),
            old(self).bank.answers(&final(self).bank, x, target(y), false, &r),
    {
        self.bank.partial_fit(x, y, false)
    }

    /// Columns that a row shares with the statistics.
    pub open spec fn shared(&self, row: Seq<Double>) -> nat {
        if row.len() < self.bank.width {
            row.len()
        } else {
            self.bank.width as nat
        }
    }

    /// Logarithm of the share of class `c`.
    pub open spec fn prior(&self, c: int, ln: Curve) -> Double {
        ln(
            self.bank@.n_per[c].over(
                Double::from_u64(
                    if self.bank.n_seen < 1 {
                        1
                    } else {
                        self.bank.n_seen
                    },
                ),
            ).max(ten_to_minus_12()),
        )
    }

    /// What column `j` adds to the score of class `c`.
    pub open spec fn evidence(&self, c: int, j: int, v: Double, ln: Curve) -> Double {
        let cell = self.bank@.cells[c][j];
        let var = cell.m2.over(self.bank@.n_per[c].max(one())).max(ten_to_minus_6());
        let d = v.minus(cell.mean);
        neg_half().times(d.times(d).over(var).plus(ln(var)))
    }

    /// The score of class `c` over the first `k` columns of a row.
    pub open spec fn score_over(&self, c: int, row: Seq<Double>, ln: Curve, k: nat) -> Double
        decreases k,
    {
        if k == 0 {
            self.prior(c, ln)
        } else {
            self.score_over(c, row, ln, (k - 1) as nat).plus(self.evidence(c, k - 1, row[k - 1], ln))
        }
    }

    /// The score of class `c` for a row.
    pub open spec fn score(&self, c: int, row: Seq<Double>, ln: Curve) -> Double {
        self.score_over(c, row, ln, self.shared(row))
    }

    /// The scores of all classes for a row.
    pub open spec fn scores(&self, row: Seq<Double>, ln: Curve) -> Seq<Double> {
        Seq::new(self.bank@.classes.len(), |c: int| self.score(c, row, ln))
    }

    /// The label with the highest score, row by row.
    pub open spec fn predictions(&self, x: Batch, ln: Curve) -> Seq<Double> {
        Seq::new(
            x.height(),
            |i: int|
                {
                    let s = self.scores(x.rows[i], ln);
                    Double::from_i64(self.bank@.classes[winner(s, s.len()).0 as int])
                },
        )
    }

    fn score_of<F: Fn(Double) -> Double>(&self, c: usize, row: &Vec<Double>, ln: &F) -> (r: Double)
        requires
            self.bank.wf(),
            c < self.bank@.classes.len(),
            is_function(*ln),
        ensures
            r == self.score(c as int, row@, curve(*ln)),
    {
        let k: usize = if row.len() < self.bank.width {
            row.len()
        } else {
            self.bank.width
        };
        assert(self.bank@.cells[c as int] == self.bank.cells@[c as int]@);
        let mut s: Double = apply(
            ln,
            self.bank.n_per[c].over(
                Double::from_u64(
                    if self.bank.n_seen < 1 {
                        1
                    } else {
                        self.bank.n_seen
                    },
                ),
            ).max(ten_to_minus_12()),
        );
        let mut j: usize = 0;
        while j < k
            invariant
                j <= k,
                k <= row@.len(),
                k <= self.bank.width,
                k == self.shared(row@),
                self.bank.wf(),
                c < self.bank@.classes.len(),
                is_function(*ln),
                self.bank@.cells[c as int] == self.bank.cells@[c as int]@,
                s == self.score_over(c as int, row@, curve(*ln), j as nat),
            decreases k - j,
        {
            let cell: MomentCell = self.bank.cells[c][j];
            let var: Double = cell.m2.over(self.bank.n_per[c].max(one())).max(ten_to_minus_6());
            let d: Double = row[j].minus(cell.mean);
            s = s.plus(neg_half().times(d.times(d).over(var).plus(apply(ln, var))));
            j = j + 1;
        }
        s
    }

    /// The label with the highest score, or zeros before the first labelled row.
    /// `ln` is the natural logarithm.
    pub fn predict<F: Fn(Double) -> Double>(&self, x: &Matrix, ln: &F) -> (out: Qualified<Vec<Double>>)
        requires
            x.wf(),
            self.bank.wf(),
            is_function(*ln),
        ensures
            if self.bank@.classes.len() == 0 {
                &&& out.value@ == zero_seq(x.height())
                &&& out.report@ == seq![issue(IssueCode::PartialFitBeforeInit)]
            } else {
                &&& out.value@ == self.predictions(x@, curve(*ln))
                &&& out.report@.len() == 0
            },
    {
        if !self.bank.initialized {
            return unready(x.nrows());
        }
        let ghost want = self.predictions(x@, curve(*ln));
        let k: usize = self.bank.classes.len();
        let mut value: Vec<Double> = Vec::new();
        let mut i: usize = 0;
        while i < x.nrows()
            invariant
                i <= x.height(),
                x.wf(),
                self.bank.wf(),
                is_function(*ln),
                k == self.bank@.classes.len(),
                k > 0,
                want == self.predictions(x@, curve(*ln)),
                value@ == want.take(i as int),
            decreases x.height() - i,
        {
            assert(x@.rows[i as int] == x.rows@[i as int]@);
            assert(x.rows[i as int]@.len() == x.width);
            let mut scores: Vec<Double> = Vec::new();
            let mut c: usize = 0;
            while c < k
                invariant
                    c <= k,
                    i < x.height(),
                    x.wf(),
                    self.bank.wf(),
                    is_function(*ln),
                    k == self.bank@.classes.len(),
                    scores@ == self.scores(x.rows@[i as int]@, curve(*ln)).take(c as int),
                decreases k - c,
            {
                scores.push(self.score_of(c, &x.rows[i], ln));
                c = c + 1;
                assert(scores@ =~= self.scores(x.rows@[i as int]@, curve(*ln)).take(c as int));
            }
            assert(scores@ =~= self.scores(x.rows@[i as int]@, curve(*ln)));
            let best: usize = find_winner(&scores);
            value.push(Double::from_i64(self.bank.classes[best]));
            i = i + 1;
            assert(value@ =~= want.take(i as int));
        }
        assert(value@ =~= want);
        Qualified { value, report: Vec::new() }
    }
}

fn total_of(v: &Vec<Double>) -> (r: Double)
    ensures
        r == running_sum(v@, v@.len()),
{
    let mut r: Double = zero();
    let mut i: usize = 0;
    while i < v.len()
        invariant
            i <= v@.len(),
            r == running_sum(v@, i as nat),
        decreases v@.len() - i,
    {
        r = r.plus(v[i]);
        i = i + 1;
    }
    r
}

/// Naive Bayes on counts. Negative counts are skipped with a warning.
#[derive(Clone, Debug)]
pub struct OnlineMultinomialNb {
    /// Additive smoothing.
    pub alpha: Double,
    /// Classes with their statistics.
    pub bank: ClassBank<CountCell>,
}

impl Default for OnlineMultinomialNb {
    fn default() -> (r: OnlineMultinomialNb)
        ensures
            r.blank(),
    {
        OnlineMultinomialNb::new()
    }
}

impl OnlineMultinomialNb {
    /// The state before any row.
    pub open spec fn blank(&self) -> bool {
        &&& self.bank@ == ClassState::<CountCell>::blank()
        &&& self.bank.wf()
        &&& self.alpha == one()
    }

    /// A classifier without classes.
    pub fn new() -> (r: OnlineMultinomialNb)
        ensures
            r.blank(),
    {
        OnlineMultinomialNb { alpha: one(), bank: ClassBank::new() }
    }

    /// Takes in a batch, unless it has no target or its column count does not fit.
    pub fn partial_fit(&mut self, x: &Matrix, y: Option<&Vec<Double>>) -> (r: Update)
        requires
            x.wf(),
            y is Some && (!old(self).bank.initialized || old(self).bank.width == x.width) ==> x.height() <= y->0@.len(),
            old(self).bank.wf(),
            old(self).bank.room(x.height()),
        ensures
            final(self).bank.wf(),
            old(self).bank.answers(&final(self).bank, x, target(y), true, &r),
            final(self).alpha == old(self).alpha,
    {
        self.bank.partial_fit(x, y, true)
    }

    /// Columns that a row shares with the statistics.
    pub open spec fn shared(&self, row: Seq<Double>) -> nat {
        if row.len() < self.bank.width {
            row.len()
        } else {
            self.bank.width as nat
        }
    }

    /// Logarithm of the smoothed share of class `c`.
    pub open spec fn prior(&self, c: int, ln: Curve) -> Double {
        let alpha = self.alpha.max(zero());
        let k = self.bank@.classes.len();
        ln(
            self.bank@.n_per[c].plus(alpha).over(
                running_sum(self.bank@.n_per, k).plus(alpha.times(Double::from_usize(k as usize))),
            ),
        )
    }

    /// Totals of the first `k` columns of class `c`.
    pub open spec fn totals(&self, c: int, k: nat) -> Double
        decreases k,
    {
        if k == 0 {
            zero()
        } else {
            self.totals(c, (k - 1) as nat).plus(self.bank@.cells[c][k - 1].total)
        }
    }

    /// Smoothed total of all columns of class `c`.
    pub open spec fn mass(&self, c: int) -> Double {
        self.totals(c, self.bank.width as nat).plus(self.alpha.max(zero()).times(Double::from_usize(self.bank.width)))
    }

    /// What column `j` adds to the score of class `c`.
    pub open spec fn evidence(&self, c: int, j: int, v: Double, ln: Curve) -> Double {
        v.max(zero()).times(ln(self.bank@.cells[c][j].total.plus(self.alpha.max(zero()))).minus(ln(self.mass(c))))
    }

    /// The score of class `c` over the first `k` columns of a row.
    pub open spec fn score_over(&self, c: int, row: Seq<Double>, ln: Curve, k: nat) -> Double
        decreases k,
    {
        if k == 0 {
            self.prior(c, ln)
        } else {
            self.score_over(c, row, ln, (k - 1) as nat).plus(self.evidence(c, k - 1, row[k - 1], ln))
        }
    }

    /// The score of class `c` for a row.
    pub open spec fn score(&self, c: int, row: Seq<Double>, ln: Curve) -> Double {
        self.score_over(c, row, ln, self.shared(row))
    }

    /// The scores of all classes for a row.
    pub open spec fn scores(&self, row: Seq<Double>, ln: Curve) -> Seq<Double> {
        Seq::new(self.bank@.classes.len(), |c: int| self.score(c, row, ln))
    }

    /// The label with the highest score, row by row.
    pub open spec fn predictions(&self, x: Batch, ln: Curve) -> Seq<Double> {
        Seq::new(
            x.height(),
            |i: int|
                {
                    let s = self.scores(x.rows[i], ln);
                    Double::from_i64(self.bank@.classes[winner(s, s.len()).0 as int])
                },
        )
    }

    fn score_of<F: Fn(Double) -> Double>(&self, c: usize, row: &Vec<Double>, ln: &F) -> (r: Double)
        requires
            self.bank.wf(),
            c < self.bank@.classes.len(),
            is_function(*ln),
        ensures
            r == self.score(c as int, row@, curve(*ln)),
    {
        let k: usize = if row.len() < self.bank.width {
            row.len()
        } else {
            self.bank.width
        };
        assert(self.bank@.cells[c as int] == self.bank.cells@[c as int]@);
        let alpha: Double = self.alpha.max(zero());
        let mut s: Double = apply(
            ln,
            self.bank.n_per[c].plus(alpha).over(
                total_of(&self.bank.n_per).plus(alpha.times(Double::from_usize(self.bank.classes.len()))),
            ),
        );
        let mut sum: Double = zero();
        let mut a: usize = 0;
        while a < self.bank.width
            invariant
                a <= self.bank.width,
                self.bank.wf(),
                c < self.bank@.classes.len(),
                self.bank@.cells[c as int] == self.bank.cells@[c as int]@,
                sum == self.totals(c as int, a as nat),
            decreases self.bank.width - a,
        {
            sum = sum.plus(self.bank.cells[c][a].total);
            a = a + 1;
        }
        let mass: Double = sum.plus(alpha.times(Double::from_usize(self.bank.width)));
        let mut j: usize = 0;
        while j < k
            invariant
                j <= k,
                k <= row@.len(),
                k <= self.bank.width,
                k == self.shared(row@),
                self.bank.wf(),
                c < self.bank@.classes.len(),
                is_function(*ln),
                self.bank@.cells[c as int] == self.bank.cells@[c as int]@,
                alpha == self.alpha.max(zero()),
                mass == self.mass(c as int),
                s == self.score_over(c as int, row@, curve(*ln), j as nat),
            decreases k - j,
        {
            let v: Double = row[j].max(zero());
            let share: Double = apply(ln, self.bank.cells[c][j].total.plus(alpha)).minus(apply(ln, mass));
            s = s.plus(v.times(share));
            j = j + 1;
        }
        s
    }

    /// The label with the highest score, or zeros before the first labelled row.
    /// `ln` is the natural logarithm.
    pub fn predict<F: Fn(Double) -> Double>(&self, x: &Matrix, ln: &F) -> (out: Qualified<Vec<Double>>)
        requires
            x.wf(),
            self.bank.wf(),
            is_function(*ln),
        ensures
            if self.bank@.classes.len() == 0 {
                &&& out.value@ == zero_seq(x.height())
                &&& out.report@ == seq![issue(IssueCode::PartialFitBeforeInit)]
            } else {
                &&& out.value@ == self.predictions(x@, curve(*ln))
                &&& out.report@.len() == 0
            },
    {
        if !self.bank.initialized {
            return unready(x.nrows());
        }
        let ghost want = self.predictions(x@, curve(*ln));
        let k: usize = self.bank.classes.len();
        let mut value: Vec<Double> = Vec::new();
        let mut i: usize = 0;
        while i < x.nrows()
            invariant
                i <= x.height(),
                x.wf(),
                self.bank.wf(),
                is_function(*ln),
                k == self.bank@.classes.len(),
                k > 0,
                want == self.predictions(x@, curve(*ln)),
                value@ == want.take(i as int),
            decreases x.height() - i,
        {
            assert(x@.rows[i as int] == x.rows@[i as int]@);
            assert(x.rows[i as int]@.len() == x.width);
            let mut scores: Vec<Double> = Vec::new();
            let mut c: usize = 0;
            while c < k
                invariant
                    c <= k,
                    i < x.height(),
                    x.wf(),
                    self.bank.wf(),
                    is_function(*ln),
                    k == self.bank@.classes.len(),
                    scores@ == self.scores(x.rows@[i as int]@, curve(*ln)).take(c as int),
                decreases k - c,
            {
                scores.push(self.score_of(c, &x.rows[i], ln));
                c = c + 1;
                assert(scores@ =~= self.scores(x.rows@[i as int]@, curve(*ln)).take(c as int));
            }
            assert(scores@ =~= self.scores(x.rows@[i as int]@, curve(*ln)));
            let best: usize = find_winner(&scores);
            value.push(Double::from_i64(self.bank.classes[best]));
            i = i + 1;
            assert(value@ =~= want.take(i as int));
        }
        assert(value@ =~= want);
        Qualified { value, report: Vec::new() }
    }
}

/// Naive Bayes on columns that are set or not: a value above one half is set.
#[derive(Clone, Debug)]
pub struct OnlineBernoulliNb {
    /// Additive smoothing.
    pub alpha: Double,
    /// Classes with their statistics.
    pub bank: ClassBank<OnesCell>,
}

impl Default for OnlineBernoulliNb {
    fn default() -> (r: OnlineBernoulliNb)
        ensures
            r.blank(),
    {
        OnlineBernoulliNb::new()
    }
}

impl OnlineBernoulliNb {
    /// The state before any row.
    pub open spec fn blank(&self) -> bool {
        &&& self.bank@ == ClassState::<OnesCell>::blank()
        &&& self.bank.wf()
        &&& self.alpha == one()
    }

    /// A classifier without classes.
    pub fn new() -> (r: OnlineBernoulliNb)
        ensures
            r.blank(),
    {
        OnlineBernoulliNb { alpha: one(), bank: ClassBank::new() }
    }

    /// Takes in a batch, unless it has no target or its column count does not fit.
    pub fn partial_fit(&mut self, x: &Matrix, y: Option<&Vec<Double>>) -> (r: Update)
        requires
            x.wf(),
            y is Some && (!old(self).bank.initialized || old(self).bank.width == x.width) ==> x.height() <= y->0@.len(),
            old(self).bank.wf(),
            old(self).bank.room(x.height()),
        ensures
            final(self).bank.wf(),
            old(self).bank.answers(&final(self).bank, x, target(y), true, &r),
            final(self).alpha == old(self).alpha,
    {
        self.bank.partial_fit(x, y, true)
    }

    /// Columns that a row shares with the statistics.
    pub open spec fn shared(&self, row: Seq<Double>) -> nat {
        if row.len() < self.bank.width {
            row.len()
        } else {
            self.bank.width as nat
        }
    }

    /// Logarithm of the smoothed share of class `c`.
    pub open spec fn prior(&self, c: int, ln: Curve) -> Double {
        let alpha = self.alpha.max(zero());
        let k = self.bank@.classes.len();
        ln(
            self.bank@.n_per[c].plus(alpha).over(
                running_sum(self.bank@.n_per, k).plus(alpha.times(Double::from_usize(k as usize))),
            ),
        )
    }

    /// Smoothed share of rows of class `c` in which column `j` is set.
    pub open spec fn rate(&self, c: int, j: int) -> Double {
        let alpha = self.alpha.max(zero());
        self.bank@.cells[c][j].ones.plus(alpha).over(
            self.bank@.n_per[c].plus(two().times(alpha)).max(ten_to_minus_12()),
        ).clamp(ten_to_minus_12(), one().minus(ten_to_minus_12()))
    }

    /// What column `j` adds to the score of class `c`.
    pub open spec fn evidence(&self, c: int, j: int, v: Double, ln: Curve) -> Double {
        let on = if v.gt(half()) {
            one()
        } else {
            zero()
        };
        let rate = self.rate(c, j);
        on.times(ln(rate)).plus(one().minus(on).times(ln(one().minus(rate))))
    }

    /// The score of class `c` over the first `k` columns of a row.
    pub open spec fn score_over(&self, c: int, row: Seq<Double>, ln: Curve, k: nat) -> Double
        decreases k,
    {
        if k == 0 {
            self.prior(c, ln)
        } else {
            self.score_over(c, row, ln, (k - 1) as nat).plus(self.evidence(c, k - 1, row[k - 1], ln))
        }
    }

    /// The score of class `c` for a row.
    pub open spec fn score(&self, c: int, row: Seq<Double>, ln: Curve) -> Double {
        self.score_over(c, row, ln, self.shared(row))
    }

    /// The scores of all classes for a row.
    pub open spec fn scores(&self, row: Seq<Double>, ln: Curve) -> Seq<Double> {
        Seq::new(self.bank@.classes.len(), |c: int| self.score(c, row, ln))
    }

    /// The label with the highest score, row by row.
    pub open spec fn predictions(&self, x: Batch, ln: Curve) -> Seq<Double> {
        Seq::new(
            x.height(),
            |i: int|
                {
                    let s = self.scores(x.rows[i], ln);
                    Double::from_i64(self.bank@.classes[winner(s, s.len()).0 as int])
                },
        )
    }

    fn score_of<F: Fn(Double) -> Double>(&self, c: usize, row: &Vec<Double>, ln: &F) -> (r: Double)
        requires
            self.bank.wf(),
            c < self.bank@.classes.len(),
            is_function(*ln),
        ensures
            r == self.score(c as int, row@, curve(*ln)),
    {
        let k: usize = if row.len() < self.bank.width {
            row.len()
        } else {
            self.bank.width
        };
        assert(self.bank@.cells[c as int] == self.bank.cells@[c as int]@);
        let alpha: Double = self.alpha.max(zero());
        let mut s: Double = apply(
            ln,
            self.bank.n_per[c].plus(alpha).over(
                total_of(&self.bank.n_per).plus(alpha.times(Double::from_usize(self.bank.classes.len()))),
            ),
        );
        let mut j: usize = 0;
        while j < k
            invariant
                j <= k,
                k <= row@.len(),
                k <= self.bank.width,
                k == self.shared(row@),
                self.bank.wf(),
                c < self.bank@.classes.len(),
                is_function(*ln),
                self.bank@.cells[c as int] == self.bank.cells@[c as int]@,
                alpha == self.alpha.max(zero()),
                s == self.score_over(c as int, row@, curve(*ln), j as nat),
            decreases k - j,
        {
            let rate: Double = self.bank.cells[c][j].ones.plus(alpha).over(
                self.bank.n_per[c].plus(two().times(alpha)).max(ten_to_minus_12()),
            ).clamp(ten_to_minus_12(), one().minus(ten_to_minus_12()));
            let on: Double = if row[j].gt(half()) {
                one()
            } else {
                zero()
            };
            s = s.plus(on.times(apply(ln, rate)).plus(one().minus(on).times(apply(ln, one().minus(rate)))));
            j = j + 1;
        }
        s
    }

    /// The label with the highest score, or zeros before the first labelled row.
    /// `ln` is the natural logarithm.
    pub fn predict<F: Fn(Double) -> Double>(&self, x: &Matrix, ln: &F) -> (out: Qualified<Vec<Double>>)
        requires
            x.wf(),
            self.bank.wf(),
            is_function(*ln),
        ensures
            if self.bank@.classes.len() == 0 {
                &&& out.value@ == zero_seq(x.height())
                &&& out.report@ == seq![issue(IssueCode::PartialFitBeforeInit)]
            } else {
                &&& out.value@ == self.predictions(x@, curve(*ln))
                &&& out.report@.len() == 0
            },
    {
        if !self.bank.initialized {
            return unready(x.nrows());
        }
        let ghost want = self.predictions(x@, curve(*ln));
        let k: usize = self.bank.classes.len();
        let mut value: Vec<Double> = Vec::new();
        let mut i: usize = 0;
        while i < x.nrows()
            invariant
                i <= x.height(),
                x.wf(),
                self.bank.wf(),
                is_function(*ln),
                k == self.bank@.classes.len(),
                k > 0,
                want == self.predictions(x@, curve(*ln)),
                value@ == want.take(i as int),
            decreases x.height() - i,
        {
            assert(x@.rows[i as int] == x.rows@[i as int]@);
            assert(x.rows[i as int]@.len() == x.width);
            let mut scores: Vec<Double> = Vec::new();
            let mut c: usize = 0;
            while c < k
                invariant
                    c <= k,
                    i < x.height(),
                    x.wf(),
                    self.bank.wf(),
                    is_function(*ln),
                    k == self.bank@.classes.len(),
                    scores@ == self.scores(x.rows@[i as int]@, curve(*ln)).take(c as int),
                decreases k - c,
            {
                scores.push(self.score_of(c, &x.rows[i], ln));
                c = c + 1;
                assert(scores@ =~= self.scores(x.rows@[i as int]@, curve(*ln)).take(c as int));
            }
            assert(scores@ =~= self.scores(x.rows@[i as int]@, curve(*ln)));
            let best: usize = find_winner(&scores);
            value.push(Double::from_i64(self.bank.classes[best]));
            i = i + 1;
            assert(value@ =~= want.take(i as int));
        }
        assert(value@ =~= want);
        Qualified { value, report: Vec::new() }
    }
}

/// Chooses the columns that tell the classes apart best.
#[derive(Clone, Debug)]
pub struct OnlineSelectKBest {
    /// Columns to keep.
    pub k: usize,
    /// Classes with their statistics.
    pub bank: ClassBank<FiniteMomentCell>,
}

/// Sums over the first `k` classes for one column.
pub struct Spread {
    /// Rows.
    pub rows: Double,
    /// Sum of the class means, each weighted by its rows.
    pub grand: Double,
}

/// The choice among `n` columns: those with the `k` highest scores, the earlier one
/// among equals.
pub open spec fn is_chosen(scores: Seq<Double>, n: nat, k: nat, j: int) -> bool {
    exists|a: int| 0 <= a < k && a < n && #[trigger] ranking(scores, true, n)[a] == j
}

/// The chosen ones among the first `m` columns, in ascending order.
pub open spec fn chosen_columns(scores: Seq<Double>, n: nat, k: nat, m: nat) -> Seq<usize>
    decreases m,
{
    if m == 0 {
        Seq::empty()
    } else if is_chosen(scores, n, k, m - 1) {
        chosen_columns(scores, n, k, (m - 1) as nat).push((m - 1) as usize)
    } else {
        chosen_columns(scores, n, k, (m - 1) as nat)
    }
}

fn choose_columns(scores: &Vec<Double>, k: usize) -> (keep: Vec<usize>)
    ensures
        keep@ == chosen_columns(scores@, scores@.len(), k as nat, scores@.len()),
        forall|c: int| 0 <= c < keep@.len() ==> (#[trigger] keep@[c]) < scores@.len(),
{
    let n: usize = scores.len();
    let order = rank(scores, true);
    let mut keep: Vec<usize> = Vec::new();
    let mut j: usize = 0;
    while j < n
        invariant
            j <= n,
            n == scores@.len(),
            order@ == ranking(scores@, true, n as nat),
            order@.len() == n,
            keep@ == chosen_columns(scores@, n as nat, k as nat, j as nat),
            forall|c: int| 0 <= c < keep@.len() ==> (#[trigger] keep@[c]) < n,
        decreases n - j,
    {
        let mut found: bool = false;
        let mut a: usize = 0;
        while a < k && a < n
            invariant
                a <= k,
                a <= n,
                n == scores@.len(),
                order@ == ranking(scores@, true, n as nat),
                order@.len() == n,
                found == exists|b: int| 0 <= b < a && #[trigger] order@[b] == j,
            decreases n - a,
        {
            if order[a] == j {
                found = true;
                assert(order@[a as int] == j);
            }
            a = a + 1;
        }
        assert(found == is_chosen(scores@, n as nat, k as nat, j as int));
        if found {
            keep.push(j);
        }
        j = j + 1;
    }
    keep
}

impl Default for OnlineSelectKBest {
    fn default() -> (r: OnlineSelectKBest)
        ensures
            r.blank(1),
    {
        OnlineSelectKBest::new(1)
    }
}

impl OnlineSelectKBest {
    /// The state before any row.
    pub open spec fn blank(&self, k: usize) -> bool {
        &&& self.k == k
        &&& self.bank@ == ClassState::<FiniteMomentCell>::blank()
        &&& self.bank.wf()
    }

    /// Keeps the `k` columns with the highest ratio of the variance between classes
    /// to the variance within them.
    pub fn new(k: usize) -> (r: OnlineSelectKBest)
        ensures
            r.blank(k),
    {
        OnlineSelectKBest { k, bank: ClassBank::new() }
    }

    /// Rows and weighted means of the first `c` classes.
    pub open spec fn gathered(&self, j: int, c: nat) -> Spread
        decreases c,
    {
        if c == 0 {
            Spread { rows: zero(), grand: zero() }
        } else {
            let before = self.gathered(j, (c - 1) as nat);
            let n = self.bank@.n_per[c - 1];
            Spread {
                rows: before.rows.plus(n),
                grand: before.grand.plus(n.times(self.bank@.cells[c - 1][j].mean)),
            }
        }
    }

    /// Sum of squares between the first `c` classes.
    pub open spec fn between(&self, j: int, grand: Double, c: nat) -> Double
        decreases c,
    {
        if c == 0 {
            zero()
        } else {
            let d = self.bank@.cells[c - 1][j].mean.minus(grand);
            self.between(j, grand, (c - 1) as nat).plus(self.bank@.n_per[c - 1].times(d).times(d))
        }
    }

    /// Sum of squares within the first `c` classes.
    pub open spec fn within(&self, j: int, c: nat) -> Double
        decreases c,
    {
        if c == 0 {
            zero()
        } else {
            self.within(j, (c - 1) as nat).plus(self.bank@.cells[c - 1][j].m2)
        }
    }

    /// Variance ratio of column `j`. Without variance within the classes it is
    /// infinite, unless the variance between them vanishes too; zero with fewer than
    /// two classes.
    pub open spec fn score(&self, j: int) -> Double {
        let k = self.bank@.classes.len();
        let classes = Double::from_usize(k as usize);
        let g = self.gathered(j, k);
        let ssb = self.between(j, g.grand.over(g.rows), k);
        let ssw = self.within(j, k);
        if k < 2 || g.rows.le(zero()) {
            zero()
        } else if ssw.le(ten_to_minus_18()) {
            if ssb.gt(ten_to_minus_18()) {
                infinity()
            } else {
                zero()
            }
        } else {
            ssb.over(classes.minus(one()).max(one())).over(ssw.over(g.rows.minus(classes).max(one())))
        }
    }

    /// The variance ratios of the first `n` columns.
    pub open spec fn scores_spec(&self, n: nat) -> Seq<Double> {
        Seq::new(n, |j: int| self.score(j))
    }

    fn score_of(&self, j: usize) -> (r: Double)
        requires
            self.bank.wf(),
            j < self.bank.width,
        ensures
            r == self.score(j as int),
    {
        let k: usize = self.bank.classes.len();
        if k < 2 {
            return zero();
        }
        let mut rows: Double = zero();
        let mut grand: Double = zero();
        let mut c: usize = 0;
        while c < k
            invariant
                c <= k,
                k == self.bank@.classes.len(),
                self.bank.wf(),
                j < self.bank.width,
                rows == self.gathered(j as int, c as nat).rows,
                grand == self.gathered(j as int, c as nat).grand,
            decreases k - c,
        {
            assert(self.bank@.cells[c as int] == self.bank.cells@[c as int]@);
            let n: Double = self.bank.n_per[c];
            rows = rows.plus(n);
            grand = grand.plus(n.times(self.bank.cells[c][j].mean));
            c = c + 1;
        }
        if rows.le(zero()) {
            return zero();
        }
        let center: Double = grand.over(rows);
        let mut ssb: Double = zero();
        let mut ssw: Double = zero();
        let mut c: usize = 0;
        while c < k
            invariant
                c <= k,
                k == self.bank@.classes.len(),
                self.bank.wf(),
                j < self.bank.width,
                ssb == self.between(j as int, center, c as nat),
                ssw == self.within(j as int, c as nat),
            decreases k - c,
        {
            assert(self.bank@.cells[c as int] == self.bank.cells@[c as int]@);
            let d: Double = self.bank.cells[c][j].mean.minus(center);
            ssb = ssb.plus(self.bank.n_per[c].times(d).times(d));
            ssw = ssw.plus(self.bank.cells[c][j].m2);
            c = c + 1;
        }
        let classes: Double = Double::from_usize(k);
        if ssw.le(ten_to_minus_18()) {
            return if ssb.gt(ten_to_minus_18()) {
                infinity()
            } else {
                zero()
            };
        }
        ssb.over(classes.minus(one()).max(one())).over(ssw.over(rows.minus(classes).max(one())))
    }

    /// The variance ratios of the first `n` columns.
    pub fn scores(&self, n: usize) -> (r: Vec<Double>)
        requires
            self.bank.wf(),
            n <= self.bank.width,
        ensures
            r@ == self.scores_spec(n as nat),
    {
        let mut r: Vec<Double> = Vec::new();
        let mut j: usize = 0;
        while j < n
            invariant
                j <= n,
                n <= self.bank.width,
                self.bank.wf(),
                r@ == self.scores_spec(j as nat),
            decreases n - j,
        {
            r.push(self.score_of(j));
            j = j + 1;
            assert(r@ =~= self.scores_spec(j as nat));
        }
        r
    }

    /// Issues about the batch and the setting.
    pub open spec fn early_issues(&self, x: &Matrix, y: Seq<Double>) -> Seq<Issue> {
        if self.k == 0 {
            shape_issues(x, Some(y)).push(warning(IssueCode::InvalidWeight))
        } else {
            shape_issues(x, Some(y))
        }
    }

    /// What a batch does.
    pub open spec fn answers(&self, after: &OnlineSelectKBest, x: &Matrix, y: Option<Seq<Double>>, r: &Update) -> bool {
        let refused = IncrementalQuality::new(self.bank.updates, x.height() as usize, self.bank.n_seen);
        if y is None {
            &&& *after == *self
            &&& reports(r, refused, shape_issues(x, y).push(issue(IssueCode::MissingTarget)), false)
        } else if self.bank@.misfits(x@) {
            &&& *after == *self
            &&& reports(
                r,
                refused,
                self.early_issues(x, y->0).push(issue(IssueCode::FeatureSpaceChangedOnline)),
                false,
            )
        } else {
            &&& after.k == self.k
            &&& after.bank@ == self.bank@.taught(x@, y->0)
            &&& reports(
                r,
                after.bank@.figures(self.bank.n_seen as nat, x.height() as usize),
                if after.bank@.classes.len() < 2 {
                    self.early_issues(x, y->0).push(warning(IssueCode::InsufficientSample))
                } else {
                    self.early_issues(x, y->0)
                },
                true,
            )
        }
    }

    /// Takes in a batch, unless it has no target or its column count does not fit.
    pub fn partial_fit(&mut self, x: &Matrix, y: Option<&Vec<Double>>) -> (r: Update)
        requires
            x.wf(),
            y is Some && (!old(self).bank.initialized || old(self).bank.width == x.width) ==> x.height() <= y->0@.len(),
            old(self).bank.wf(),
            old(self).bank.room(x.height()),
        ensures
            final(self).bank.wf(),
            old(self).answers(final(self), x, target(y), &r),
    {
        let n: usize = x.nrows();
        let mut issues: Vec<Issue> = Vec::new();
        inspect_online_xy(&mut issues, x, y);
        assert(issues@ =~= shape_issues(x, target(y)));
        let t: &Vec<Double> = match y {
            None => {
                issues.push(issue(IssueCode::MissingTarget));
                return rejection(self.bank.updates, n, self.bank.n_seen, issues);
            },
            Some(t) => t,
        };
        if self.k == 0 {
            issues.push(warning(IssueCode::InvalidWeight));
        }
        if self.bank.initialized && self.bank.width != x.ncols() {
            issues.push(issue(IssueCode::FeatureSpaceChangedOnline));
            return rejection(self.bank.updates, n, self.bank.n_seen, issues);
        }
        let before: u64 = self.bank.n_seen;
        let ghost early = issues@;
        self.bank.absorb(x, t, &mut issues);
        proof {
            lemma_no_objections(x@, t@, x.height());
            assert(issues@ =~= early);
        }
        if self.bank.classes.len() < 2 {
            issues.push(warning(IssueCode::InsufficientSample));
        }
        let quality = self.bank.describe(before, n);
        screened_report(quality, issues)
    }

    /// Columns that a batch shares with the statistics.
    pub open spec fn shared(&self, width: usize) -> usize {
        if self.bank.width < width {
            self.bank.width
        } else {
            width
        }
    }

    /// The columns that are kept.
    pub open spec fn kept(&self, width: usize) -> Seq<usize> {
        let n = self.shared(width) as nat;
        chosen_columns(self.scores_spec(n), n, self.k as nat, n)
    }

    /// The chosen columns in their order, or none before the first labelled row.
    pub fn transform(&self, x: &Matrix) -> (out: Qualified<Matrix>)
        requires
            x.wf(),
            self.bank.wf(),
        ensures
            out.value.wf(),
            out.value.height() == x.height(),
            if !self.bank.initialized {
                &&& out.value.width == 0
                &&& out.report@ == seq![issue(IssueCode::PartialFitBeforeInit)]
            } else {
                &&& out.value.width == self.kept(x.width).len()
                &&& forall|i: int, c: int|
                    0 <= i < x.height() && 0 <= c < self.kept(x.width).len() ==> #[trigger] out.value.at(i, c) == x.at(
                        i,
                        self.kept(x.width)[c] as int,
                    )
                &&& out.report@.len() == 0
            },
    {
        if !self.bank.initialized {
            let mut report: Vec<Issue> = Vec::new();
            report.push(issue(IssueCode::PartialFitBeforeInit));
            assert(report@ =~= seq![issue(IssueCode::PartialFitBeforeInit)]);
            return Qualified { value: Matrix::zeros(x.nrows(), 0), report };
        }
        let n: usize = if self.bank.width < x.ncols() {
            self.bank.width
        } else {
            x.ncols()
        };
        let scores = self.scores(n);
        let keep = choose_columns(&scores, self.k);
        let value = select_columns(x, &keep);
        Qualified { value, report: Vec::new() }
    }
}

proof fn lemma_no_objections_in(row: Seq<Double>, k: nat)
    ensures
        crate::streaming::classes::objections_in::<FiniteMomentCell>(row, k) == 0,
    decreases k,
{
    if k > 0 {
        lemma_no_objections_in(row, (k - 1) as nat);
    }
}

proof fn lemma_no_objections(x: Batch, y: Seq<Double>, k: nat)
    ensures
        objections::<FiniteMomentCell>(x, y, k) == 0,
    decreases k,
{
    if k > 0 {
        lemma_no_objections(x, y, (k - 1) as nat);
        lemma_no_objections_in(x.rows[k - 1], x.rows[k - 1].len());
    }
}

/// The chosen columns come in ascending order, belong to the batch, and are exactly
/// those that rank among the best.
pub proof fn law_chosen_columns(scores: Seq<Double>, k: nat, m: nat)
    requires
        m <= scores.len() <= usize::MAX,
    ensures
        ({
            let c = chosen_columns(scores, scores.len(), k, m);
            &&& forall|a: int| 0 <= a < c.len() ==> (#[trigger] c[a]) < m
            &&& forall|a: int, b: int| 0 <= a < b < c.len() ==> c[a] < c[b]
            &&& forall|j: usize| j < m ==> (#[trigger] c.contains(j) <==> is_chosen(scores, scores.len(), k, j as int))
        }),
    decreases m,
{
    if m > 0 {
        law_chosen_columns(scores, k, (m - 1) as nat);
        let n = scores.len();
        let before = chosen_columns(scores, n, k, (m - 1) as nat);
        let c = chosen_columns(scores, n, k, m);
        assert forall|j: usize| j < m implies (#[trigger] c.contains(j) <==> is_chosen(scores, n, k, j as int)) by {
            if j < m - 1 {
                assert(before.contains(j) <==> is_chosen(scores, n, k, j as int));
                if before.contains(j) {
                    let a = choose|a: int| 0 <= a < before.len() && before[a] == j;
                    assert(c[a] == j);
                }
                if c.contains(j) {
                    let a = choose|a: int| 0 <= a < c.len() && c[a] == j;
                    assert(a < before.len() ==> before[a] == j);
                }
            } else {
                if is_chosen(scores, n, k, j as int) {
                    assert(c[before.len() as int] == j);
                } else {
                    if c.contains(j) {
                        let a = choose|a: int| 0 <= a < c.len() && c[a] == j;
                        assert(before[a] < m - 1);
                    }
                }
            }
        }
    }
}

} // verus!
