//! Recursive least squares with a forgetting factor.

use crate::constants::thousand;
use crate::data::{
    copy, difference, dot, dot_of, max_abs, max_abs_of, norm, norm_of, subtract, zero_seq, zeros, Matrix,
};
use crate::double::{
    law_plus_commutes, law_times_commutes, lemma_fraction_shrinks, lemma_one, lemma_plus_is_monotone,
    lemma_plus_zero, lemma_times_one, lemma_whole_is_exact, lemma_wholes_add, lemma_zero, lemma_zero_magnitude, one, zero, Double,
};
use crate::errors::{close_dot, exact_dot, law_dot_is_close};
use crate::online::common::{inspect_online_xy, shape_issues, stacked};
use crate::online::variance_threshold::{all_finite, find_bad_cell, finite_seq, has_bad_cell};
use crate::quality::{
    given, issue, raise, Failure, IncrementalQuality, Issue, IssueCode, Policy, Qualified, Update,
};
use crate::scaling::{
    full, is_factor, lemma_factors_are_finite, lemma_negated_multiples, lemma_product_of_multiples, lemma_sum_of_multiples,
    lemma_terms_are_finite, multiple, resizes,
};
use vstd::arithmetic::power2::*;
use vstd::prelude::*;

verus! {

/// Online recursive least squares with a forgetting factor.
///
/// The state is the coefficient vector and the inverse Gram matrix. A batch
/// that is refused, by a check or by its arithmetic, leaves all of it alone.
#[derive(Clone, Debug)]
pub struct LinearRegression {
    /// Forgetting factor in `(0, 1]`; 1 keeps all observations.
    pub forgetting_factor: Double,
    /// Whether a column of ones is put in front.
    pub fit_intercept: bool,
    /// The inverse Gram matrix starts as `p0` times the identity.
    pub p0: Double,
    /// Coefficients, the intercept first where there is one.
    pub theta: Vec<Double>,
    /// Inverse Gram matrix.
    pub p_mat: Option<Matrix>,
    /// Column count of the first batch.
    pub n_features: usize,
    /// `fit_intercept` at the first batch.
    pub initialized_fit_intercept: bool,
    /// Sum of the weights of all observations.
    pub effective_sample_size: Double,
    /// Rows taken in.
    pub n_seen: u64,
    /// Batches accepted.
    pub updates: u64,
    /// Whether a batch was accepted.
    pub initialized: bool,
}

/// The part of the state that the recursion carries from row to row.
#[derive(Clone, Debug)]
pub struct Recursion {
    /// Coefficients.
    pub theta: Vec<Double>,
    /// Inverse Gram matrix.
    pub p: Matrix,
    /// Sum of squared residuals before each step.
    pub information: Double,
    /// Sum of the weights.
    pub effective: Double,
}

/// Mathematical content of a `Recursion`.
pub struct Model {
    /// Coefficients.
    pub theta: Seq<Double>,
    /// Rows of the inverse Gram matrix.
    pub p: Seq<Seq<Double>>,
    /// Sum of squared residuals before each step.
    pub information: Double,
    /// Sum of the weights.
    pub effective: Double,
}

/// The design row for a row of data.
pub open spec fn design_of(row: Seq<Double>, fit_intercept: bool) -> Seq<Double> {
    if fit_intercept {
        seq![one()] + row
    } else {
        row
    }
}

/// Row `i` of the design.
pub open spec fn design(x: &Matrix, i: int, fit_intercept: bool) -> Seq<Double> {
    design_of(x.rows@[i]@, fit_intercept)
}

/// Row `i` of the design.
pub fn design_row(x: &Matrix, i: usize, fit_intercept: bool) -> (z: Vec<Double>)
    requires
        x.wf(),
        i < x.height(),
    ensures
        z@ == design(x, i as int, fit_intercept),
        z@.len() == dimension(x.width as nat, fit_intercept),
{
    if fit_intercept {
        let mut z: Vec<Double> = Vec::new();
        z.push(one());
        let mut rest = x.row(i);
        z.append(&mut rest);
        assert(z@ =~= design(x, i as int, true));
        z
    } else {
        x.row(i)
    }
}

/// Number of parameters for `p` columns.
pub open spec fn dimension(p: nat, fit_intercept: bool) -> nat {
    if fit_intercept {
        p + 1
    } else {
        p
    }
}

/// Product of a matrix and a vector.
pub open spec fn product(p: Seq<Seq<Double>>, z: Seq<Double>) -> Seq<Double> {
    Seq::new(z.len(), |r: int| dot_of(p[r], z, z.len()))
}

/// Entry of the inverse Gram matrix after a step, for a row at or above the column.
pub open spec fn downdated(p: Seq<Seq<Double>>, pz: Seq<Double>, denominator: Double, lambda: Double, r: int, c: int) -> Double {
    p[r][c].minus(pz[r].times(pz[c]).over(denominator)).over(lambda)
}

/// The inverse Gram matrix after a step: the upper triangle, mirrored.
pub open spec fn next_gram(p: Seq<Seq<Double>>, pz: Seq<Double>, denominator: Double, lambda: Double) -> Seq<Seq<Double>> {
    Seq::new(
        pz.len(),
        |r: int|
            Seq::new(
                pz.len(),
                |c: int|
                    if r <= c {
                        downdated(p, pz, denominator, lambda, r, c)
                    } else {
                        downdated(p, pz, denominator, lambda, c, r)
                    },
            ),
    )
}

/// Every entry on and above the diagonal is finite, and the diagonal is positive.
pub open spec fn proper_gram(p: Seq<Seq<Double>>) -> bool {
    forall|r: int, c: int|
        #![trigger p[r][c]]
        0 <= r <= c < p.len() ==> p[r][c].is_finite() && (r == c ==> p[r][c].gt(zero()))
}

impl Model {
    /// The denominator of the gain for a design row.
    pub open spec fn denominator(self, z: Seq<Double>, lambda: Double) -> Double {
        lambda.plus(dot_of(z, product(self.p, z), z.len()))
    }

    /// The recursion after one row, whatever the size of its figures.
    pub open spec fn moved(self, z: Seq<Double>, y: Double, lambda: Double) -> Model {
        let pz = product(self.p, z);
        let denominator = self.denominator(z, lambda);
        let residual = y.minus(dot_of(z, self.theta, z.len()));
        Model {
            theta: Seq::new(
                self.theta.len(),
                |k: int| self.theta[k].plus(pz[k].over(denominator).times(residual)),
            ),
            p: next_gram(self.p, pz, denominator, lambda),
            information: self.information.plus(residual.times(residual)),
            effective: lambda.times(self.effective).plus(one()),
        }
    }

    /// The recursion after one row, or why there is none.
    pub open spec fn observed(self, z: Seq<Double>, y: Double, lambda: Double) -> Result<Model, IssueCode> {
        let denominator = self.denominator(z, lambda);
        let next = self.moved(z, y, lambda);
        if !denominator.is_finite() || denominator.le(zero()) {
            Err(IssueCode::NearSingular)
        } else if next.information.is_finite() && next.effective.is_finite() && finite_seq(next.theta) && proper_gram(
            next.p,
        ) {
            Ok(next)
        } else {
            Err(IssueCode::NonFiniteOutput)
        }
    }

    /// The recursion after the first `k` rows.
    pub open spec fn after(
        self,
        x: &Matrix,
        y: Seq<Double>,
        fit_intercept: bool,
        lambda: Double,
        k: nat,
    ) -> Result<Model, IssueCode>
        decreases k,
    {
        if k == 0 {
            Ok(self)
        } else {
            match self.after(x, y, fit_intercept, lambda, (k - 1) as nat) {
                Ok(model) => model.observed(design(x, k - 1, fit_intercept), y[k - 1], lambda),
                Err(code) => Err(code),
            }
        }
    }
}

/// Prediction from the first `k` columns.
pub open spec fn linear_prediction(row: Seq<Double>, theta: Seq<Double>, fit_intercept: bool, k: nat) -> Double
    decreases k,
{
    if k == 0 {
        if fit_intercept {
            theta[0]
        } else {
            zero()
        }
    } else {
        linear_prediction(row, theta, fit_intercept, (k - 1) as nat).plus(
            theta[if fit_intercept {
                k as int
            } else {
                k - 1
            }].times(row[k - 1]),
        )
    }
}

/// Sum of squared errors over the first `k` rows.
pub open spec fn squared_error(x: &Matrix, y: Seq<Double>, theta: Seq<Double>, fit_intercept: bool, k: nat) -> Double
    decreases k,
{
    if k == 0 {
        zero()
    } else {
        let residual = linear_prediction(x.rows@[k - 1]@, theta, fit_intercept, x.width as nat).minus(y[k - 1]);
        squared_error(x, y, theta, fit_intercept, (k - 1) as nat).plus(residual.times(residual))
    }
}

/// Mean squared error, where it is finite.
pub open spec fn mean_squared_error(x: &Matrix, y: Seq<Double>, theta: Seq<Double>, fit_intercept: bool) -> Option<Double> {
    let mse = squared_error(x, y, theta, fit_intercept, x.height()).over(Double::from_usize(x.height() as usize));
    if mse.is_finite() {
        Some(mse)
    } else {
        None
    }
}

fn mse_with_theta(x: &Matrix, y: &Vec<Double>, theta: &Vec<Double>, fit_intercept: bool) -> (r: Option<Double>)
    requires
        x.wf(),
        y@.len() == x.height(),
        theta@.len() == dimension(x.width as nat, fit_intercept),
    ensures
        r == mean_squared_error(x, y@, theta@, fit_intercept),
{
    let mut total: Double = zero();
    let mut i: usize = 0;
    while i < x.nrows()
        invariant
            i <= x.height(),
            x.wf(),
            y@.len() == x.height(),
            theta@.len() == dimension(x.width as nat, fit_intercept),
            total == squared_error(x, y@, theta@, fit_intercept, i as nat),
        decreases x.height() - i,
    {
        let mut prediction: Double = if fit_intercept {
            theta[0]
        } else {
            zero()
        };
        let mut j: usize = 0;
        while j < x.ncols()
            invariant
                i < x.height(),
                j <= x.width,
                x.wf(),
                theta@.len() == dimension(x.width as nat, fit_intercept),
                prediction == linear_prediction(x.rows@[i as int]@, theta@, fit_intercept, j as nat),
            decreases x.width - j,
        {
            let k: usize = if fit_intercept {
                j + 1
            } else {
                j
            };
            prediction = prediction.plus(theta[k].times(x.get(i, j)));
            j = j + 1;
        }
        let residual: Double = prediction.minus(y[i]);
        total = total.plus(residual.times(residual));
        i = i + 1;
    }
    let mse: Double = total.over(Double::from_usize(x.nrows()));
    if mse.is_finite() {
        Some(mse)
    } else {
        None
    }
}

impl Recursion {
    /// Mathematical content.
    pub open spec fn model(&self) -> Model {
        Model {
            theta: self.theta@,
            p: self.p.grid(),
            information: self.information,
            effective: self.effective,
        }
    }

    /// `d` coefficients and a `d` by `d` matrix.
    pub open spec fn wf(&self, d: nat) -> bool {
        &&& self.theta@.len() == d
        &&& self.p.wf()
        &&& self.p.height() == d
        &&& self.p.width == d
    }

    fn observe(&self, z: &Vec<Double>, y: Double, lambda: Double) -> (r: Result<Recursion, IssueCode>)
        requires
            self.wf(z@.len()),
        ensures
            match (r, self.model().observed(z@, y, lambda)) {
                (Ok(next), Ok(model)) => next.wf(z@.len()) && next.model() == model,
                (Err(code), Err(expected)) => code == expected,
                _ => false,
            },
    {
        let ghost m = self.model();
        let d: usize = z.len();
        let mut pz: Vec<Double> = Vec::new();
        let mut r: usize = 0;
        while r < d
            invariant
                r <= d,
                d == z@.len(),
                self.wf(z@.len()),
                m == self.model(),
                pz@ == product(m.p, z@).take(r as int),
            decreases d - r,
        {
            assert(self.p.rows@[r as int]@ == m.p[r as int]);
            let s: Double = dot(&self.p.rows[r], z);
            pz.push(s);
            r = r + 1;
            assert(pz@ =~= product(m.p, z@).take(r as int));
        }
        assert(pz@ =~= product(m.p, z@));
        let denominator: Double = lambda.plus(dot(z, &pz));
        if !denominator.is_finite() || denominator.le(zero()) {
            return Err(IssueCode::NearSingular);
        }
        let ghost next_model = m.moved(z@, y, lambda);
        let residual: Double = y.minus(dot(z, &self.theta));
        let information: Double = self.information.plus(residual.times(residual));
        let effective: Double = lambda.times(self.effective).plus(one());
        let mut theta: Vec<Double> = Vec::new();
        let mut k: usize = 0;
        while k < d
            invariant
                k <= d,
                d == z@.len(),
                self.wf(z@.len()),
                m == self.model(),
                pz@ == product(m.p, z@),
                denominator == m.denominator(z@, lambda),
                residual == y.minus(dot_of(z@, m.theta, z@.len())),
                next_model == m.moved(z@, y, lambda),
                theta@ == next_model.theta.take(k as int),
            decreases d - k,
        {
            theta.push(self.theta[k].plus(pz[k].over(denominator).times(residual)));
            k = k + 1;
            assert(theta@ =~= next_model.theta.take(k as int));
        }
        assert(theta@ =~= next_model.theta);
        let p = self.next_inverse(&pz, denominator, lambda);
        assert(p.grid() =~= next_model.p);
        let next = Recursion { theta, p, information, effective };
        assert(next.model() == next_model);
        if information.is_finite() && effective.is_finite() && all_finite(&next.theta) && next.proper() {
            Ok(next)
        } else {
            Err(IssueCode::NonFiniteOutput)
        }
    }

    fn next_inverse(&self, pz: &Vec<Double>, denominator: Double, lambda: Double) -> (p: Matrix)
        requires
            self.wf(pz@.len()),
        ensures
            p.wf(),
            p.height() == pz@.len(),
            p.width == pz@.len(),
            p.grid() == next_gram(self.model().p, pz@, denominator, lambda),
    {
        let ghost g = self.model().p;
        let ghost expected = next_gram(g, pz@, denominator, lambda);
        let d: usize = pz.len();
        let mut rows: Vec<Vec<Double>> = Vec::new();
        let mut r: usize = 0;
        while r < d
            invariant
                r <= d,
                d == pz@.len(),
                self.wf(d as nat),
                g == self.model().p,
                expected == next_gram(g, pz@, denominator, lambda),
                rows@.len() == r,
                forall|a: int| 0 <= a < r ==> (#[trigger] rows@[a])@ == expected[a],
            decreases d - r,
        {
            let mut row: Vec<Double> = Vec::new();
            let mut c: usize = 0;
            while c < d
                invariant
                    r < d,
                    c <= d,
                    d == pz@.len(),
                    self.wf(d as nat),
                    g == self.model().p,
                    expected == next_gram(g, pz@, denominator, lambda),
                    row@ == expected[r as int].take(c as int),
                decreases d - c,
            {
                let (a, b): (usize, usize) = if r <= c {
                    (r, c)
                } else {
                    (c, r)
                };
                assert(self.p.rows@[a as int]@ == g[a as int]);
                let value: Double = self.p.get(a, b).minus(pz[a].times(pz[b]).over(denominator)).over(lambda);
                row.push(value);
                c = c + 1;
                assert(row@ =~= expected[r as int].take(c as int));
            }
            assert(row@ =~= expected[r as int]);
            rows.push(row);
            r = r + 1;
        }
        let p = Matrix { rows, width: d };
        assert(p.grid() =~= expected);
        p
    }

    fn proper(&self) -> (r: bool)
        requires
            self.wf(self.theta@.len()),
        ensures
            r == proper_gram(self.model().p),
    {
        let ghost g = self.model().p;
        let d: usize = self.p.nrows();
        let mut a: usize = 0;
        while a < d
            invariant
                a <= d,
                d == self.p.height(),
                self.wf(d as nat),
                g == self.model().p,
                forall|r: int, c: int|
                    #![trigger g[r][c]]
                    0 <= r <= c < d && r < a ==> g[r][c].is_finite() && (r == c ==> g[r][c].gt(zero())),
            decreases d - a,
        {
            let mut b: usize = a;
            while b < d
                invariant
                    a < d,
                    a <= b <= d,
                    d == self.p.height(),
                    self.wf(d as nat),
                    g == self.model().p,
                    forall|r: int, c: int|
                        #![trigger g[r][c]]
                        0 <= r <= c < d && r < a ==> g[r][c].is_finite() && (r == c ==> g[r][c].gt(zero())),
                    forall|c: int|
                        #![trigger g[a as int][c]]
                        a <= c < b ==> g[a as int][c].is_finite() && (a == c ==> g[a as int][c].gt(zero())),
                decreases d - b,
            {
                let v: Double = self.p.get(a, b);
                assert(v == g[a as int][b as int]);
                if !v.is_finite() || (a == b && !v.gt(zero())) {
                    return false;
                }
                b = b + 1;
            }
            a = a + 1;
        }
        true
    }
}

/// A square matrix with finite entries, a positive diagonal and equal mirror entries.
pub open spec fn sound_gram(p: Seq<Seq<Double>>) -> bool {
    forall|r: int, c: int|
        #![trigger p[r][c]]
        0 <= r < p.len() && 0 <= c < p.len() ==> {
            &&& p[r][c].is_finite()
            &&& p[r][c].same(p[c][r])
            &&& r == c ==> p[r][c].gt(zero())
        }
}

fn is_sound_gram(p: &Matrix) -> (r: bool)
    requires
        p.wf(),
        p.height() == p.width,
    ensures
        r == sound_gram(p.grid()),
{
    let ghost g = p.grid();
    let d: usize = p.nrows();
    let mut a: usize = 0;
    while a < d
        invariant
            a <= d,
            d == p.height(),
            d == p.width,
            p.wf(),
            g == p.grid(),
            forall|r: int, c: int|
                #![trigger g[r][c]]
                0 <= r < a && 0 <= c < d ==> {
                    &&& g[r][c].is_finite()
                    &&& g[r][c].same(g[c][r])
                    &&& r == c ==> g[r][c].gt(zero())
                },
        decreases d - a,
    {
        let mut b: usize = 0;
        while b < d
            invariant
                a < d,
                b <= d,
                d == p.height(),
                d == p.width,
                p.wf(),
                g == p.grid(),
                forall|r: int, c: int|
                    #![trigger g[r][c]]
                    0 <= r < a && 0 <= c < d ==> {
                        &&& g[r][c].is_finite()
                        &&& g[r][c].same(g[c][r])
                        &&& r == c ==> g[r][c].gt(zero())
                    },
                forall|c: int|
                    #![trigger g[a as int][c]]
                    0 <= c < b ==> {
                        &&& g[a as int][c].is_finite()
                        &&& g[a as int][c].same(g[c][a as int])
                        &&& a == c ==> g[a as int][c].gt(zero())
                    },
            decreases d - b,
        {
            let v: Double = p.get(a, b);
            assert(v == g[a as int][b as int]);
            let w: Double = p.get(b, a);
            assert(w == g[b as int][a as int]);
            if !v.is_finite() || !v.same(w) || (a == b && !v.gt(zero())) {
                return false;
            }
            b = b + 1;
        }
        a = a + 1;
    }
    true
}

/// `p0` times the identity of size `d`.
pub open spec fn scaled_identity(d: nat, p0: Double) -> Seq<Seq<Double>> {
    Seq::new(
        d,
        |r: int|
            Seq::new(
                d,
                |c: int|
                    if r == c {
                        p0
                    } else {
                        zero()
                    },
            ),
    )
}

/// `p0` times the identity of size `d`.
pub fn diagonal(d: usize, p0: Double) -> (p: Matrix)
    ensures
        p.wf(),
        p.height() == d,
        p.width == d,
        p.grid() == scaled_identity(d as nat, p0),
{
    let mut rows: Vec<Vec<Double>> = Vec::new();
    let mut r: usize = 0;
    while r < d
        invariant
            r <= d,
            rows@.len() == r,
            forall|a: int| 0 <= a < r ==> (#[trigger] rows@[a])@ == scaled_identity(d as nat, p0)[a],
        decreases d - r,
    {
        let mut row = zeros(d);
        row.set(r, p0);
        assert(row@ =~= scaled_identity(d as nat, p0)[r as int]);
        rows.push(row);
        r = r + 1;
    }
    let p = Matrix { rows, width: d };
    assert(p.grid() =~= scaled_identity(d as nat, p0));
    p
}

/// Whether entry `i` stands before entry `j` in the order of falling magnitude,
/// the lower index first among equals.
pub open spec fn moved_more(delta: Seq<Double>, i: int, j: int) -> bool {
    delta[j].abs().lt(delta[i].abs()) || (delta[j].abs().same(delta[i].abs()) && i < j)
}

/// No entry is NaN.
pub open spec fn ordered_seq(delta: Seq<Double>) -> bool {
    forall|i: int| 0 <= i < delta.len() ==> !(#[trigger] delta[i]).is_nan()
}

/// `r` lists the `count` entries of largest magnitude, largest first, as index
/// and entry. The order is left open if an entry is NaN.
pub open spec fn lists_top(r: Seq<(usize, Double)>, delta: Seq<Double>, count: nat) -> bool {
    &&& r.len() == if delta.len() < count {
        delta.len()
    } else {
        count
    }
    &&& forall|a: int| 0 <= a < r.len() ==> (#[trigger] r[a]).0 < delta.len() && r[a].1 == delta[r[a].0 as int]
    &&& forall|a: int, b: int| 0 <= a < b < r.len() ==> (#[trigger] r[a]).0 != (#[trigger] r[b]).0
    &&& ordered_seq(delta) ==> forall|a: int, b: int|
        0 <= a < b < r.len() ==> moved_more(delta, (#[trigger] r[a]).0 as int, (#[trigger] r[b]).0 as int)
    &&& ordered_seq(delta) ==> forall|a: int, j: int|
        0 <= a < r.len() && 0 <= j < delta.len() ==> moved_more(delta, (#[trigger] r[a]).0 as int, j)
            || #[trigger] listed(r, j)
}

/// The entries with the largest magnitude, largest first: index and entry.
pub fn top_moved(delta: &Vec<Double>, count: usize) -> (r: Vec<(usize, Double)>)
    ensures
        lists_top(r@, delta@, count as nat),
{
    let n: usize = delta.len();
    let mut r: Vec<(usize, Double)> = Vec::new();
    let mut taken: Vec<bool> = Vec::new();
    let mut i: usize = 0;
    while i < n
        invariant
            i <= n,
            taken@.len() == i,
            forall|k: int| 0 <= k < i ==> !#[trigger] taken@[k],
        decreases n - i,
    {
        taken.push(false);
        i = i + 1;
    }
    while r.len() < n && r.len() < count
        invariant
            n == delta@.len(),
            taken@.len() == n,
            r@.len() <= n,
            r@.len() <= count,
            forall|k: int| 0 <= k < n ==> (#[trigger] taken@[k] == listed(r@, k)),
            forall|a: int|
                0 <= a < r@.len() ==> (#[trigger] r@[a]).0 < delta@.len() && r@[a].1 == delta@[r@[a].0 as int],
            forall|a: int, b: int| 0 <= a < b < r@.len() ==> (#[trigger] r@[a]).0 != (#[trigger] r@[b]).0,
            ordered_seq(delta@) ==> forall|a: int, b: int|
                0 <= a < b < r@.len() ==> moved_more(delta@, (#[trigger] r@[a]).0 as int, (#[trigger] r@[b]).0 as int),
            ordered_seq(delta@) ==> forall|a: int, j: int|
                0 <= a < r@.len() && 0 <= j < n ==> moved_more(
                    delta@,
                    (#[trigger] r@[a]).0 as int,
                    j,
                ) || #[trigger] listed(r@, j),
        decreases n - r@.len(),
    {
        proof {
            lemma_one_left(r@, n as nat);
        }
        let mut best: usize = n;
        let mut j: usize = 0;
        while j < n
            invariant
                n == delta@.len(),
                taken@.len() == n,
                j <= n,
                best <= n,
                forall|k: int| 0 <= k < n ==> (#[trigger] taken@[k] == listed(r@, k)),
                best < n ==> best < j && !listed(r@, best as int),
                best == n ==> forall|k: int| 0 <= k < j ==> #[trigger] listed(r@, k),
                best < n && ordered_seq(delta@) ==> forall|k: int|
                    0 <= k < j && k != best && !(#[trigger] listed(r@, k)) ==> moved_more(delta@, best as int, k),
            decreases n - j,
        {
            if !taken[j] {
                let ghost old_best = best;
                if best == n || delta[best].abs().lt(delta[j].abs()) {
                    best = j;
                }
                assert(!listed(r@, j as int));
                proof {
                    if ordered_seq(delta@) {
                        assert(!delta@[j as int].is_nan());
                        if old_best < n {
                            assert(!delta@[old_best as int].is_nan());
                        }
                        assert forall|k: int| 0 <= k < j + 1 && k != best && !(#[trigger] listed(r@, k)) implies moved_more(
                            delta@,
                            best as int,
                            k,
                        ) by {
                            assert(!delta@[k].is_nan());
                            if k < j && old_best < n && k != old_best {
                                assert(moved_more(delta@, old_best as int, k));
                            }
                        }
                    }
                }
            }
            j = j + 1;
        }
        let ghost earlier = r@;
        r.push((best, delta[best]));
        taken.set(best, true);
        assert forall|k: int| 0 <= k < n implies (#[trigger] taken@[k] == listed(r@, k)) by {
            lemma_listed_push(earlier, (best, delta@[best as int]), k);
        }
        assert forall|k: int| 0 <= k < n && !listed(r@, k) implies !#[trigger] listed(earlier, k) by {
            lemma_listed_push(earlier, (best, delta@[best as int]), k);
        }
        proof {
            if ordered_seq(delta@) {
                assert forall|a: int, j: int|
                    0 <= a < r@.len() && 0 <= j < n implies moved_more(
                        delta@,
                        (#[trigger] r@[a]).0 as int,
                        j,
                    ) || #[trigger] listed(r@, j) by {
                    lemma_listed_push(earlier, (best, delta@[best as int]), j);
                    if a < earlier.len() {
                        assert(earlier[a] == r@[a]);
                    }
                }
                assert forall|a: int, b: int| 0 <= a < b < r@.len() implies moved_more(
                    delta@,
                    (#[trigger] r@[a]).0 as int,
                    (#[trigger] r@[b]).0 as int,
                ) by {
                    assert(earlier[a] == r@[a]);
                    if b < earlier.len() {
                        assert(earlier[b] == r@[b]);
                    } else {
                        assert(!listed(earlier, best as int));
                    }
                }
            }
        }
        assert forall|a: int, b: int| 0 <= a < b < r@.len() implies (#[trigger] r@[a]).0 != (#[trigger] r@[b]).0 by {
            assert(earlier[a] == r@[a]);
            if b < earlier.len() {
                assert(earlier[b] == r@[b]);
            } else {
                assert(!listed(earlier, best as int));
            }
        }
    }
    r
}

/// Whether index `j` is among the listed ones.
pub open spec fn listed(r: Seq<(usize, Double)>, j: int) -> bool {
    exists|a: int| 0 <= a < r.len() && (#[trigger] r[a]).0 as int == j
}

proof fn lemma_listed_push(r: Seq<(usize, Double)>, e: (usize, Double), j: int)
    ensures
        listed(r.push(e), j) == (listed(r, j) || e.0 as int == j),
{
    let s = r.push(e);
    if listed(r, j) {
        let a = choose|a: int| 0 <= a < r.len() && (#[trigger] r[a]).0 as int == j;
        assert(s[a].0 as int == j);
    }
    if e.0 as int == j {
        assert(s[r.len() as int].0 as int == j);
    }
    if listed(s, j) && e.0 as int != j {
        let a = choose|a: int| 0 <= a < s.len() && (#[trigger] s[a]).0 as int == j;
        assert(r[a].0 as int == j);
    }
}

/// A list of distinct indices shorter than `n` misses one of the first `n`.
proof fn lemma_one_left(r: Seq<(usize, Double)>, n: nat)
    requires
        r.len() < n,
    ensures
        exists|j: int| 0 <= j < n && !#[trigger] listed(r, j),
    decreases r.len(),
{
    if forall|j: int| 0 <= j < n ==> #[trigger] listed(r, j) {
        let f = Set::new(|j: int| 0 <= j < n);
        vstd::set_lib::lemma_int_range(0, n as int);
        assert(f =~= vstd::set_lib::set_int_range(0, n as int));
        let g = r.map_values(|e: (usize, Double)| e.0 as int).to_set();
        r.map_values(|e: (usize, Double)| e.0 as int).lemma_cardinality_of_set();
        assert forall|j: int| f.contains(j) implies g.contains(j) by {
            assert(listed(r, j));
            let a = choose|a: int| 0 <= a < r.len() && (#[trigger] r[a]).0 as int == j;
            assert(r.map_values(|e: (usize, Double)| e.0 as int)[a] == j);
        }
        vstd::set_lib::lemma_len_subset(f, g);
        assert(false);
    }
}

/// The figures of a batch that can be accepted.
struct Trial {
    before: Vec<Double>,
    loss_before: Double,
    end: Recursion,
    loss_after: Double,
}

/// What an accepted batch reports.
#[derive(Clone, Debug)]
pub struct ParameterUpdate {
    /// Figures and issues.
    pub update: Update,
    /// The parameters that moved most, at most three, with their change.
    pub top_moved: Vec<(usize, Double)>,
}

impl Default for LinearRegression {
    fn default() -> (r: LinearRegression)
        ensures
            r.blank(one()),
    {
        LinearRegression::new(one())
    }
}

impl LinearRegression {
    /// The stored matrix is rectangular.
    pub open spec fn wf(&self) -> bool {
        self.p_mat matches Some(m) ==> m.wf()
    }

    /// The state before any row.
    pub open spec fn blank(&self, forgetting_factor: Double) -> bool {
        &&& self.forgetting_factor == forgetting_factor
        &&& self.fit_intercept
        &&& self.p0 == thousand()
        &&& self.theta@.len() == 0
        &&& self.p_mat is None
        &&& self.n_features == 0
        &&& self.initialized_fit_intercept
        &&& self.effective_sample_size == zero()
        &&& self.n_seen == 0
        &&& self.updates == 0
        &&& !self.initialized
    }

    /// Construct an estimator with the given forgetting factor.
    pub fn new(forgetting_factor: Double) -> (r: LinearRegression)
        ensures
            r.blank(forgetting_factor),
            r.wf(),
    {
        LinearRegression {
            forgetting_factor,
            fit_intercept: true,
            p0: thousand(),
            theta: Vec::new(),
            p_mat: None,
            n_features: 0,
            initialized_fit_intercept: true,
            effective_sample_size: zero(),
            n_seen: 0,
            updates: 0,
            initialized: false,
        }
    }

    /// Slope coefficients, without the intercept.
    pub open spec fn slopes(&self) -> Seq<Double> {
        if self.fit_intercept && self.theta@.len() > 0 {
            self.theta@.skip(1)
        } else {
            self.theta@
        }
    }

    /// The intercept, or 0 where none is fitted.
    pub open spec fn offset(&self) -> Double {
        if self.fit_intercept && self.theta@.len() > 0 {
            self.theta@[0]
        } else {
            zero()
        }
    }

    /// Slope coefficients, without the intercept.
    pub fn coef(&self) -> (r: Vec<Double>)
        ensures
            r@ == self.slopes(),
    {
        if self.fit_intercept && self.theta.len() > 0 {
            let mut r: Vec<Double> = Vec::new();
            let mut k: usize = 1;
            while k < self.theta.len()
                invariant
                    1 <= k <= self.theta@.len(),
                    r@ == self.theta@.subrange(1, k as int),
                decreases self.theta@.len() - k,
            {
                r.push(self.theta[k]);
                k = k + 1;
                assert(r@ =~= self.theta@.subrange(1, k as int));
            }
            assert(r@ =~= self.theta@.skip(1));
            r
        } else {
            copy(&self.theta)
        }
    }

    /// The intercept, or 0 where none is fitted.
    pub fn intercept(&self) -> (r: Double)
        ensures
            r == self.offset(),
    {
        if self.fit_intercept && self.theta.len() > 0 {
            self.theta[0]
        } else {
            zero()
        }
    }

    /// The inverse Gram matrix, proportional to the covariance of the coefficients.
    pub fn p_matrix(&self) -> (r: Option<&Matrix>)
        ensures
            match (r, self.p_mat) {
                (Some(m), Some(p)) => *m == p,
                (None, None) => true,
                _ => false,
            },
    {
        match &self.p_mat {
            Some(m) => Some(m),
            None => None,
        }
    }

    fn dim(&self, features: usize) -> (d: usize)
        requires
            features < usize::MAX,
        ensures
            d == dimension(features as nat, self.fit_intercept),
    {
        if self.fit_intercept {
            features + 1
        } else {
            features
        }
    }

    fn row_vec(&self, x: &Matrix, i: usize) -> (z: Vec<Double>)
        requires
            x.wf(),
            i < x.height(),
        ensures
            z@ == design(x, i as int, self.fit_intercept),
            z@.len() == dimension(x.width as nat, self.fit_intercept),
    {
        design_row(x, i, self.fit_intercept)
    }

    /// Checks of a batch that come before any arithmetic, in order.
    pub open spec fn early_refusals(&self, x: &Matrix, y: Seq<Double>) -> Seq<Issue> {
        let empty = x.height() == 0 || x.width == 0;
        given(empty, IssueCode::EmptyMatrix) + given(
            empty && !self.initialized,
            IssueCode::PartialFitBeforeInit,
        ) + shape_issues(x, Some(y)) + given(has_bad_cell(x) || !finite_seq(y), IssueCode::NonFiniteInput) + given(
            !(self.forgetting_factor.gt(zero()) && self.forgetting_factor.le(one())),
            IssueCode::InvalidWeight,
        ) + given(!self.p0.is_finite() || self.p0.le(zero()), IssueCode::InvalidParameter) + given(
            self.initialized && (x.width != self.n_features || self.fit_intercept != self.initialized_fit_intercept
                || dimension(x.width as nat, self.fit_intercept) != self.theta@.len()),
            IssueCode::FeatureSpaceChangedOnline,
        )
    }

    /// The recursion before the batch.
    pub open spec fn start(&self, x: &Matrix) -> Model {
        let d = dimension(x.width as nat, self.fit_intercept);
        Model {
            theta: if self.initialized {
                self.theta@
            } else {
                zero_seq(d)
            },
            p: if self.initialized {
                self.p_mat->0.grid()
            } else {
                scaled_identity(d, self.p0)
            },
            information: zero(),
            effective: self.effective_sample_size,
        }
    }

    /// The recursion after the batch.
    pub open spec fn end(&self, x: &Matrix, y: Seq<Double>) -> Result<Model, IssueCode> {
        self.start(x).after(x, y, self.fit_intercept, self.forgetting_factor, x.height())
    }

    /// Whether the stored figures can be continued from.
    pub open spec fn sound(&self, x: &Matrix) -> bool {
        let start = self.start(x);
        self.effective_sample_size.is_finite() && self.effective_sample_size.ge(zero()) && finite_seq(start.theta)
            && sound_gram(start.p)
    }

    /// Why a batch that passed the early checks is refused.
    pub open spec fn late_refusal(&self, x: &Matrix, y: Seq<Double>) -> Option<IssueCode> {
        let d = dimension(x.width as nat, self.fit_intercept);
        if self.initialized && self.p_mat is None {
            Some(IssueCode::NonFiniteOutput)
        } else if self.initialized && (self.p_mat->0.height() != d || self.p_mat->0.width != d) {
            Some(IssueCode::DimensionMismatch)
        } else if !self.sound(x) {
            Some(IssueCode::NonFiniteOutput)
        } else if mean_squared_error(x, y, self.start(x).theta, self.fit_intercept) is None {
            Some(IssueCode::NonFiniteOutput)
        } else {
            match self.end(x, y) {
                Err(code) => Some(code),
                Ok(end) => if mean_squared_error(x, y, end.theta, self.fit_intercept) is None {
                    Some(IssueCode::NonFiniteOutput)
                } else if self.n_seen + x.height() > u64::MAX || self.updates == u64::MAX {
                    Some(IssueCode::InvalidParameter)
                } else {
                    None
                },
            }
        }
    }

    /// All reasons to refuse a batch; empty where it is accepted.
    pub open spec fn refusals(&self, x: &Matrix, y: Option<Seq<Double>>) -> Seq<Issue> {
        match y {
            None => seq![issue(IssueCode::MissingTarget)],
            Some(t) => {
                let early = self.early_refusals(x, t);
                if early.len() > 0 {
                    early
                } else {
                    match self.late_refusal(x, t) {
                        Some(code) => seq![issue(code)],
                        None => Seq::empty(),
                    }
                }
            },
        }
    }

    /// The state that an accepted batch leaves.
    pub open spec fn is_after(&self, before: &LinearRegression, x: &Matrix, y: Seq<Double>) -> bool {
        let end = before.end(x, y)->Ok_0;
        &&& self.forgetting_factor == before.forgetting_factor
        &&& self.fit_intercept == before.fit_intercept
        &&& self.p0 == before.p0
        &&& self.theta@ == end.theta
        &&& self.p_mat is Some
        &&& self.p_mat->0.wf()
        &&& self.p_mat->0.height() == end.theta.len()
        &&& self.p_mat->0.width == end.theta.len()
        &&& self.p_mat->0.grid() == end.p
        &&& self.n_features == x.width
        &&& self.initialized_fit_intercept == before.fit_intercept
        &&& self.effective_sample_size == end.effective
        &&& self.n_seen == before.n_seen + x.height()
        &&& self.updates == before.updates + 1
        &&& self.initialized
    }

    /// Quality figures from the parameter change, the losses and the residuals.
    pub open spec fn quality_of(
        &self,
        delta: Seq<Double>,
        loss_before: Double,
        loss_after: Double,
        information: Double,
        batch: usize,
    ) -> IncrementalQuality {
        let d = Double::from_usize(self.theta@.len() as usize);
        IncrementalQuality {
            effective_sample_size: self.effective_sample_size,
            forgetting_factor: Some(self.forgetting_factor),
            parameter_delta_norm: Some(norm_of(delta)),
            parameter_delta_max: Some(max_abs_of(delta, delta.len())),
            loss_before: Some(loss_before),
            loss_after: Some(loss_after),
            information_gain: Some(
                loss_before.minus(loss_after).abs().max(information.over(Double::from_usize(batch))),
            ),
            still_identified: self.effective_sample_size.gt(d) && self.n_seen > self.theta@.len(),
            warmup: self.n_seen < 5 || self.n_seen <= self.theta@.len(),
            ..IncrementalQuality::new((self.updates - 1) as u64, batch, self.n_seen)
        }
    }

    /// Quality figures of an accepted batch.
    pub open spec fn figures(&self, before: &LinearRegression, x: &Matrix, y: Seq<Double>) -> IncrementalQuality {
        let start = before.start(x);
        let end = before.end(x, y)->Ok_0;
        self.quality_of(
            difference(end.theta, start.theta),
            mean_squared_error(x, y, start.theta, before.fit_intercept)->0,
            mean_squared_error(x, y, end.theta, before.fit_intercept)->0,
            end.information,
            x.height() as usize,
        )
    }

    /// Takes in a batch, or refuses it and changes nothing.
    pub fn partial_fit(&mut self, x: &Matrix, y: Option<&Vec<Double>>, policy: &Policy) -> (r: Result<ParameterUpdate, Failure>)
        requires
            old(self).wf(),
            x.wf(),
            x.width < usize::MAX,
        ensures
            final(self).wf(),
            match r {
                Ok(report) => {
                    &&& y is Some
                    &&& old(self).refusals(x, Some(y->0@)).len() == 0
                    &&& final(self).is_after(old(self), x, y->0@)
                    &&& report.update.quality == final(self).figures(old(self), x, y->0@)
                    &&& report.update.issues@ == Seq::<Issue>::empty()
                    &&& report.update.screened
                    &&& report.update.idle == idle_batch(report.update.quality, policy.uninformative_info_eps)
                    &&& report.update.trailing@ == final(self).remarks(policy.min_effective_sample)
                    &&& lists_top(
                        report.top_moved@,
                        difference(old(self).end(x, y->0@)->Ok_0.theta, old(self).start(x).theta),
                        3,
                    )
                },
                Err(failure) => {
                    &&& failure.issues@.len() > 0
                    &&& failure.issues@ == old(self).refusals(
                        x,
                        match y {
                            Some(t) => Some(t@),
                            None => None,
                        },
                    )
                    &&& *final(self) == *old(self)
                },
            },
    {
        let y: &Vec<Double> = match y {
            Some(t) => t,
            None => {
                let mut issues: Vec<Issue> = Vec::new();
                issues.push(issue(IssueCode::MissingTarget));
                assert(issues@ =~= seq![issue(IssueCode::MissingTarget)]);
                return Err(Failure { issues });
            },
        };
        let mut issues = self.check_early(x, y);
        if issues.len() > 0 {
            return Err(Failure { issues });
        }
        let trial: Trial = match self.attempt(x, y) {
            Ok(trial) => trial,
            Err(code) => {
                issues.push(issue(code));
                assert(issues@ =~= self.refusals(x, Some(y@)));
                return Err(Failure { issues });
            },
        };
        assert(self.refusals(x, Some(y@)) =~= Seq::empty());
        assert(issues@ =~= Seq::empty());
        let delta = subtract(&trial.end.theta, &trial.before);
        self.theta = trial.end.theta;
        self.p_mat = Some(trial.end.p);
        self.n_features = x.ncols();
        self.initialized_fit_intercept = self.fit_intercept;
        self.effective_sample_size = trial.end.effective;
        self.n_seen = self.n_seen + x.nrows() as u64;
        self.updates = self.updates + 1;
        self.initialized = true;
        let quality = self.describe(&delta, trial.loss_before, trial.loss_after, trial.end.information, x.nrows());
        let eps: Double = policy.uninformative_info_eps;
        let idle: bool = trial.loss_before.minus(trial.loss_after).abs().le(eps) && norm(&delta).le(eps);
        let mut trailing: Vec<Issue> = Vec::new();
        let size: Double = self.effective_sample_size;
        raise(
            &mut trailing,
            size.lt(policy.min_effective_sample) || size.le(Double::from_usize(self.theta.len())),
            IssueCode::ForgettingErasedIdentification,
        );
        raise(&mut trailing, quality.warmup, IssueCode::WarmupIncomplete);
        assert(trailing@ =~= self.remarks(policy.min_effective_sample));
        let top = top_moved(&delta, 3);
        Ok(ParameterUpdate { update: Update { quality, issues, screened: true, idle, trailing }, top_moved: top })
    }

    fn describe(
        &self,
        delta: &Vec<Double>,
        loss_before: Double,
        loss_after: Double,
        information: Double,
        batch: usize,
    ) -> (q: IncrementalQuality)
        requires
            self.updates > 0,
        ensures
            q == self.quality_of(delta@, loss_before, loss_after, information, batch),
    {
        let size: Double = self.effective_sample_size;
        let params: usize = self.theta.len();
        IncrementalQuality {
            effective_sample_size: size,
            forgetting_factor: Some(self.forgetting_factor),
            parameter_delta_norm: Some(norm(delta)),
            parameter_delta_max: Some(max_abs(delta)),
            loss_before: Some(loss_before),
            loss_after: Some(loss_after),
            information_gain: Some(
                loss_before.minus(loss_after).abs().max(information.over(Double::from_usize(batch))),
            ),
            still_identified: size.gt(Double::from_usize(params)) && self.n_seen > params as u64,
            warmup: self.n_seen < 5 || self.n_seen <= params as u64,
            ..IncrementalQuality::new(self.updates - 1, batch, self.n_seen)
        }
    }

    fn check_early(&self, x: &Matrix, y: &Vec<Double>) -> (issues: Vec<Issue>)
        requires
            x.wf(),
            x.width < usize::MAX,
        ensures
            issues@ == self.early_refusals(x, y@),
    {
        let mut issues: Vec<Issue> = Vec::new();
        let empty: bool = x.nrows() == 0 || x.ncols() == 0;
        let d: usize = self.dim(x.ncols());
        raise(&mut issues, empty, IssueCode::EmptyMatrix);
        raise(&mut issues, empty && !self.initialized, IssueCode::PartialFitBeforeInit);
        inspect_online_xy(&mut issues, x, Some(y));
        raise(&mut issues, find_bad_cell(x) || !all_finite(y), IssueCode::NonFiniteInput);
        raise(
            &mut issues,
            !(self.forgetting_factor.gt(zero()) && self.forgetting_factor.le(one())),
            IssueCode::InvalidWeight,
        );
        raise(&mut issues, !self.p0.is_finite() || self.p0.le(zero()), IssueCode::InvalidParameter);
        raise(
            &mut issues,
            self.initialized && (x.ncols() != self.n_features || self.fit_intercept != self.initialized_fit_intercept
                || d != self.theta.len()),
            IssueCode::FeatureSpaceChangedOnline,
        );
        assert(issues@ =~= self.early_refusals(x, y@));
        issues
    }

    fn attempt(&self, x: &Matrix, y: &Vec<Double>) -> (r: Result<Trial, IssueCode>)
        requires
            self.wf(),
            x.wf(),
            x.width < usize::MAX,
            self.early_refusals(x, y@).len() == 0,
        ensures
            match r {
                Ok(trial) => {
                    &&& self.late_refusal(x, y@) is None
                    &&& trial.before@ == self.start(x).theta
                    &&& trial.before@.len() == trial.end.theta@.len()
                    &&& trial.end.wf(trial.end.theta@.len())
                    &&& self.end(x, y@) == Ok::<Model, IssueCode>(trial.end.model())
                    &&& mean_squared_error(x, y@, self.start(x).theta, self.fit_intercept) == Some(trial.loss_before)
                    &&& mean_squared_error(x, y@, trial.end.theta@, self.fit_intercept) == Some(trial.loss_after)
                },
                Err(code) => self.late_refusal(x, y@) == Some(code),
            },
    {
        proof {
            self.lemma_early(x, y@);
        }
        let start: Recursion = match self.begin(x) {
            Ok(start) => start,
            Err(code) => {
                return Err(code);
            },
        };
        let before = copy(&start.theta);
        let loss_before: Double = match mse_with_theta(x, y, &before, self.fit_intercept) {
            Some(loss) => loss,
            None => {
                return Err(IssueCode::NonFiniteOutput);
            },
        };
        let end: Recursion = match self.advance(start, x, y) {
            Ok(end) => end,
            Err(code) => {
                return Err(code);
            },
        };
        let loss_after: Double = match mse_with_theta(x, y, &end.theta, self.fit_intercept) {
            Some(loss) => loss,
            None => {
                return Err(IssueCode::NonFiniteOutput);
            },
        };
        if x.nrows() as u64 > u64::MAX - self.n_seen || self.updates == u64::MAX {
            return Err(IssueCode::InvalidParameter);
        }
        Ok(Trial { before, loss_before, end, loss_after })
    }

    /// Issues that an accepted batch raises.
    pub open spec fn remarks(&self, min_effective_sample: Double) -> Seq<Issue> {
        given(
            self.effective_sample_size.lt(min_effective_sample) || self.effective_sample_size.le(
                Double::from_usize(self.theta@.len() as usize),
            ),
            IssueCode::ForgettingErasedIdentification,
        ) + given(self.n_seen < 5 || self.n_seen <= self.theta@.len(), IssueCode::WarmupIncomplete)
    }

    proof fn lemma_early(&self, x: &Matrix, y: Seq<Double>)
        requires
            self.early_refusals(x, y).len() == 0,
        ensures
            x.height() > 0,
            x.width > 0,
            y.len() == x.height(),
            self.initialized ==> self.theta@.len() == dimension(x.width as nat, self.fit_intercept),
    {
    }

    fn begin(&self, x: &Matrix) -> (r: Result<Recursion, IssueCode>)
        requires
            self.wf(),
            x.wf(),
            x.width < usize::MAX,
            self.initialized ==> self.theta@.len() == dimension(x.width as nat, self.fit_intercept),
        ensures
            ({
                let d = dimension(x.width as nat, self.fit_intercept);
                match r {
                    Ok(start) => {
                        &&& start.wf(d)
                        &&& start.model() == self.start(x)
                        &&& self.initialized ==> self.p_mat is Some && self.p_mat->0.height() == d
                            && self.p_mat->0.width == d
                        &&& self.sound(x)
                    },
                    Err(code) => {
                        ||| self.initialized && self.p_mat is None && code == IssueCode::NonFiniteOutput
                        ||| self.initialized && self.p_mat is Some && (self.p_mat->0.height() != d || self.p_mat->0.width
                            != d) && code == IssueCode::DimensionMismatch
                        ||| (self.initialized ==> self.p_mat is Some && self.p_mat->0.height() == d
                            && self.p_mat->0.width == d) && !self.sound(x) && code == IssueCode::NonFiniteOutput
                    },
                }
            }),
    {
        let d: usize = self.dim(x.ncols());
        let start: Recursion = if self.initialized {
            match &self.p_mat {
                None => {
                    return Err(IssueCode::NonFiniteOutput);
                },
                Some(m) => {
                    if m.nrows() != d || m.ncols() != d {
                        return Err(IssueCode::DimensionMismatch);
                    }
                    let p = m.copy();
                    assert(p.grid() =~= m.grid());
                    Recursion {
                        theta: copy(&self.theta),
                        p,
                        information: zero(),
                        effective: self.effective_sample_size,
                    }
                },
            }
        } else {
            Recursion {
                theta: zeros(d),
                p: diagonal(d, self.p0),
                information: zero(),
                effective: self.effective_sample_size,
            }
        };
        if self.effective_sample_size.is_finite() && self.effective_sample_size.ge(zero()) && all_finite(&start.theta)
            && is_sound_gram(&start.p) {
            Ok(start)
        } else {
            Err(IssueCode::NonFiniteOutput)
        }
    }

    fn advance(&self, start: Recursion, x: &Matrix, y: &Vec<Double>) -> (r: Result<Recursion, IssueCode>)
        requires
            x.wf(),
            y@.len() == x.height(),
            start.wf(dimension(x.width as nat, self.fit_intercept)),
        ensures
            ({
                let d = dimension(x.width as nat, self.fit_intercept);
                let end = start.model().after(x, y@, self.fit_intercept, self.forgetting_factor, x.height());
                match r {
                    Ok(last) => last.wf(d) && end == Ok::<Model, IssueCode>(last.model()),
                    Err(code) => end == Err::<Model, IssueCode>(code),
                }
            }),
    {
        let ghost first = start.model();
        let ghost d = dimension(x.width as nat, self.fit_intercept);
        let mut current: Recursion = start;
        let mut i: usize = 0;
        while i < x.nrows()
            invariant
                i <= x.height(),
                x.wf(),
                y@.len() == x.height(),
                d == dimension(x.width as nat, self.fit_intercept),
                current.wf(d),
                first == start.model(),
                first.after(x, y@, self.fit_intercept, self.forgetting_factor, i as nat) == Ok::<Model, IssueCode>(
                    current.model(),
                ),
            decreases x.height() - i,
        {
            let z = self.row_vec(x, i);
            match current.observe(&z, y[i], self.forgetting_factor) {
                Ok(next) => {
                    current = next;
                },
                Err(code) => {
                    proof {
                        lemma_model_error(
                            first,
                            x,
                            y@,
                            self.fit_intercept,
                            self.forgetting_factor,
                            (i + 1) as nat,
                            x.height(),
                        );
                    }
                    return Err(code);
                },
            }
            i = i + 1;
        }
        Ok(current)
    }

    /// Why a prediction is refused before any arithmetic.
    pub open spec fn prediction_refusal(&self, x: &Matrix) -> Option<IssueCode> {
        if !self.initialized {
            Some(IssueCode::PartialFitBeforeInit)
        } else if self.fit_intercept != self.initialized_fit_intercept {
            Some(IssueCode::FeatureSpaceChangedOnline)
        } else if x.width != self.n_features {
            Some(IssueCode::DimensionMismatch)
        } else if has_bad_cell(x) {
            Some(IssueCode::NonFiniteInput)
        } else if !finite_seq(self.predictions(x)) {
            Some(IssueCode::NonFiniteOutput)
        } else {
            None
        }
    }

    /// The predicted targets.
    pub open spec fn predictions(&self, x: &Matrix) -> Seq<Double> {
        Seq::new(x.height(), |i: int| dot_of(design(x, i, self.fit_intercept), self.theta@, self.theta@.len()))
    }

    /// Predicts one target per row, or says why it cannot.
    pub fn predict(&self, x: &Matrix) -> (r: Result<Qualified<Vec<Double>>, Failure>)
        requires
            x.wf(),
            self.initialized ==> self.theta@.len() == dimension(
                self.n_features as nat,
                self.initialized_fit_intercept,
            ),
        ensures
            match r {
                Ok(out) => {
                    &&& self.prediction_refusal(x) is None
                    &&& out.value@ == self.predictions(x)
                    &&& out.report@.len() == 0
                },
                Err(failure) => {
                    &&& self.prediction_refusal(x) is Some
                    &&& failure.issues@ == seq![issue(self.prediction_refusal(x)->0)]
                },
            },
    {
        let mut issues: Vec<Issue> = Vec::new();
        if !self.initialized {
            issues.push(issue(IssueCode::PartialFitBeforeInit));
        } else if self.fit_intercept != self.initialized_fit_intercept {
            issues.push(issue(IssueCode::FeatureSpaceChangedOnline));
        } else if x.ncols() != self.n_features {
            issues.push(issue(IssueCode::DimensionMismatch));
        } else if find_bad_cell(x) {
            issues.push(issue(IssueCode::NonFiniteInput));
        } else {
            let mut value: Vec<Double> = Vec::new();
            let mut i: usize = 0;
            while i < x.nrows()
                invariant
                    i <= x.height(),
                    x.wf(),
                    self.theta@.len() == dimension(x.width as nat, self.fit_intercept),
                    value@ == self.predictions(x).take(i as int),
                decreases x.height() - i,
            {
                let z = self.row_vec(x, i);
                value.push(dot(&z, &self.theta));
                i = i + 1;
                assert(value@ =~= self.predictions(x).take(i as int));
            }
            assert(value@ =~= self.predictions(x));
            if all_finite(&value) {
                return Ok(Qualified { value, report: issues });
            }
            issues.push(issue(IssueCode::NonFiniteOutput));
        }
        assert(issues@ =~= seq![issue(self.prediction_refusal(x)->0)]);
        Err(Failure { issues })
    }
}

/// Whether neither the loss nor the coefficients moved by more than `eps`.
pub open spec fn idle_batch(quality: IncrementalQuality, eps: Double) -> bool {
    quality.loss_before->0.minus(quality.loss_after->0).abs().le(eps) && quality.parameter_delta_norm->0.le(eps)
}

proof fn lemma_model_error(
    start: Model,
    x: &Matrix,
    y: Seq<Double>,
    fit_intercept: bool,
    lambda: Double,
    k: nat,
    n: nat,
)
    requires
        k <= n,
        start.after(x, y, fit_intercept, lambda, k) is Err,
    ensures
        start.after(x, y, fit_intercept, lambda, n) == start.after(x, y, fit_intercept, lambda, k),
    decreases n - k,
{
    if k < n {
        lemma_model_error(start, x, y, fit_intercept, lambda, k + 1, n);
    }
}

/// The same number, or two zeros.
pub open spec fn alike(a: Double, b: Double) -> bool {
    a == b || (a.code() == 0 && b.code() == 0)
}

proof fn lemma_alike_sums(a: Double, b: Double, c: Double)
    requires
        alike(a, b),
    ensures
        alike(a.plus(c), b.plus(c)),
{
    reveal(Double::spec_plus);
    if a.code() == 0 && b.code() == 0 {
        lemma_zero_magnitude(a);
        lemma_zero_magnitude(b);
    }
}

proof fn lemma_prediction_is_affine(row: Seq<Double>, theta: Seq<Double>, fit_intercept: bool, k: nat)
    requires
        k <= row.len(),
        fit_intercept ==> theta[0].finite(),
    ensures
        alike(
            dot_of(
                design_of(row, fit_intercept),
                theta,
                if fit_intercept {
                    k + 1
                } else {
                    k
                },
            ),
            linear_prediction(row, theta, fit_intercept, k),
        ),
    decreases k,
{
    let z = design_of(row, fit_intercept);
    if k == 0 {
        if fit_intercept {
            lemma_zero();
            lemma_times_one(theta[0]);
            assert(dot_of(z, theta, 0) == zero());
            assert(dot_of(z, theta, 1) == zero().plus(one().times(theta[0])));
            law_plus_commutes(theta[0], zero());
            lemma_plus_zero(theta[0], zero());
        }
    } else {
        lemma_prediction_is_affine(row, theta, fit_intercept, (k - 1) as nat);
        let m: nat = if fit_intercept {
            k
        } else {
            (k - 1) as nat
        };
        assert(z[m as int] == row[k - 1]);
        law_times_commutes(z[m as int], theta[m as int]);
        lemma_alike_sums(
            dot_of(z, theta, m),
            linear_prediction(row, theta, fit_intercept, (k - 1) as nat),
            theta[m as int].times(row[k - 1]),
        );
    }
}

/// A prediction is affine in the row: the sum, from left to right, of the intercept and
/// of each coefficient times its column, each operation rounded. Only the sign of a zero
/// is left open.
pub proof fn law_predictions_are_affine(model: &LinearRegression, x: &Matrix, i: int)
    requires
        x.wf(),
        0 <= i < x.height(),
        model.prediction_refusal(x) is None,
        model.theta@.len() == dimension(x.width as nat, model.fit_intercept),
        finite_seq(model.theta@),
    ensures
        alike(
            model.predictions(x)[i],
            linear_prediction(x.rows@[i]@, model.theta@, model.fit_intercept, x.width as nat),
        ),
{
    assert(x.rows[i]@.len() == x.width);
    if model.fit_intercept {
        assert(model.theta@[0].is_finite());
    }
    lemma_prediction_is_affine(x.rows@[i]@, model.theta@, model.fit_intercept, x.width as nat);
}

/// The intercept plus each of the first `k` coefficients times its column, exactly, in
/// units of `2^-2148`.
pub open spec fn affine_value(row: Seq<Double>, theta: Seq<Double>, fit_intercept: bool, k: nat) -> int
    decreases k,
{
    if k == 0 {
        if fit_intercept {
            pow2(1074) * theta[0].value()
        } else {
            0
        }
    } else {
        affine_value(row, theta, fit_intercept, (k - 1) as nat) + row[k - 1].value() * theta[if fit_intercept {
            k as int
        } else {
            k - 1
        }].value()
    }
}

proof fn lemma_affine_value(row: Seq<Double>, theta: Seq<Double>, fit_intercept: bool, k: nat)
    requires
        k <= row.len(),
    ensures
        exact_dot(design_of(row, fit_intercept), theta, dimension(k, fit_intercept)) == affine_value(
            row,
            theta,
            fit_intercept,
            k,
        ),
    decreases k,
{
    let z = design_of(row, fit_intercept);
    if k == 0 {
        lemma_one();
        assert(exact_dot(z, theta, 0) == 0);
        if fit_intercept {
            assert(z[0] == one());
            assert(exact_dot(z, theta, 1) == one().value() * theta[0].value());
        }
    } else {
        lemma_affine_value(row, theta, fit_intercept, (k - 1) as nat);
        assert(z[dimension((k - 1) as nat, fit_intercept) as int] == row[k - 1]);
    }
}

/// A finite prediction is the intercept plus the sum of each coefficient times its
/// column, up to rounding.
pub proof fn law_predictions_are_close(model: &LinearRegression, x: &Matrix, i: int)
    requires
        x.wf(),
        0 <= i < x.height(),
        model.prediction_refusal(x) is None,
        model.theta@.len() == dimension(x.width as nat, model.fit_intercept),
        model.theta@.len() <= 0x100_0000_0000,
        model.predictions(x)[i].is_finite(),
    ensures
        model.predictions(x).len() == x.height(),
        close_dot(
            design(x, i, model.fit_intercept),
            model.theta@,
            model.theta@.len(),
            model.predictions(x)[i],
        ),
        exact_dot(design(x, i, model.fit_intercept), model.theta@, model.theta@.len()) == affine_value(
            x.rows@[i]@,
            model.theta@,
            model.fit_intercept,
            x.width as nat,
        ),
{
    assert(x.rows[i]@.len() == x.width);
    law_dot_is_close(design(x, i, model.fit_intercept), model.theta@, model.theta@.len());
    lemma_affine_value(x.rows@[i]@, model.theta@, model.fit_intercept, x.width as nat);
}

/// The inner product of a design row with an intercept and slopes, multiplied out.
pub proof fn lemma_dot_of_design(row: Seq<Double>, theta: Seq<Double>, k: nat)
    requires
        k <= row.len(),
        k < theta.len(),
    ensures
        exact_dot(design_of(row, true), theta, k + 1) == pow2(1074) * theta[0].value() + exact_dot(row, theta.skip(1), k),
    decreases k,
{
    let z = design_of(row, true);
    lemma_one();
    if k == 0 {
        assert(exact_dot(z, theta, 0) == 0);
        assert(z[0] == one());
        assert(exact_dot(z, theta, 1) == one().value() * theta[0].value());
        assert(exact_dot(row, theta.skip(1), 0) == 0);
    } else {
        lemma_dot_of_design(row, theta, (k - 1) as nat);
        assert(z[k as int] == row[k - 1]);
        assert(theta.skip(1)[k - 1] == theta[k as int]);
    }
}

/// A prediction is the intercept plus the slopes times the columns, up to rounding: one
/// slope for each column, in their order.
pub proof fn law_predictions_use_slopes(model: &LinearRegression, x: &Matrix, i: int)
    requires
        x.wf(),
        0 <= i < x.height(),
        model.prediction_refusal(x) is None,
        model.theta@.len() == dimension(x.width as nat, model.fit_intercept),
        model.theta@.len() <= 0x100_0000_0000,
        model.predictions(x)[i].is_finite(),
    ensures
        model.slopes().len() == x.width,
        exact_dot(design(x, i, model.fit_intercept), model.theta@, model.theta@.len()) == pow2(1074)
            * model.offset().value() + exact_dot(x.rows@[i]@, model.slopes(), x.width as nat),
        close_dot(design(x, i, model.fit_intercept), model.theta@, model.theta@.len(), model.predictions(x)[i]),
{
    assert(x.rows[i]@.len() == x.width);
    law_predictions_are_close(model, x, i);
    if model.fit_intercept {
        lemma_dot_of_design(x.rows@[i]@, model.theta@, x.width as nat);
    } else {
        lemma_zero();
        lemma_zero_magnitude(zero());
        assert(pow2(1074) * 0 == 0) by (nonlinear_arith);
    }
}

/// Before any batch is accepted, every prediction is refused.
pub proof fn law_no_prediction_before_fit(model: &LinearRegression, x: &Matrix)
    requires
        !model.initialized,
    ensures
        model.prediction_refusal(x) == Some(IssueCode::PartialFitBeforeInit),
{
}

/// The inverse Gram matrix is exactly symmetric after every step.
pub proof fn law_gram_stays_symmetric(model: Model, z: Seq<Double>, y: Double, lambda: Double, r: int, c: int)
    requires
        0 <= r < z.len(),
        0 <= c < z.len(),
    ensures
        model.observed(z, y, lambda) matches Ok(next) ==> next.p[r][c] == next.p[c][r],
{
}

/// A matrix that can be continued from stays so after every step.
pub proof fn law_gram_stays_sound(model: Model, z: Seq<Double>, y: Double, lambda: Double)
    ensures
        model.observed(z, y, lambda) matches Ok(next) ==> sound_gram(next.p) && finite_seq(next.theta),
{
    if model.observed(z, y, lambda) is Ok {
        let next = model.observed(z, y, lambda)->Ok_0;
        assert forall|r: int, c: int|
            #![trigger next.p[r][c]]
            0 <= r < next.p.len() && 0 <= c < next.p.len() implies {
            &&& next.p[r][c].is_finite()
            &&& next.p[r][c].same(next.p[c][r])
            &&& r == c ==> next.p[r][c].gt(zero())
        } by {
            law_gram_stays_symmetric(model, z, y, lambda, r, c);
            if r <= c {
                assert(next.p[r][c].is_finite());
            } else {
                assert(next.p[c][r].is_finite());
            }
        }
    }
}

proof fn lemma_model_prefix(
    start: Model,
    x1: &Matrix,
    y1: Seq<Double>,
    x: &Matrix,
    y: Seq<Double>,
    fit_intercept: bool,
    lambda: Double,
    k: nat,
)
    requires
        k <= x1.height(),
        forall|i: int| 0 <= i < x1.height() ==> #[trigger] design(x, i, fit_intercept) == design(x1, i, fit_intercept),
        forall|i: int| 0 <= i < x1.height() ==> #[trigger] y[i] == y1[i],
    ensures
        start.after(x, y, fit_intercept, lambda, k) == start.after(x1, y1, fit_intercept, lambda, k),
    decreases k,
{
    if k > 0 {
        lemma_model_prefix(start, x1, y1, x, y, fit_intercept, lambda, (k - 1) as nat);
        assert(design(x, k - 1, fit_intercept) == design(x1, k - 1, fit_intercept));
        assert(y[k - 1] == y1[k - 1]);
    }
}

/// Partition invariance. Two batches in a row move the coefficients and the
/// inverse Gram matrix as the joined batch does, bit for bit.
pub proof fn law_recursion_joins(
    start: Model,
    x1: &Matrix,
    y1: Seq<Double>,
    x2: &Matrix,
    y2: Seq<Double>,
    x: &Matrix,
    fit_intercept: bool,
    lambda: Double,
    k: nat,
)
    requires
        x1.wf(),
        x2.wf(),
        x.wf(),
        stacked(x1, x2, x),
        y1.len() == x1.height(),
        y2.len() == x2.height(),
        k <= x2.height(),
    ensures
        start.after(x, y1 + y2, fit_intercept, lambda, x1.height() + k) == (match start.after(
            x1,
            y1,
            fit_intercept,
            lambda,
            x1.height(),
        ) {
            Ok(model) => model.after(x2, y2, fit_intercept, lambda, k),
            Err(code) => Err(code),
        }),
    decreases k,
{
    let y = y1 + y2;
    assert forall|i: int| 0 <= i < x1.height() implies #[trigger] design(x, i, fit_intercept) == design(
        x1,
        i,
        fit_intercept,
    ) by {
        assert(x.rows[i]@.len() == x.width && x1.rows[i]@.len() == x1.width);
        assert forall|j: int| 0 <= j < x.width implies x.rows@[i]@[j] == x1.rows@[i]@[j] by {
            assert(x.at(i, j) == x1.at(i, j));
        }
        assert(x.rows@[i]@ =~= x1.rows@[i]@);
    }
    if k == 0 {
        lemma_model_prefix(start, x1, y1, x, y, fit_intercept, lambda, x1.height());
    } else {
        law_recursion_joins(start, x1, y1, x2, y2, x, fit_intercept, lambda, (k - 1) as nat);
        let i = x1.height() + k - 1;
        assert(x.rows[i]@.len() == x.width && x2.rows[k - 1]@.len() == x2.width);
        assert forall|j: int| 0 <= j < x.width implies x.rows@[i]@[j] == x2.rows@[k - 1]@[j] by {
            assert(x2.at(k - 1, j) == x.at(x1.height() + (k - 1), j));
        }
        assert(x.rows@[i]@ =~= x2.rows@[k - 1]@);
        assert(design(x, i, fit_intercept) == design(x2, k - 1, fit_intercept));
        assert(y[i] == y2[k - 1]);
    }
}

proof fn lemma_information_is_inert(
    a: Model,
    b: Model,
    x: &Matrix,
    y: Seq<Double>,
    fit_intercept: bool,
    lambda: Double,
    k: nat,
)
    requires
        a.theta == b.theta,
        a.p == b.p,
        a.effective == b.effective,
        a.after(x, y, fit_intercept, lambda, k) is Ok,
        b.after(x, y, fit_intercept, lambda, k) is Ok,
    ensures
        ({
            let one = a.after(x, y, fit_intercept, lambda, k)->Ok_0;
            let other = b.after(x, y, fit_intercept, lambda, k)->Ok_0;
            one.theta == other.theta && one.p == other.p && one.effective == other.effective
        }),
    decreases k,
{
    if k > 0 {
        lemma_information_is_inert(a, b, x, y, fit_intercept, lambda, (k - 1) as nat);
    }
}

/// Partition invariance of the estimator. Where rows are accepted in two batches and
/// in one, both ways leave the same coefficients, inverse Gram matrix and effective
/// sample size, bit for bit.
pub proof fn law_regression_partition_invariance(
    start: &LinearRegression,
    middle: &LinearRegression,
    end: &LinearRegression,
    whole: &LinearRegression,
    x1: &Matrix,
    y1: Seq<Double>,
    x2: &Matrix,
    y2: Seq<Double>,
    x: &Matrix,
)
    requires
        x1.wf(),
        x2.wf(),
        x.wf(),
        stacked(x1, x2, x),
        start.refusals(x1, Some(y1)).len() == 0,
        middle.is_after(start, x1, y1),
        middle.refusals(x2, Some(y2)).len() == 0,
        end.is_after(middle, x2, y2),
        start.refusals(x, Some(y1 + y2)).len() == 0,
        whole.is_after(start, x, y1 + y2),
    ensures
        end.theta@ == whole.theta@,
        end.p_mat->0.grid() == whole.p_mat->0.grid(),
        end.effective_sample_size == whole.effective_sample_size,
        end.n_seen == whole.n_seen,
        end.n_features == whole.n_features,
        end.initialized_fit_intercept == whole.initialized_fit_intercept,
{
    start.lemma_early(x1, y1);
    middle.lemma_early(x2, y2);
    law_recursion_joins(
        start.start(x1),
        x1,
        y1,
        x2,
        y2,
        x,
        start.fit_intercept,
        start.forgetting_factor,
        x2.height(),
    );
    assert(start.start(x) == start.start(x1));
    let carried = start.end(x1, y1)->Ok_0;
    let resumed = middle.start(x2);
    lemma_information_is_inert(
        carried,
        resumed,
        x2,
        y2,
        start.fit_intercept,
        start.forgetting_factor,
        x2.height(),
    );
}

/// The inverse Gram matrix and the effective sample size depend on the design alone,
/// whatever the targets are.
pub proof fn law_gram_ignores_targets(
    start: Model,
    other: Model,
    x: &Matrix,
    y: Seq<Double>,
    z: Seq<Double>,
    fit_intercept: bool,
    lambda: Double,
    k: nat,
)
    requires
        start.p == other.p,
        start.effective == other.effective,
        start.after(x, y, fit_intercept, lambda, k) is Ok,
        other.after(x, z, fit_intercept, lambda, k) is Ok,
    ensures
        start.after(x, y, fit_intercept, lambda, k)->Ok_0.p == other.after(x, z, fit_intercept, lambda, k)->Ok_0.p,
        start.after(x, y, fit_intercept, lambda, k)->Ok_0.effective == other.after(
            x,
            z,
            fit_intercept,
            lambda,
            k,
        )->Ok_0.effective,
    decreases k,
{
    if k > 0 {
        law_gram_ignores_targets(start, other, x, y, z, fit_intercept, lambda, (k - 1) as nat);
    }
}

/// Every number of a sequence is `f` times its counterpart.
pub open spec fn multiples(a: Seq<Double>, b: Seq<Double>, f: int) -> bool {
    &&& a.len() == b.len()
    &&& forall|i: int| 0 <= i < a.len() ==> multiple(#[trigger] a[i], b[i], f)
}

/// No product that a row forms with the coefficients or its residual loses digits for
/// being small.
pub open spec fn row_is_full(model: Model, z: Seq<Double>, y: Double, lambda: Double) -> bool {
    let residual = y.minus(dot_of(z, model.theta, z.len()));
    let pz = product(model.p, z);
    &&& forall|i: int| 0 <= i < z.len() ==> full(#[trigger] z[i], model.theta[i])
    &&& forall|i: int| 0 <= i < z.len() ==> full((#[trigger] pz[i]).over(model.denominator(z, lambda)), residual)
}

/// No product of the first `k` rows loses digits for being small.
pub open spec fn rows_are_full(
    start: Model,
    x: &Matrix,
    y: Seq<Double>,
    fit_intercept: bool,
    lambda: Double,
    k: nat,
) -> bool
    decreases k,
{
    k == 0 || {
        &&& rows_are_full(start, x, y, fit_intercept, lambda, (k - 1) as nat)
        &&& start.after(x, y, fit_intercept, lambda, (k - 1) as nat) matches Ok(m) ==> row_is_full(
            m,
            design(x, k - 1, fit_intercept),
            y[k - 1],
            lambda,
        )
    }
}

proof fn lemma_dot_of_multiples(z: Seq<Double>, a: Seq<Double>, b: Seq<Double>, f: int, n: nat)
    requires
        is_factor(f),
        multiples(a, b, f),
        n <= z.len() == a.len(),
        resizes(f) ==> forall|i: int| 0 <= i < z.len() ==> full(#[trigger] z[i], a[i]),
        dot_of(z, a, n).finite(),
        dot_of(z, b, n).finite(),
    ensures
        multiple(dot_of(z, a, n), dot_of(z, b, n), f),
    decreases n,
{
    if n == 0 {
        lemma_zero();
        lemma_zero_magnitude(zero());
        assert(f * 0 == 0) by (nonlinear_arith);
    } else {
        let i = n - 1;
        lemma_terms_are_finite(dot_of(z, a, (n - 1) as nat), z[i].times(a[i]));
        lemma_terms_are_finite(dot_of(z, b, (n - 1) as nat), z[i].times(b[i]));
        lemma_dot_of_multiples(z, a, b, f, (n - 1) as nat);
        assert(multiple(a[i], b[i], f));
        lemma_product_of_multiples(z[i], a[i], b[i], f);
        lemma_sum_of_multiples(
            dot_of(z, a, (n - 1) as nat),
            dot_of(z, b, (n - 1) as nat),
            z[i].times(a[i]),
            z[i].times(b[i]),
            f,
        );
    }
}

proof fn lemma_row_of_multiples(model: Model, other: Model, z: Seq<Double>, y: Double, w: Double, lambda: Double, f: int)
    requires
        is_factor(f),
        model.p == other.p,
        multiples(model.theta, other.theta, f),
        z.len() == model.theta.len(),
        multiple(y, w, f),
        model.observed(z, y, lambda) is Ok,
        other.observed(z, w, lambda) is Ok,
        resizes(f) ==> row_is_full(model, z, y, lambda),
    ensures
        multiples(model.observed(z, y, lambda)->Ok_0.theta, other.observed(z, w, lambda)->Ok_0.theta, f),
        model.observed(z, y, lambda)->Ok_0.p == other.observed(z, w, lambda)->Ok_0.p,
{
    let n = z.len();
    let pz = product(model.p, z);
    let den = model.denominator(z, lambda);
    let (s, t) = (dot_of(z, model.theta, n), dot_of(z, other.theta, n));
    let (r, q) = (y.minus(s), w.minus(t));
    lemma_terms_are_finite(model.information, r.times(r));
    lemma_terms_are_finite(other.information, q.times(q));
    lemma_factors_are_finite(r, r);
    lemma_factors_are_finite(q, q);
    lemma_terms_are_finite(y, s.neg());
    lemma_terms_are_finite(w, t.neg());
    assert(s.neg().code() == s.code() && t.neg().code() == t.code());
    lemma_dot_of_multiples(z, model.theta, other.theta, f, n);
    lemma_negated_multiples(s, t, f);
    lemma_sum_of_multiples(y, w, s.neg(), t.neg(), f);
    let a = model.moved(z, y, lambda).theta;
    let b = other.moved(z, w, lambda).theta;
    assert forall|i: int| 0 <= i < a.len() implies multiple(#[trigger] a[i], b[i], f) by {
        let gain = pz[i].over(den);
        assert(a[i].is_finite() && b[i].is_finite());
        assert(multiple(model.theta[i], other.theta[i], f));
        lemma_terms_are_finite(model.theta[i], gain.times(r));
        lemma_terms_are_finite(other.theta[i], gain.times(q));
        lemma_product_of_multiples(gain, r, q, f);
        lemma_sum_of_multiples(model.theta[i], other.theta[i], gain.times(r), gain.times(q), f);
    }
}

/// Coefficients scale with the targets. Targets times a power of two, or times the
/// negative of one, give coefficients times the same factor, exactly, as long as no
/// product of a row loses digits for being small; the inverse Gram matrix is the same.
/// With the two sides exchanged this holds of the inverse factor too. Other factors
/// change the rounding.
pub proof fn law_coefficients_scale_with_targets(
    start: Model,
    other: Model,
    x: &Matrix,
    y: Seq<Double>,
    w: Seq<Double>,
    fit_intercept: bool,
    lambda: Double,
    f: int,
    k: nat,
)
    requires
        is_factor(f),
        x.wf(),
        k <= x.height() == y.len(),
        multiples(y, w, f),
        multiples(start.theta, other.theta, f),
        start.theta.len() == dimension(x.width as nat, fit_intercept),
        start.p == other.p,
        start.after(x, y, fit_intercept, lambda, k) is Ok,
        other.after(x, w, fit_intercept, lambda, k) is Ok,
        resizes(f) ==> rows_are_full(start, x, y, fit_intercept, lambda, k),
    ensures
        multiples(
            start.after(x, y, fit_intercept, lambda, k)->Ok_0.theta,
            other.after(x, w, fit_intercept, lambda, k)->Ok_0.theta,
            f,
        ),
        start.after(x, y, fit_intercept, lambda, k)->Ok_0.p == other.after(x, w, fit_intercept, lambda, k)->Ok_0.p,
    decreases k,
{
    if k > 0 {
        law_coefficients_scale_with_targets(
            start,
            other,
            x,
            y,
            w,
            fit_intercept,
            lambda,
            f,
            (k - 1) as nat,
        );
        lemma_rows_keep_gram(start, x, y, fit_intercept, lambda, (k - 1) as nat);
        assert(x.rows[k - 1]@.len() == x.width);
        assert(multiple(y[k - 1], w[k - 1], f));
        lemma_row_of_multiples(
            start.after(x, y, fit_intercept, lambda, (k - 1) as nat)->Ok_0,
            other.after(x, w, fit_intercept, lambda, (k - 1) as nat)->Ok_0,
            design(x, k - 1, fit_intercept),
            y[k - 1],
            w[k - 1],
            lambda,
            f,
        );
    }
}

/// An effective sample size after `k` more rows: each scales the old weights by `lambda`
/// and adds one.
pub open spec fn grown_size(lambda: Double, size: Double, k: nat) -> Double
    decreases k,
{
    if k == 0 {
        size
    } else {
        lambda.times(grown_size(lambda, size, (k - 1) as nat)).plus(one())
    }
}

proof fn lemma_sizes_join(lambda: Double, size: Double, a: nat, b: nat)
    ensures
        grown_size(lambda, grown_size(lambda, size, a), b) == grown_size(lambda, size, a + b),
    decreases b,
{
    if b > 0 {
        lemma_sizes_join(lambda, size, a, (b - 1) as nat);
    }
}

/// Without forgetting, the effective sample size is the number of rows, as long as
/// there are no more than `2^53`.
pub proof fn law_size_without_forgetting(k: nat)
    requires
        k <= 0x20_0000_0000_0000,
    ensures
        grown_size(one(), zero(), k) == Double::from_u64(k as u64),
    decreases k,
{
    if k == 0 {
        lemma_whole_is_exact(0);
        lemma_zero();
    } else {
        law_size_without_forgetting((k - 1) as nat);
        lemma_whole_is_exact((k - 1) as u64);
        lemma_times_one(Double::from_u64((k - 1) as u64));
        lemma_one();
        lemma_wholes_add((k - 1) as u64, 1);
    }
}

/// With any forgetting factor, the effective sample size lies between one and the number
/// of rows, as long as there are no more than `2^53`.
pub proof fn law_size_is_bounded(lambda: Double, k: nat)
    requires
        zero().lt(lambda),
        lambda.le(one()),
        0 < k <= 0x20_0000_0000_0000,
    ensures
        one().le(grown_size(lambda, zero(), k)),
        grown_size(lambda, zero(), k).le(Double::from_u64(k as u64)),
        grown_size(lambda, zero(), k).is_finite(),
    decreases k,
{
    let before = grown_size(lambda, zero(), (k - 1) as nat);
    lemma_zero();
    lemma_one();
    assert(one().code() == 0x3ff0_0000_0000_0000);
    lemma_whole_is_exact((k - 1) as u64);
    lemma_whole_is_exact(k as u64);
    if k > 1 {
        law_size_is_bounded(lambda, (k - 1) as nat);
    }
    lemma_fraction_shrinks(lambda, before);
    let faded = lambda.times(before);
    lemma_plus_is_monotone(faded, one(), Double::from_u64((k - 1) as u64), one());
    lemma_wholes_add((k - 1) as u64, 1);
    lemma_plus_is_monotone(zero(), one(), faded, one());
    lemma_wholes_add(0, 1);
}

/// Finite entries, equal mirror entries and a positive diagonal.
pub open spec fn exact_gram(p: Seq<Seq<Double>>) -> bool {
    forall|r: int, c: int|
        #![trigger p[r][c]]
        0 <= r < p.len() && 0 <= c < p.len() ==> {
            &&& p[r][c].is_finite()
            &&& p[r][c] == p[c][r]
            &&& r == c ==> p[r][c].gt(zero())
        }
}

proof fn lemma_rows_keep_gram(
    start: Model,
    x: &Matrix,
    y: Seq<Double>,
    fit_intercept: bool,
    lambda: Double,
    k: nat,
)
    requires
        x.wf(),
        k <= x.height(),
        start.after(x, y, fit_intercept, lambda, k) is Ok,
    ensures
        ({
            let m = start.after(x, y, fit_intercept, lambda, k)->Ok_0;
            &&& m.effective == grown_size(lambda, start.effective, k)
            &&& m.theta.len() == start.theta.len()
            &&& k > 0 ==> m.p.len() == dimension(x.width as nat, fit_intercept) && exact_gram(m.p)
        }),
    decreases k,
{
    if k > 0 {
        lemma_rows_keep_gram(start, x, y, fit_intercept, lambda, (k - 1) as nat);
        let before = start.after(x, y, fit_intercept, lambda, (k - 1) as nat)->Ok_0;
        let z = design(x, k - 1, fit_intercept);
        let next = before.observed(z, y[k - 1], lambda)->Ok_0;
        assert(x.rows[k - 1]@.len() == x.width);
        assert(z.len() == dimension(x.width as nat, fit_intercept));
        assert forall|r: int, c: int|
            #![trigger next.p[r][c]]
            0 <= r < next.p.len() && 0 <= c < next.p.len() implies {
            &&& next.p[r][c].is_finite()
            &&& next.p[r][c] == next.p[c][r]
            &&& r == c ==> next.p[r][c].gt(zero())
        } by {
            law_gram_stays_symmetric(before, z, y[k - 1], lambda, r, c);
            if r <= c {
                assert(next.p[r][c].is_finite());
            } else {
                assert(next.p[c][r].is_finite());
            }
        }
    }
}

/// What a batch, accepted or refused, does to a model.
pub open spec fn stepped(
    before: LinearRegression,
    x: Matrix,
    y: Option<Seq<Double>>,
    after: LinearRegression,
) -> bool {
    if before.refusals(&x, y).len() > 0 {
        after == before
    } else {
        y is Some && after.is_after(&before, &x, y->0)
    }
}

/// A model that was never fitted, whatever its settings.
pub open spec fn unfitted(model: LinearRegression) -> bool {
    &&& !model.initialized
    &&& model.theta@.len() == 0
    &&& model.p_mat is None
    &&& model.effective_sample_size == zero()
    &&& model.n_seen == 0
}

/// The states of a model between some batches, from before the first one on.
pub open spec fn recorded(
    states: Seq<LinearRegression>,
    batches: Seq<(Matrix, Option<Seq<Double>>)>,
) -> bool {
    &&& states.len() == batches.len() + 1
    &&& unfitted(states[0])
    &&& forall|i: int| 0 <= i < batches.len() ==> (#[trigger] batches[i]).0.wf()
    &&& forall|i: int|
        0 <= i < batches.len() ==> stepped(#[trigger] states[i], batches[i].0, batches[i].1, states[i + 1])
}

/// Rows in the accepted ones of the first `k` batches.
pub open spec fn accepted_rows(
    states: Seq<LinearRegression>,
    batches: Seq<(Matrix, Option<Seq<Double>>)>,
    k: nat,
) -> nat
    decreases k,
{
    if k == 0 {
        0
    } else {
        let earlier = accepted_rows(states, batches, (k - 1) as nat);
        if states[k - 1].refusals(&batches[k - 1].0, batches[k - 1].1).len() > 0 {
            earlier
        } else {
            earlier + batches[k - 1].0.height()
        }
    }
}

/// In every state that batches lead to, refused ones among them: there is an inverse
/// Gram matrix exactly once a batch was accepted; it is square with one row per
/// coefficient, finite and exactly symmetric, and its diagonal is positive. The
/// effective sample size is that of the accepted rows.
pub proof fn law_gram_in_every_state(
    states: Seq<LinearRegression>,
    batches: Seq<(Matrix, Option<Seq<Double>>)>,
    k: nat,
)
    requires
        recorded(states, batches),
        k <= batches.len(),
    ensures
        ({
            let s = states[k as int];
            let rows = accepted_rows(states, batches, k);
            &&& s.n_seen == rows
            &&& s.p_mat is None <==> rows == 0
            &&& s.initialized <==> rows > 0
            &&& s.p_mat is Some ==> {
                &&& s.p_mat->0.wf()
                &&& s.p_mat->0.height() == s.theta@.len()
                &&& s.p_mat->0.width == s.theta@.len()
                &&& s.theta@.len() == dimension(s.n_features as nat, s.fit_intercept)
                &&& exact_gram(s.p_mat->0.grid())
            }
            &&& s.forgetting_factor == states[0].forgetting_factor
            &&& s.effective_sample_size == grown_size(s.forgetting_factor, zero(), rows)
            &&& s.forgetting_factor == one() && rows <= 0x20_0000_0000_0000 ==> s.effective_sample_size
                == Double::from_u64(rows as u64)
        }),
    decreases k,
{
    let rows = accepted_rows(states, batches, k);
    if k > 0 {
        let before = states[k - 1];
        let after = states[k as int];
        let x = batches[k - 1].0;
        let y = batches[k - 1].1;
        law_gram_in_every_state(states, batches, (k - 1) as nat);
        assert(batches[k - 1].0.wf());
        assert(stepped(states[k - 1], batches[k - 1].0, batches[k - 1].1, states[k - 1 + 1]));
        if before.refusals(&x, y).len() == 0 {
            before.lemma_early(&x, y->0);
            let start = before.start(&x);
            lemma_rows_keep_gram(start, &x, y->0, before.fit_intercept, before.forgetting_factor, x.height());
            lemma_sizes_join(
                before.forgetting_factor,
                zero(),
                accepted_rows(states, batches, (k - 1) as nat),
                x.height(),
            );
            assert(start.theta.len() == dimension(x.width as nat, before.fit_intercept));
        }
    }
    if rows <= 0x20_0000_0000_0000 {
        law_size_without_forgetting(rows);
    }
}

} // verus!
