//! Recursive least squares in exact arithmetic.
//!
//! The recursion of the online regression, with real numbers in the place of rounded
//! ones. It keeps the inverse of the weighted Gram matrix and the coefficients that
//! minimise the weighted squared error. Where no operation is rounded, the regression
//! does the same; its effective sample size is close to the exact one in any case.

use crate::data::{dot_of, zero_seq, Matrix};
use crate::double::{
    law_order_is_numeric, lemma_fraction_shrinks, lemma_one, lemma_whole_is_exact, lemma_zero, lemma_zero_magnitude, one,
    zero, Double,
};
use crate::errors::{lemma_plus_error, lemma_times_error};
use crate::exact::abs_int;
use crate::online::linear_regression::{
    design, dimension, downdated, grown_size, law_size_is_bounded, product, scaled_identity, Model,
};
use vstd::arithmetic::power2::*;
use vstd::prelude::*;

verus! {

/// A quotient times its divisor.
pub proof fn lemma_over(a: real, d: real)
    by (nonlinear_arith)
    requires
        d != 0real,
    ensures
        d * (a / d) == a,
{
}

/// Products regroup.
pub proof fn lemma_regroup(a: real, b: real, c: real)
    by (nonlinear_arith)
    ensures
        a * (b * c) == (a * b) * c,
        a * (b * c) == b * (a * c),
{
}

/// Products spread over sums.
pub proof fn lemma_spread(a: real, b: real, c: real)
    by (nonlinear_arith)
    ensures
        a * (b + c) == a * b + a * c,
        a * (b - c) == a * b - a * c,
        (b + c) * a == b * a + c * a,
        (b - c) * a == b * a - c * a,
        a * b == b * a,
{
}

/// A factor other than zero cancels.
pub proof fn lemma_cancel(a: real, b: real, c: real)
    by (nonlinear_arith)
    requires
        a * b == a * c,
        a != 0real,
    ensures
        b == c,
{
}

/// Squares are not negative.
pub proof fn lemma_square(a: real)
    by (nonlinear_arith)
    ensures
        a * a >= 0real,
        a != 0real ==> a * a > 0real,
{
}

/// Products of numbers that are not negative are not negative.
pub proof fn lemma_product_sign(a: real, b: real)
    by (nonlinear_arith)
    requires
        a > 0real,
        b >= 0real,
    ensures
        a * b >= 0real,
        b > 0real ==> a * b > 0real,
{
}

/// Inner product over the first `n` entries.
pub open spec fn inner(a: Seq<real>, b: Seq<real>, n: nat) -> real
    decreases n,
{
    if n == 0 {
        0real
    } else {
        inner(a, b, (n - 1) as nat) + a[n - 1] * b[n - 1]
    }
}

/// Product of a matrix and a vector.
pub open spec fn image(p: Seq<Seq<real>>, z: Seq<real>) -> Seq<real> {
    Seq::new(z.len(), |i: int| inner(p[i], z, z.len()))
}

proof fn lemma_inner_commutes(a: Seq<real>, b: Seq<real>, n: nat)
    ensures
        inner(a, b, n) == inner(b, a, n),
    decreases n,
{
    if n > 0 {
        lemma_inner_commutes(a, b, (n - 1) as nat);
        lemma_spread(a[n - 1], b[n - 1], 0real);
    }
}

/// One vector, times `c`, is another plus `b` times a third.
spec fn combined(c: real, u: Seq<real>, s: Seq<real>, b: real, t: Seq<real>, n: nat) -> bool {
    forall|i: int| 0 <= i < n ==> c * #[trigger] u[i] == s[i] + b * t[i]
}

proof fn lemma_inner_combined(c: real, u: Seq<real>, s: Seq<real>, b: real, t: Seq<real>, v: Seq<real>, n: nat)
    requires
        combined(c, u, s, b, t, n),
    ensures
        c * inner(u, v, n) == inner(s, v, n) + b * inner(t, v, n),
        c * inner(v, u, n) == inner(v, s, n) + b * inner(v, t, n),
    decreases n,
{
    if n == 0 {
        lemma_spread(c, 0real, 0real);
        lemma_spread(b, 0real, 0real);
    } else {
        let m = (n - 1) as nat;
        let i = n - 1;
        lemma_inner_combined(c, u, s, b, t, v, m);
        lemma_spread(c, inner(u, v, m), u[i] * v[i]);
        lemma_spread(b, inner(t, v, m), t[i] * v[i]);
        lemma_regroup(c, u[i], v[i]);
        lemma_regroup(b, t[i], v[i]);
        lemma_spread(v[i], s[i], b * t[i]);
        lemma_inner_commutes(u, v, n);
        lemma_inner_commutes(s, v, n);
        lemma_inner_commutes(t, v, n);
    }
}

proof fn lemma_inner_is_positive(v: Seq<real>, n: nat)
    ensures
        inner(v, v, n) >= 0real,
        forall|i: int| 0 <= i < n && #[trigger] v[i] != 0real ==> inner(v, v, n) > 0real,
    decreases n,
{
    if n > 0 {
        lemma_inner_is_positive(v, (n - 1) as nat);
        lemma_square(v[n - 1]);
    }
}

/// The weighted Gram matrix of the first `k` rows, as a form: the inner products of two
/// vectors with each row, multiplied and summed. A row counts `lambda` times as much as
/// the next. Ahead of the rows stands `ridge` times the identity.
pub open spec fn gram(z: Seq<Seq<real>>, lambda: real, ridge: real, k: nat, u: Seq<real>, v: Seq<real>, n: nat) -> real
    decreases k,
{
    if k == 0 {
        ridge * inner(u, v, n)
    } else {
        lambda * gram(z, lambda, ridge, (k - 1) as nat, u, v, n) + inner(z[k - 1], u, n) * inner(z[k - 1], v, n)
    }
}

/// Inner product of a vector with the weighted sum of the first `k` rows times their
/// targets.
pub open spec fn moment(z: Seq<Seq<real>>, y: Seq<real>, lambda: real, k: nat, v: Seq<real>, n: nat) -> real
    decreases k,
{
    if k == 0 {
        0real
    } else {
        lambda * moment(z, y, lambda, (k - 1) as nat, v, n) + y[k - 1] * inner(z[k - 1], v, n)
    }
}

/// What coefficients cost: the weighted squared errors of the first `k` rows, and
/// `ridge` times the square of the coefficients' length, which fades like a row.
pub open spec fn loss(
    z: Seq<Seq<real>>,
    y: Seq<real>,
    lambda: real,
    ridge: real,
    k: nat,
    u: Seq<real>,
    n: nat,
) -> real
    decreases k,
{
    if k == 0 {
        ridge * inner(u, u, n)
    } else {
        let error = y[k - 1] - inner(z[k - 1], u, n);
        lambda * loss(z, y, lambda, ridge, (k - 1) as nat, u, n) + error * error
    }
}

/// The Gram form is symmetric.
pub proof fn lemma_gram_commutes(z: Seq<Seq<real>>, lambda: real, ridge: real, k: nat, u: Seq<real>, v: Seq<real>, n: nat)
    ensures
        gram(z, lambda, ridge, k, u, v, n) == gram(z, lambda, ridge, k, v, u, n),
    decreases k,
{
    if k == 0 {
        lemma_inner_commutes(u, v, n);
    } else {
        lemma_gram_commutes(z, lambda, ridge, (k - 1) as nat, u, v, n);
        lemma_spread(inner(z[k - 1], u, n), inner(z[k - 1], v, n), 0real);
    }
}

proof fn lemma_gram_combined(
    z: Seq<Seq<real>>,
    lambda: real,
    ridge: real,
    k: nat,
    c: real,
    u: Seq<real>,
    s: Seq<real>,
    b: real,
    t: Seq<real>,
    v: Seq<real>,
    n: nat,
)
    requires
        combined(c, u, s, b, t, n),
    ensures
        c * gram(z, lambda, ridge, k, u, v, n) == gram(z, lambda, ridge, k, s, v, n) + b * gram(
            z,
            lambda,
            ridge,
            k,
            t,
            v,
            n,
        ),
    decreases k,
{
    if k == 0 {
        let (p, q, r) = (inner(u, v, n), inner(s, v, n), inner(t, v, n));
        lemma_inner_combined(c, u, s, b, t, v, n);
        lemma_regroup(c, ridge, p);
        lemma_regroup(b, ridge, r);
        lemma_spread(ridge, q, b * r);
    } else {
        let j = (k - 1) as nat;
        let (p, q, r) = (
            gram(z, lambda, ridge, j, u, v, n),
            gram(z, lambda, ridge, j, s, v, n),
            gram(z, lambda, ridge, j, t, v, n),
        );
        let row = z[k - 1];
        let w = inner(row, v, n);
        let (d, e, f) = (inner(row, u, n), inner(row, s, n), inner(row, t, n));
        lemma_gram_combined(z, lambda, ridge, j, c, u, s, b, t, v, n);
        lemma_inner_combined(c, u, s, b, t, row, n);
        lemma_spread(c, lambda * p, d * w);
        lemma_spread(b, lambda * r, f * w);
        lemma_regroup(c, lambda, p);
        lemma_regroup(b, lambda, r);
        lemma_spread(lambda, q, b * r);
        lemma_regroup(c, d, w);
        lemma_regroup(b, f, w);
        lemma_spread(w, e, b * f);
    }
}

/// The Gram form of a vector with itself is not negative, and positive unless the
/// vector is zero.
pub proof fn law_gram_is_positive(z: Seq<Seq<real>>, lambda: real, ridge: real, k: nat, v: Seq<real>, n: nat)
    requires
        lambda > 0real,
        ridge > 0real,
    ensures
        gram(z, lambda, ridge, k, v, v, n) >= 0real,
        forall|i: int| 0 <= i < n && #[trigger] v[i] != 0real ==> gram(z, lambda, ridge, k, v, v, n) > 0real,
    decreases k,
{
    lemma_inner_is_positive(v, n);
    if k == 0 {
        lemma_product_sign(ridge, inner(v, v, n));
    } else {
        law_gram_is_positive(z, lambda, ridge, (k - 1) as nat, v, n);
        lemma_product_sign(lambda, gram(z, lambda, ridge, (k - 1) as nat, v, v, n));
        lemma_square(inner(z[k - 1], v, n));
    }
}

/// The state of the recursion.
pub struct Exact {
    /// The coefficients.
    pub theta: Seq<real>,
    /// The inverse of the Gram matrix.
    pub p: Seq<Seq<real>>,
    /// The effective sample size.
    pub size: real,
}

impl Exact {
    /// Coefficients of zero, and `p0` times the identity.
    pub open spec fn start(n: nat, p0: real) -> Exact {
        Exact {
            theta: Seq::new(n, |i: int| 0real),
            p: Seq::new(
                n,
                |i: int|
                    Seq::new(
                        n,
                        |j: int|
                            if i == j {
                                p0
                            } else {
                                0real
                            },
                    ),
            ),
            size: 0real,
        }
    }

    /// The denominator of the gain for a design row.
    pub open spec fn denominator(self, z: Seq<real>, lambda: real) -> real {
        lambda + inner(z, image(self.p, z), z.len())
    }

    /// The recursion after one row.
    pub open spec fn observed(self, z: Seq<real>, y: real, lambda: real) -> Exact {
        let pz = image(self.p, z);
        let denominator = self.denominator(z, lambda);
        let residual = y - inner(z, self.theta, z.len());
        Exact {
            theta: Seq::new(z.len(), |i: int| self.theta[i] + pz[i] / denominator * residual),
            p: Seq::new(
                z.len(),
                |i: int| Seq::new(z.len(), |j: int| (self.p[i][j] - pz[i] * pz[j] / denominator) / lambda),
            ),
            size: lambda * self.size + 1real,
        }
    }

    /// The recursion after the first `k` rows.
    pub open spec fn after(self, z: Seq<Seq<real>>, y: Seq<real>, lambda: real, k: nat) -> Exact
        decreases k,
    {
        if k == 0 {
            self
        } else {
            self.after(z, y, lambda, (k - 1) as nat).observed(z[k - 1], y[k - 1], lambda)
        }
    }

    /// The matrix is the inverse of a Gram matrix: the Gram form of the image of `w` with
    /// `v` is the inner product of `w` and `v`.
    pub open spec fn inverts(self, z: Seq<Seq<real>>, lambda: real, ridge: real, k: nat, n: nat) -> bool {
        forall|w: Seq<real>, v: Seq<real>|
            w.len() == n && v.len() == n ==> #[trigger] gram(z, lambda, ridge, k, image(self.p, w), v, n) == inner(
                w,
                v,
                n,
            )
    }

    /// The coefficients meet the normal equations: their Gram form with `v` is the inner
    /// product of `v` and the weighted sum of the rows times their targets.
    pub open spec fn balances(
        self,
        z: Seq<Seq<real>>,
        y: Seq<real>,
        lambda: real,
        ridge: real,
        k: nat,
        n: nat,
    ) -> bool {
        forall|v: Seq<real>|
            v.len() == n ==> #[trigger] gram(z, lambda, ridge, k, self.theta, v, n) == moment(z, y, lambda, k, v, n)
    }
}

/// Every one of the first `k` rows has `n` entries.
pub open spec fn rows_have(z: Seq<Seq<real>>, n: nat, k: nat) -> bool {
    forall|i: int| 0 <= i < k ==> (#[trigger] z[i]).len() == n
}

proof fn lemma_unit_inner(p: Seq<real>, i: int, p0: real, w: Seq<real>, n: nat)
    requires
        forall|j: int| 0 <= j < n ==> #[trigger] p[j] == if i == j {
            p0
        } else {
            0real
        },
    ensures
        inner(p, w, n) == if 0 <= i < n {
            p0 * w[i]
        } else {
            0real
        },
    decreases n,
{
    if n > 0 {
        lemma_unit_inner(p, i, p0, w, (n - 1) as nat);
        lemma_spread(w[n - 1], 0real, 0real);
    }
}

/// The start inverts the ridge.
pub proof fn lemma_start_inverts(z: Seq<Seq<real>>, lambda: real, p0: real, ridge: real, n: nat)
    requires
        ridge * p0 == 1real,
    ensures
        Exact::start(n, p0).inverts(z, lambda, ridge, 0, n),
{
    let s = Exact::start(n, p0);
    assert forall|w: Seq<real>, v: Seq<real>| w.len() == n && v.len() == n implies #[trigger] gram(
        z,
        lambda,
        ridge,
        0,
        image(s.p, w),
        v,
        n,
    ) == inner(w, v, n) by {
        let u = image(s.p, w);
        assert forall|i: int| 0 <= i < n implies 1real * #[trigger] u[i] == 0real * w[i] + p0 * w[i] by {
            lemma_unit_inner(s.p[i], i, p0, w, n);
            lemma_spread(w[i], 0real, 0real);
        }
        let none = Seq::new(n, |i: int| 0real * w[i]);
        assert(combined(1real, u, none, p0, w, n));
        lemma_inner_combined(1real, u, none, p0, w, v, n);
        assert(combined(0real, u, none, 0real, w, n)) by {
            assert forall|i: int| 0 <= i < n implies 0real * #[trigger] u[i] == none[i] + 0real * w[i] by {
                lemma_spread(u[i], 0real, 0real);
                lemma_spread(w[i], 0real, 0real);
            }
        }
        lemma_inner_combined(0real, u, none, 0real, w, v, n);
        lemma_spread(inner(u, v, n), 0real, 0real);
        lemma_spread(inner(w, v, n), 0real, 0real);
        lemma_regroup(ridge, p0, inner(w, v, n));
    }
}

/// The gain of a row: its image over the denominator.
spec fn gain(pz: Seq<real>, denominator: real) -> Seq<real> {
    Seq::new(pz.len(), |i: int| pz[i] / denominator)
}

proof fn lemma_fraction_product(a: real, b: real, d: real)
    requires
        d != 0real,
    ensures
        a * b / d == (a / d) * b,
{
    lemma_over(a * b, d);
    lemma_over(a, d);
    lemma_regroup(d, a / d, b);
    lemma_cancel(d, a * b / d, (a / d) * b);
}

/// Signs move out of products.
pub proof fn lemma_negated(a: real, b: real)
    by (nonlinear_arith)
    ensures
        (-a) * b == -(a * b),
        (-b) * a == -(a * b),
{
}

proof fn lemma_gain(m: Exact, z: Seq<Seq<real>>, lambda: real, ridge: real, k: nat, row: Seq<real>, n: nat)
    requires
        lambda > 0real,
        ridge > 0real,
        row.len() == n,
        m.inverts(z, lambda, ridge, k, n),
    ensures
        m.denominator(row, lambda) > 0real,
        ({
            let d = m.denominator(row, lambda);
            let g = gain(image(m.p, row), d);
            &&& combined(d, g, image(m.p, row), 0real, row, n)
            &&& d * inner(row, g, n) == d - lambda
            &&& forall|v: Seq<real>|
                v.len() == n ==> d * #[trigger] gram(z, lambda, ridge, k, g, v, n) == inner(row, v, n)
        }),
{
    let pz = image(m.p, row);
    let d = m.denominator(row, lambda);
    let g = gain(pz, d);
    assert(gram(z, lambda, ridge, k, pz, pz, n) == inner(row, pz, n));
    law_gram_is_positive(z, lambda, ridge, k, pz, n);
    assert forall|i: int| 0 <= i < n implies d * #[trigger] g[i] == pz[i] + 0real * row[i] by {
        lemma_over(pz[i], d);
        lemma_spread(row[i], 0real, 0real);
    }
    lemma_inner_combined(d, g, pz, 0real, row, row, n);
    lemma_spread(inner(row, row, n), 0real, 0real);
    assert forall|v: Seq<real>| v.len() == n implies d * #[trigger] gram(z, lambda, ridge, k, g, v, n) == inner(
        row,
        v,
        n,
    ) by {
        lemma_gram_combined(z, lambda, ridge, k, d, g, pz, 0real, row, v, n);
        lemma_spread(gram(z, lambda, ridge, k, row, v, n), 0real, 0real);
        assert(gram(z, lambda, ridge, k, pz, v, n) == inner(row, v, n));
    }
}

proof fn lemma_inverse_scalars(lambda: real, d: real, sigma: real, gamma: real, zeta: real, beta: real, rho: real)
    requires
        lambda != 0real,
        d * gamma == d - lambda,
        d * beta == rho,
        lambda * zeta == sigma + (-sigma) * gamma,
    ensures
        zeta * rho == sigma * beta,
{
    lemma_spread(d, sigma, (-sigma) * gamma);
    lemma_regroup(d, -sigma, gamma);
    lemma_spread(-sigma, d, lambda);
    lemma_negated(sigma, d);
    lemma_negated(sigma, lambda);
    lemma_regroup(d, lambda, zeta);
    lemma_spread(lambda, sigma, 0real);
    lemma_cancel(lambda, d * zeta, sigma);
    lemma_regroup(zeta, d, beta);
    lemma_spread(zeta, d, 0real);
}

proof fn lemma_residual_scalars(lambda: real, d: real, r: real, gamma: real, beta: real, rho: real)
    requires
        d * gamma == d - lambda,
        d * beta == rho,
    ensures
        lambda * (r * beta) + (r * gamma) * rho == r * rho,
{
    lemma_regroup(r, gamma, rho);
    lemma_regroup(gamma, d, beta);
    lemma_spread(gamma, d, 0real);
    lemma_spread(beta, d, lambda);
    lemma_spread(r, d * beta, lambda * beta);
    lemma_regroup(lambda, r, beta);
}

/// A row keeps the matrix the inverse.
pub proof fn lemma_inverse_step(m: Exact, z: Seq<Seq<real>>, y: real, lambda: real, ridge: real, k: nat, n: nat)
    requires
        lambda > 0real,
        ridge > 0real,
        k > 0,
        z[k - 1].len() == n,
        m.inverts(z, lambda, ridge, (k - 1) as nat, n),
    ensures
        m.observed(z[k - 1], y, lambda).inverts(z, lambda, ridge, k, n),
{
    let j = (k - 1) as nat;
    let row = z[k - 1];
    let pz = image(m.p, row);
    let d = m.denominator(row, lambda);
    let g = gain(pz, d);
    let next = m.observed(row, y, lambda);
    lemma_gain(m, z, lambda, ridge, j, row, n);
    assert forall|w: Seq<real>, v: Seq<real>| w.len() == n && v.len() == n implies #[trigger] gram(
        z,
        lambda,
        ridge,
        k,
        image(next.p, w),
        v,
        n,
    ) == inner(w, v, n) by {
        let u = image(next.p, w);
        let pw = image(m.p, w);
        let sigma = inner(pz, w, n);
        assert forall|i: int| 0 <= i < n implies lambda * #[trigger] u[i] == pw[i] + (-sigma) * g[i] by {
            assert forall|c: int| 0 <= c < n implies lambda * #[trigger] next.p[i][c] == m.p[i][c] + (-g[i]) * pz[c] by {
                lemma_over(m.p[i][c] - pz[i] * pz[c] / d, lambda);
                lemma_fraction_product(pz[i], pz[c], d);
                lemma_negated(g[i], pz[c]);
            }
            assert(combined(lambda, next.p[i], m.p[i], -g[i], pz, n));
            lemma_inner_combined(lambda, next.p[i], m.p[i], -g[i], pz, w, n);
            lemma_negated(g[i], sigma);
        }
        assert(combined(lambda, u, pw, -sigma, g, n));
        lemma_gram_combined(z, lambda, ridge, j, lambda, u, pw, -sigma, g, v, n);
        lemma_inner_combined(lambda, u, pw, -sigma, g, row, n);
        let beta = gram(z, lambda, ridge, j, g, v, n);
        let rho = inner(row, v, n);
        let gamma = inner(row, g, n);
        let zeta = inner(row, u, n);
        assert(gram(z, lambda, ridge, j, pw, v, n) == inner(w, v, n));
        assert(gram(z, lambda, ridge, j, pw, pz, n) == inner(w, pz, n));
        assert(gram(z, lambda, ridge, j, pz, pw, n) == inner(row, pw, n));
        lemma_gram_commutes(z, lambda, ridge, j, pw, pz, n);
        lemma_inner_commutes(w, pz, n);
        lemma_inverse_scalars(lambda, d, sigma, gamma, zeta, beta, rho);
        lemma_negated(sigma, beta);
    }
}

/// A row keeps the normal equations.
pub proof fn lemma_coefficients_step(
    m: Exact,
    z: Seq<Seq<real>>,
    y: Seq<real>,
    lambda: real,
    ridge: real,
    k: nat,
    n: nat,
)
    requires
        lambda > 0real,
        ridge > 0real,
        k > 0,
        z[k - 1].len() == n,
        m.inverts(z, lambda, ridge, (k - 1) as nat, n),
        m.balances(z, y, lambda, ridge, (k - 1) as nat, n),
    ensures
        m.observed(z[k - 1], y[k - 1], lambda).balances(z, y, lambda, ridge, k, n),
{
    let j = (k - 1) as nat;
    let row = z[k - 1];
    let d = m.denominator(row, lambda);
    let pz = image(m.p, row);
    let g = gain(pz, d);
    let next = m.observed(row, y[k - 1], lambda);
    let s = inner(row, m.theta, n);
    let r = y[k - 1] - s;
    lemma_gain(m, z, lambda, ridge, j, row, n);
    assert forall|i: int| 0 <= i < n implies 1real * #[trigger] next.theta[i] == m.theta[i] + r * g[i] by {
        lemma_spread(r, g[i], 0real);
    }
    assert(combined(1real, next.theta, m.theta, r, g, n));
    lemma_inner_combined(1real, next.theta, m.theta, r, g, row, n);
    assert forall|v: Seq<real>| v.len() == n implies #[trigger] gram(z, lambda, ridge, k, next.theta, v, n) == moment(
        z,
        y,
        lambda,
        k,
        v,
        n,
    ) by {
        let beta = gram(z, lambda, ridge, j, g, v, n);
        let rho = inner(row, v, n);
        let gamma = inner(row, g, n);
        let t = gram(z, lambda, ridge, j, m.theta, v, n);
        assert(t == moment(z, y, lambda, j, v, n));
        lemma_gram_combined(z, lambda, ridge, j, 1real, next.theta, m.theta, r, g, v, n);
        lemma_residual_scalars(lambda, d, r, gamma, beta, rho);
        lemma_spread(lambda, t, r * beta);
        lemma_spread(rho, s, r * gamma);
        lemma_spread(rho, s, r);
    }
}

/// The recursion is least squares. After every row its matrix is the inverse of the
/// weighted Gram matrix, and its coefficients meet the normal equations.
pub proof fn law_recursion_solves(z: Seq<Seq<real>>, y: Seq<real>, lambda: real, p0: real, ridge: real, k: nat, n: nat)
    requires
        lambda > 0real,
        p0 > 0real,
        ridge * p0 == 1real,
        rows_have(z, n, k),
    ensures
        Exact::start(n, p0).after(z, y, lambda, k).theta.len() == n,
        Exact::start(n, p0).after(z, y, lambda, k).inverts(z, lambda, ridge, k, n),
        Exact::start(n, p0).after(z, y, lambda, k).balances(z, y, lambda, ridge, k, n),
    decreases k,
{
    lemma_ridge(ridge, p0);
    let start = Exact::start(n, p0);
    if k == 0 {
        lemma_start_inverts(z, lambda, p0, ridge, n);
        assert forall|v: Seq<real>| v.len() == n implies #[trigger] gram(z, lambda, ridge, 0, start.theta, v, n)
            == moment(z, y, lambda, 0, v, n) by {
            lemma_zero_inner(start.theta, v, n);
            lemma_spread(ridge, 0real, 0real);
        }
    } else {
        law_recursion_solves(z, y, lambda, p0, ridge, (k - 1) as nat, n);
        let m = start.after(z, y, lambda, (k - 1) as nat);
        lemma_inverse_step(m, z, y[k - 1], lambda, ridge, k, n);
        lemma_coefficients_step(m, z, y, lambda, ridge, k, n);
    }
}

/// The ridge is positive.
pub proof fn lemma_ridge(ridge: real, p0: real)
    by (nonlinear_arith)
    requires
        p0 > 0real,
        ridge * p0 == 1real,
    ensures
        ridge > 0real,
{
}

/// The inner product with zeros.
pub proof fn lemma_zero_inner(a: Seq<real>, v: Seq<real>, n: nat)
    requires
        forall|i: int| 0 <= i < n ==> #[trigger] a[i] == 0real,
    ensures
        inner(a, v, n) == 0real,
    decreases n,
{
    if n > 0 {
        lemma_zero_inner(a, v, (n - 1) as nat);
        lemma_spread(v[n - 1], 0real, 0real);
    }
}

/// The weighted sum of the squared targets of the first `k` rows.
spec fn energy(y: Seq<real>, lambda: real, k: nat) -> real
    decreases k,
{
    if k == 0 {
        0real
    } else {
        lambda * energy(y, lambda, (k - 1) as nat) + y[k - 1] * y[k - 1]
    }
}

proof fn lemma_square_of_difference(a: real, b: real)
    by (nonlinear_arith)
    ensures
        (a - b) * (a - b) == a * a - a * b - a * b + b * b,
{
}

proof fn lemma_loss_expands(
    z: Seq<Seq<real>>,
    y: Seq<real>,
    lambda: real,
    ridge: real,
    k: nat,
    u: Seq<real>,
    n: nat,
)
    ensures
        loss(z, y, lambda, ridge, k, u, n) == gram(z, lambda, ridge, k, u, u, n) - moment(z, y, lambda, k, u, n)
            - moment(z, y, lambda, k, u, n) + energy(y, lambda, k),
    decreases k,
{
    if k > 0 {
        let j = (k - 1) as nat;
        let g = gram(z, lambda, ridge, j, u, u, n);
        let m = moment(z, y, lambda, j, u, n);
        let e = energy(y, lambda, j);
        lemma_loss_expands(z, y, lambda, ridge, j, u, n);
        lemma_square_of_difference(y[k - 1], inner(z[k - 1], u, n));
        lemma_spread(lambda, g - m - m, e);
        lemma_spread(lambda, g - m, m);
        lemma_spread(lambda, g, m);
    }
}

/// Coefficients that meet the normal equations are the minimiser. Any others cost as
/// much as they do plus the Gram form of the difference, which is positive unless there
/// is none.
pub proof fn law_normal_equations_minimise(
    e: Exact,
    z: Seq<Seq<real>>,
    y: Seq<real>,
    lambda: real,
    ridge: real,
    k: nat,
    u: Seq<real>,
    n: nat,
)
    requires
        lambda > 0real,
        ridge > 0real,
        e.theta.len() == n,
        e.balances(z, y, lambda, ridge, k, n),
        u.len() == n,
    ensures
        ({
            let best = loss(z, y, lambda, ridge, k, e.theta, n);
            let cost = loss(z, y, lambda, ridge, k, u, n);
            let apart = Seq::new(n, |i: int| u[i] - e.theta[i]);
            &&& cost == best + gram(z, lambda, ridge, k, apart, apart, n)
            &&& best <= cost
            &&& u != e.theta ==> best < cost
        }),
{
    let theta = e.theta;
    let apart = Seq::new(n, |i: int| u[i] - theta[i]);
    assert forall|i: int| 0 <= i < n implies 1real * #[trigger] apart[i] == u[i] + (-1real) * theta[i] by {
        lemma_negated(1real, theta[i]);
    }
    assert(combined(1real, apart, u, -1real, theta, n));
    lemma_gram_combined(z, lambda, ridge, k, 1real, apart, u, -1real, theta, apart, n);
    lemma_gram_combined(z, lambda, ridge, k, 1real, apart, u, -1real, theta, u, n);
    lemma_gram_combined(z, lambda, ridge, k, 1real, apart, u, -1real, theta, theta, n);
    lemma_gram_commutes(z, lambda, ridge, k, apart, u, n);
    lemma_gram_commutes(z, lambda, ridge, k, apart, theta, n);
    lemma_gram_commutes(z, lambda, ridge, k, u, theta, n);
    assert(gram(z, lambda, ridge, k, theta, u, n) == moment(z, y, lambda, k, u, n));
    assert(gram(z, lambda, ridge, k, theta, theta, n) == moment(z, y, lambda, k, theta, n));
    lemma_loss_expands(z, y, lambda, ridge, k, u, n);
    lemma_loss_expands(z, y, lambda, ridge, k, theta, n);
    law_gram_is_positive(z, lambda, ridge, k, apart, n);
    if u != theta {
        assert(!(u =~= theta));
        let i = choose|i: int| 0 <= i < n && u[i] != theta[i];
        assert(apart[i] != 0real);
    }
}

/// The coefficients are the minimiser. Any others cost as much as they do plus the Gram
/// form of the difference, which is positive unless there is none.
pub proof fn law_coefficients_minimise(
    z: Seq<Seq<real>>,
    y: Seq<real>,
    lambda: real,
    p0: real,
    ridge: real,
    k: nat,
    u: Seq<real>,
    n: nat,
)
    requires
        lambda > 0real,
        p0 > 0real,
        ridge * p0 == 1real,
        rows_have(z, n, k),
        u.len() == n,
    ensures
        ({
            let theta = Exact::start(n, p0).after(z, y, lambda, k).theta;
            let best = loss(z, y, lambda, ridge, k, theta, n);
            let cost = loss(z, y, lambda, ridge, k, u, n);
            let apart = Seq::new(n, |i: int| u[i] - theta[i]);
            &&& cost == best + gram(z, lambda, ridge, k, apart, apart, n)
            &&& best <= cost
            &&& u != theta ==> best < cost
        }),
{
    lemma_ridge(ridge, p0);
    law_recursion_solves(z, y, lambda, p0, ridge, k, n);
    law_normal_equations_minimise(Exact::start(n, p0).after(z, y, lambda, k), z, y, lambda, ridge, k, u, n);
}

/// Later rows do not change what came before.
pub proof fn lemma_history_prefix(
    z: Seq<Seq<real>>,
    y: Seq<real>,
    row: Seq<real>,
    target: real,
    lambda: real,
    ridge: real,
    k: nat,
    u: Seq<real>,
    v: Seq<real>,
    n: nat,
)
    requires
        k <= z.len(),
        k <= y.len(),
    ensures
        gram(z.push(row), lambda, ridge, k, u, v, n) == gram(z, lambda, ridge, k, u, v, n),
        moment(z.push(row), y.push(target), lambda, k, v, n) == moment(z, y, lambda, k, v, n),
    decreases k,
{
    if k > 0 {
        lemma_history_prefix(z, y, row, target, lambda, ridge, (k - 1) as nat, u, v, n);
    }
}

/// Coefficients scale with the targets, by any factor.
pub proof fn law_exact_coefficients_scale(
    start: Exact,
    other: Exact,
    z: Seq<Seq<real>>,
    y: Seq<real>,
    w: Seq<real>,
    lambda: real,
    f: real,
    k: nat,
    n: nat,
)
    requires
        rows_have(z, n, k),
        start.p == other.p,
        start.theta.len() == n,
        other.theta.len() == n,
        forall|i: int| 0 <= i < n ==> #[trigger] other.theta[i] == f * start.theta[i],
        forall|i: int| 0 <= i < k ==> #[trigger] w[i] == f * y[i],
    ensures
        other.after(z, w, lambda, k).p == start.after(z, y, lambda, k).p,
        forall|i: int|
            0 <= i < n ==> #[trigger] other.after(z, w, lambda, k).theta[i] == f * start.after(
                z,
                y,
                lambda,
                k,
            ).theta[i],
    decreases k,
{
    if k > 0 {
        let j = (k - 1) as nat;
        law_exact_coefficients_scale(start, other, z, y, w, lambda, f, j, n);
        let a = start.after(z, y, lambda, j);
        let b = other.after(z, w, lambda, j);
        let row = z[k - 1];
        let pz = image(a.p, row);
        let d = a.denominator(row, lambda);
        let s = inner(row, a.theta, n);
        let r = y[k - 1] - s;
        assert forall|i: int| 0 <= i < n implies 1real * #[trigger] b.theta[i] == 0real * row[i] + f * a.theta[i] by {
            lemma_spread(row[i], 0real, 0real);
        }
        let none = Seq::new(n, |i: int| 0real * row[i]);
        assert forall|i: int| 0 <= i < n implies #[trigger] none[i] == 0real by {
            lemma_spread(row[i], 0real, 0real);
        }
        assert(combined(1real, b.theta, none, f, a.theta, n));
        lemma_inner_combined(1real, b.theta, none, f, a.theta, row, n);
        lemma_zero_inner(none, row, n);
        lemma_inner_commutes(none, row, n);
        lemma_spread(f, y[k - 1], s);
        assert forall|i: int| 0 <= i < n implies #[trigger] b.observed(row, w[k - 1], lambda).theta[i] == f
            * a.observed(row, y[k - 1], lambda).theta[i] by {
            let g = pz[i] / d;
            lemma_regroup(f, g, r);
            lemma_spread(f, a.theta[i], g * r);
        }
    }
}

/// `base` to the power of `k`.
pub open spec fn powered(base: real, k: nat) -> real
    decreases k,
{
    if k == 0 {
        1real
    } else {
        base * powered(base, (k - 1) as nat)
    }
}

/// The exact effective sample size after `k` rows.
pub open spec fn exact_size(lambda: real, k: nat) -> real
    decreases k,
{
    if k == 0 {
        0real
    } else {
        lambda * exact_size(lambda, (k - 1) as nat) + 1real
    }
}

/// The exact effective sample size is `(1 - lambda^k) / (1 - lambda)`, or `k` without
/// forgetting.
pub proof fn law_size_has_a_closed_form(lambda: real, k: nat)
    ensures
        lambda != 1real ==> exact_size(lambda, k) == (1real - powered(lambda, k)) / (1real - lambda),
        lambda == 1real ==> exact_size(lambda, k) == k as real,
    decreases k,
{
    let size = exact_size(lambda, k);
    let gap = 1real - lambda;
    if k > 0 {
        let j = (k - 1) as nat;
        law_size_has_a_closed_form(lambda, j);
        let before = exact_size(lambda, j);
        if lambda != 1real {
            lemma_over(1real - powered(lambda, j), gap);
            lemma_spread(gap, lambda * before, 1real);
            lemma_regroup(gap, lambda, before);
            lemma_spread(lambda, 1real, powered(lambda, j));
        } else {
            lemma_spread(before, 1real, 0real);
        }
    } else {
        lemma_spread(gap, 0real, 0real);
    }
    if lambda != 1real {
        lemma_over(1real - powered(lambda, k), gap);
        lemma_cancel(gap, size, (1real - powered(lambda, k)) / gap);
    }
}

proof fn lemma_size_after(start: Exact, z: Seq<Seq<real>>, y: Seq<real>, lambda: real, k: nat)
    requires
        start.size == 0real,
    ensures
        start.after(z, y, lambda, k).size == exact_size(lambda, k),
    decreases k,
{
    if k > 0 {
        lemma_size_after(start, z, y, lambda, (k - 1) as nat);
    }
}

/// The value of a finite number.
pub open spec fn real_of(d: Double) -> real {
    d.value() as real / pow2(1074) as real
}

/// The values of some numbers.
pub open spec fn reals(s: Seq<Double>) -> Seq<real> {
    Seq::new(s.len(), |i: int| real_of(s[i]))
}

/// The values of the design rows.
pub open spec fn real_rows(x: &Matrix, fit_intercept: bool) -> Seq<Seq<real>> {
    Seq::new(x.height(), |i: int| reals(design(x, i, fit_intercept)))
}

/// The values of a state of the rounded recursion.
pub open spec fn exact_of(m: Model) -> Exact {
    Exact {
        theta: reals(m.theta),
        p: Seq::new(m.p.len(), |i: int| reals(m.p[i])),
        size: real_of(m.effective),
    }
}

/// A sum that is not rounded.
pub open spec fn sums(a: Double, b: Double) -> bool {
    real_of(a.plus(b)) == real_of(a) + real_of(b)
}

/// A difference that is not rounded.
pub open spec fn subtracts(a: Double, b: Double) -> bool {
    real_of(a.minus(b)) == real_of(a) - real_of(b)
}

/// A product that is not rounded.
pub open spec fn multiplies(a: Double, b: Double) -> bool {
    real_of(a.times(b)) == real_of(a) * real_of(b)
}

/// A quotient that is not rounded.
pub open spec fn divides(a: Double, b: Double) -> bool {
    real_of(a.over(b)) == real_of(a) / real_of(b)
}

/// An inner product no step of which is rounded.
pub open spec fn dot_is_exact(a: Seq<Double>, b: Seq<Double>, n: nat) -> bool
    decreases n,
{
    n == 0 || {
        &&& dot_is_exact(a, b, (n - 1) as nat)
        &&& multiplies(a[n - 1], b[n - 1])
        &&& sums(dot_of(a, b, (n - 1) as nat), a[n - 1].times(b[n - 1]))
    }
}

/// An entry of the matrix that a step does not round.
pub open spec fn entry_is_exact(
    p: Seq<Seq<Double>>,
    pz: Seq<Double>,
    denominator: Double,
    lambda: Double,
    r: int,
    c: int,
) -> bool {
    let part = pz[r].times(pz[c]);
    &&& multiplies(pz[r], pz[c])
    &&& divides(part, denominator)
    &&& subtracts(p[r][c], part.over(denominator))
    &&& divides(p[r][c].minus(part.over(denominator)), lambda)
}

/// A coefficient that a step does not round.
pub open spec fn coefficient_is_exact(theta: Double, pz: Double, denominator: Double, residual: Double) -> bool {
    &&& divides(pz, denominator)
    &&& multiplies(pz.over(denominator), residual)
    &&& sums(theta, pz.over(denominator).times(residual))
}

/// A row no operation on which is rounded.
pub open spec fn row_is_exact(m: Model, z: Seq<Double>, y: Double, lambda: Double) -> bool {
    let n = z.len();
    let pz = product(m.p, z);
    let denominator = m.denominator(z, lambda);
    let fitted = dot_of(z, m.theta, n);
    &&& forall|r: int| 0 <= r < n ==> dot_is_exact(#[trigger] m.p[r], z, n)
    &&& dot_is_exact(z, pz, n)
    &&& sums(lambda, dot_of(z, pz, n))
    &&& dot_is_exact(z, m.theta, n)
    &&& subtracts(y, fitted)
    &&& forall|i: int|
        0 <= i < n ==> coefficient_is_exact(#[trigger] m.theta[i], pz[i], denominator, y.minus(fitted))
    &&& forall|r: int, c: int|
        0 <= r <= c < n ==> #[trigger] entry_is_exact(m.p, pz, denominator, lambda, r, c)
    &&& multiplies(lambda, m.effective)
    &&& sums(lambda.times(m.effective), one())
}

/// The first `k` rows, none of which is rounded.
pub open spec fn rows_are_exact(
    start: Model,
    x: &Matrix,
    y: Seq<Double>,
    fit_intercept: bool,
    lambda: Double,
    k: nat,
) -> bool
    decreases k,
{
    k == 0 || {
        &&& rows_are_exact(start, x, y, fit_intercept, lambda, (k - 1) as nat)
        &&& start.after(x, y, fit_intercept, lambda, (k - 1) as nat) matches Ok(m) ==> row_is_exact(
            m,
            design(x, k - 1, fit_intercept),
            y[k - 1],
            lambda,
        )
    }
}

/// The values of zero and one.
pub proof fn lemma_simple_values()
    ensures
        real_of(zero()) == 0real,
        real_of(one()) == 1real,
{
    lemma_pow2_pos(1074);
    lemma_zero();
    lemma_zero_magnitude(zero());
    lemma_one();
    let unit = pow2(1074) as real;
    assert(unit > 0real);
    lemma_over(0real, unit);
    lemma_over(unit, unit);
    lemma_spread(unit, 0real, 0real);
    lemma_cancel(unit, 0real / unit, 0real);
    lemma_cancel(unit, unit / unit, 1real);
}

/// An inner product that is not rounded.
pub proof fn lemma_exact_dot(a: Seq<Double>, b: Seq<Double>, n: nat)
    requires
        n <= a.len(),
        n <= b.len(),
        dot_is_exact(a, b, n),
    ensures
        real_of(dot_of(a, b, n)) == inner(reals(a), reals(b), n),
    decreases n,
{
    lemma_simple_values();
    if n > 0 {
        lemma_exact_dot(a, b, (n - 1) as nat);
    }
}

/// A square matrix that equals its mirror image.
pub open spec fn mirrored(p: Seq<Seq<Double>>, n: nat) -> bool {
    &&& p.len() == n
    &&& forall|r: int| 0 <= r < n ==> (#[trigger] p[r]).len() == n
    &&& forall|r: int, c: int| #![trigger p[r][c]] 0 <= r < n && 0 <= c < n ==> p[r][c] == p[c][r]
}

proof fn lemma_exact_row(m: Model, z: Seq<Double>, y: Double, lambda: Double)
    requires
        m.theta.len() == z.len(),
        mirrored(m.p, z.len()),
        m.observed(z, y, lambda) is Ok,
        row_is_exact(m, z, y, lambda),
    ensures
        exact_of(m.observed(z, y, lambda)->Ok_0) == exact_of(m).observed(reals(z), real_of(y), real_of(lambda)),
        m.observed(z, y, lambda)->Ok_0.theta.len() == z.len(),
        mirrored(m.observed(z, y, lambda)->Ok_0.p, z.len()),
{
    let n = z.len();
    let e = exact_of(m);
    let rz = reals(z);
    let pz = product(m.p, z);
    let d = m.denominator(z, lambda);
    let next = m.observed(z, y, lambda)->Ok_0;
    let want = e.observed(rz, real_of(y), real_of(lambda));
    let have = exact_of(next);
    lemma_simple_values();
    assert forall|r: int| 0 <= r < n implies #[trigger] image(e.p, rz)[r] == real_of(pz[r]) by {
        assert(m.p[r].len() == n);
        lemma_exact_dot(m.p[r], z, n);
    }
    assert(image(e.p, rz) =~= reals(pz));
    lemma_exact_dot(z, pz, n);
    lemma_exact_dot(z, m.theta, n);
    assert(real_of(d) == e.denominator(rz, real_of(lambda)));
    assert forall|i: int| 0 <= i < n implies #[trigger] have.theta[i] == want.theta[i] by {
        assert(coefficient_is_exact(m.theta[i], pz[i], d, y.minus(dot_of(z, m.theta, n))));
    }
    assert(have.theta =~= want.theta);
    assert forall|r: int| 0 <= r < n implies #[trigger] have.p[r] == want.p[r] by {
        assert forall|c: int| 0 <= c < n implies #[trigger] have.p[r][c] == want.p[r][c] by {
            let (a, b) = if r <= c {
                (r, c)
            } else {
                (c, r)
            };
            assert(entry_is_exact(m.p, pz, d, lambda, a, b));
            assert(next.p[r][c] == downdated(m.p, pz, d, lambda, a, b));
            assert(m.p[r][c] == m.p[c][r]);
            lemma_spread(real_of(pz[r]), real_of(pz[c]), 0real);
        }
        assert(have.p[r] =~= want.p[r]);
    }
    assert(have.p =~= want.p);
}

/// Where no operation is rounded, the regression is the recursion in exact arithmetic,
/// and all that holds of that holds of it.
pub proof fn law_unrounded_rows_are_exact(
    start: Model,
    x: &Matrix,
    y: Seq<Double>,
    fit_intercept: bool,
    lambda: Double,
    k: nat,
)
    requires
        x.wf(),
        k <= x.height() == y.len(),
        start.theta.len() == dimension(x.width as nat, fit_intercept),
        mirrored(start.p, start.theta.len()),
        start.after(x, y, fit_intercept, lambda, k) is Ok,
        rows_are_exact(start, x, y, fit_intercept, lambda, k),
    ensures
        exact_of(start.after(x, y, fit_intercept, lambda, k)->Ok_0) == exact_of(start).after(
            real_rows(x, fit_intercept),
            reals(y),
            real_of(lambda),
            k,
        ),
        start.after(x, y, fit_intercept, lambda, k)->Ok_0.theta.len() == start.theta.len(),
        mirrored(start.after(x, y, fit_intercept, lambda, k)->Ok_0.p, start.theta.len()),
    decreases k,
{
    if k > 0 {
        law_unrounded_rows_are_exact(start, x, y, fit_intercept, lambda, (k - 1) as nat);
        assert(x.rows[k - 1]@.len() == x.width);
        lemma_exact_row(
            start.after(x, y, fit_intercept, lambda, (k - 1) as nat)->Ok_0,
            design(x, k - 1, fit_intercept),
            y[k - 1],
            lambda,
        );
    }
}

proof fn lemma_blank_start(d: nat, p0: Double, start: Model)
    requires
        start.theta == zero_seq(d),
        start.p == scaled_identity(d, p0),
        start.effective == zero(),
    ensures
        exact_of(start) == Exact::start(d, real_of(p0)),
        mirrored(start.p, d),
{
    lemma_simple_values();
    let e = exact_of(start);
    let want = Exact::start(d, real_of(p0));
    assert(e.theta =~= want.theta);
    assert forall|i: int| 0 <= i < d implies #[trigger] e.p[i] == want.p[i] by {
        assert(e.p[i] =~= want.p[i]);
    }
    assert(e.p =~= want.p);
}

/// The regression is least squares. Where no operation on the first `k` rows is rounded,
/// its matrix is the inverse of the weighted Gram matrix, its coefficients meet the
/// normal equations and cost less than any others, and its effective sample size is
/// `(1 - lambda^k) / (1 - lambda)`, or `k` without forgetting.
pub proof fn law_unrounded_regression_is_least_squares(
    start: Model,
    x: &Matrix,
    y: Seq<Double>,
    fit_intercept: bool,
    lambda: Double,
    p0: Double,
    k: nat,
    u: Seq<real>,
)
    requires
        x.wf(),
        k <= x.height() == y.len(),
        real_of(lambda) > 0real,
        real_of(p0) > 0real,
        start.theta == zero_seq(dimension(x.width as nat, fit_intercept)),
        start.p == scaled_identity(dimension(x.width as nat, fit_intercept), p0),
        start.effective == zero(),
        start.after(x, y, fit_intercept, lambda, k) is Ok,
        rows_are_exact(start, x, y, fit_intercept, lambda, k),
        u.len() == dimension(x.width as nat, fit_intercept),
    ensures
        ({
            let n = dimension(x.width as nat, fit_intercept);
            let end = exact_of(start.after(x, y, fit_intercept, lambda, k)->Ok_0);
            let (z, targets, weight) = (real_rows(x, fit_intercept), reals(y), real_of(lambda));
            let ridge = 1real / real_of(p0);
            &&& end.inverts(z, weight, ridge, k, n)
            &&& end.balances(z, targets, weight, ridge, k, n)
            &&& u != end.theta ==> loss(z, targets, weight, ridge, k, end.theta, n) < loss(
                z,
                targets,
                weight,
                ridge,
                k,
                u,
                n,
            )
            &&& weight != 1real ==> end.size == (1real - powered(weight, k)) / (1real - weight)
            &&& weight == 1real ==> end.size == k as real
        }),
{
    let n = dimension(x.width as nat, fit_intercept);
    let (z, targets, weight) = (real_rows(x, fit_intercept), reals(y), real_of(lambda));
    let ridge = 1real / real_of(p0);
    lemma_blank_start(n, p0, start);
    law_unrounded_rows_are_exact(start, x, y, fit_intercept, lambda, k);
    lemma_over(1real, real_of(p0));
    lemma_spread(ridge, real_of(p0), 0real);
    assert forall|i: int| 0 <= i < k implies (#[trigger] z[i]).len() == n by {
        assert(x.rows[i]@.len() == x.width);
    }
    law_recursion_solves(z, targets, weight, real_of(p0), ridge, k, n);
    law_coefficients_minimise(z, targets, weight, real_of(p0), ridge, k, u, n);
    lemma_size_after(exact_of(start), z, targets, weight, k);
    law_size_has_a_closed_form(weight, k);
}

/// The size of a real number.
pub open spec fn abs_real(x: real) -> real {
    if x < 0real {
        -x
    } else {
        x
    }
}

/// Casts keep products.
pub proof fn lemma_casts(x: int, y: int)
    by (nonlinear_arith)
    ensures
        (x * y) as real == x as real * (y as real),
{
}

/// A positive factor keeps the sign.
pub proof fn lemma_scaled_abs(g: real, x: real)
    by (nonlinear_arith)
    requires
        g > 0real,
    ensures
        x >= 0real ==> g * x >= 0real,
        x < 0real ==> g * x < 0real,
        g * (-x) == -(g * x),
{
}

/// A positive factor cancels in a comparison.
pub proof fn lemma_divided(g: real, x: real, y: real)
    by (nonlinear_arith)
    requires
        g > 0real,
        g * x <= g * y,
    ensures
        x <= y,
{
}

/// The value of a number, in smallest units.
pub proof fn lemma_units(d: Double)
    ensures
        pow2(1074) as real > 0real,
        d.value() as real == pow2(1074) as real * real_of(d),
{
    lemma_pow2_pos(1074);
    lemma_over(d.value() as real, pow2(1074) as real);
}

proof fn lemma_real_sum(a: Double, b: Double)
    requires
        a.plus(b).finite(),
        a.plus(b).value() >= 0,
    ensures
        abs_real(real_of(a.plus(b)) - (real_of(a) + real_of(b))) * (0x20_0000_0000_0000int as real) <= real_of(a.plus(b)),
{
    let g = pow2(1074) as real;
    let c = a.plus(b);
    lemma_units(a);
    lemma_units(b);
    lemma_units(c);
    lemma_plus_error(a, b);
    let (x, y, z) = (real_of(a), real_of(b), real_of(c));
    let off = z - (x + y);
    lemma_spread(g, z, x + y);
    lemma_spread(g, x, y);
    assert(g * off == c.value() as real - (a.value() as real + b.value() as real));
    lemma_scaled_abs(g, off);
    assert((g * abs_real(off)) * (0x20_0000_0000_0000int as real) <= g * z);
    lemma_regroup(g, abs_real(off), (0x20_0000_0000_0000int as real));
    lemma_divided(g, abs_real(off) * (0x20_0000_0000_0000int as real), z);
}

proof fn lemma_real_product(a: Double, b: Double)
    requires
        a.times(b).finite(),
        a.value() >= 0,
        b.value() >= 0,
    ensures
        abs_real(real_of(a.times(b)) - real_of(a) * real_of(b)) * (0x10_0000_0000_0000int as real) <= 1real + real_of(a)
            * real_of(b),
{
    let g = pow2(1074) as real;
    let parts = 0x10_0000_0000_0000int as real;
    let c = a.times(b);
    let (va, vb, vc) = (a.value(), b.value(), c.value());
    let (x, y, z) = (real_of(a), real_of(b), real_of(c));
    lemma_units(a);
    lemma_units(b);
    lemma_units(c);
    lemma_times_error(a, b);
    lemma2_to64();
    lemma_pow2_adds(64, 1010);
    lemma_pow2_pos(1010);
    let u = pow2(1074) as int;
    assert(u >= 0x10_0000_0000_0000) by (nonlinear_arith)
        requires
            u == pow2(64) * pow2(1010),
            pow2(64) >= 0x10_0000_0000_0000,
            pow2(1010) >= 1,
    ;
    let whole = u * vc - va * vb;
    assert(abs_int(whole) * 0x10_0000_0000_0000 <= u * u + va * vb) by {
        assert(va * vb >= 0) by (nonlinear_arith)
            requires
                va >= 0,
                vb >= 0,
        ;
        assert(u * u >= 0x10_0000_0000_0000 * u) by (nonlinear_arith)
            requires
                u >= 0x10_0000_0000_0000,
        ;
        assert(a.magnitude() * b.magnitude() == va * vb);
    }
    lemma_casts(u, vc);
    lemma_casts(va, vb);
    lemma_casts(u, u);
    let off = z - x * y;
    let area = g * g;
    lemma_regroup(g, g, z);
    assert(va as real * (vb as real) == area * (x * y)) by {
        lemma_regroup(g * x, g, y);
        lemma_regroup(g, g * x, y);
        lemma_regroup(g, g, x);
        lemma_regroup(area, x, y);
        assert((g * x) * (g * y) == g * ((g * x) * y));
    }
    lemma_spread(area, z, x * y);
    assert(area * off == whole as real);
    lemma_product_sign(g, g);
    lemma_scaled_abs(area, off);
    assert(abs_real(area * off) == area * abs_real(off));
    lemma_regroup(area, abs_real(off), parts);
    lemma_spread(area, 1real, x * y);
    lemma_divided(area, abs_real(off) * parts, 1real + x * y);
}

proof fn lemma_at_most(d: Double, n: nat)
    requires
        d.value() <= n * pow2(1074),
    ensures
        real_of(d) <= n as real,
{
    let g = pow2(1074) as real;
    lemma_units(d);
    lemma_casts(n as int, pow2(1074) as int);
    lemma_spread(g, n as real, 0real);
    lemma_divided(g, real_of(d), n as real);
}

/// A factor between zero and one shrinks.
pub proof fn lemma_shrunk(l: real, x: real)
    by (nonlinear_arith)
    requires
        0real < l <= 1real,
    ensures
        x >= 0real ==> 0real <= l * x <= x,
        x < 0real ==> x <= l * x <= 0real,
{
}

/// The effective sample size is the exact one, up to `k^2` parts in `2^51`.
pub proof fn law_size_is_near_its_closed_form(lambda: Double, k: nat)
    requires
        zero().lt(lambda),
        lambda.le(one()),
        k <= 0x20_0000_0000_0000,
    ensures
        abs_real(real_of(grown_size(lambda, zero(), k)) - exact_size(real_of(lambda), k)) * (0x8_0000_0000_0000int as real)
            <= (k * k) as real,
    decreases k,
{
    lemma_simple_values();
    lemma_zero();
    lemma_one();
    lemma_zero_magnitude(zero());
    assert(one().code() == 0x3ff0_0000_0000_0000);
    law_order_is_numeric(zero(), lambda);
    law_order_is_numeric(lambda, one());
    if k > 0 {
        let j = (k - 1) as nat;
        law_size_is_near_its_closed_form(lambda, j);
        law_size_is_bounded(lambda, k);
        lemma_whole_is_exact(j as u64);
        lemma_whole_is_exact(k as u64);
        let before = grown_size(lambda, zero(), j);
        let after = grown_size(lambda, zero(), k);
        if j > 0 {
            law_size_is_bounded(lambda, j);
            law_order_is_numeric(one(), before);
            law_order_is_numeric(before, Double::from_u64(j as u64));
        }
        law_order_is_numeric(one(), after);
        law_order_is_numeric(after, Double::from_u64(k as u64));
        law_order_is_numeric(zero(), before);
        lemma_fraction_shrinks(lambda, before);
        let faded = lambda.times(before);
        lemma_at_most(before, j);
        lemma_at_most(after, k);
        lemma_at_most(lambda, 1);
        lemma_units(lambda);
        lemma_units(before);
        let g = pow2(1074) as real;
        let (l, s, p, n) = (real_of(lambda), real_of(before), real_of(faded), real_of(after));
        let e = exact_size(l, j);
        lemma_scaled_abs(g, l);
        lemma_scaled_abs(g, s);
        assert(l > 0real) by {
            lemma_spread(g, 0real, 0real);
        }
        lemma_real_product(lambda, before);
        lemma_real_sum(faded, one());
        lemma_shrunk(l, s);
        lemma_shrunk(l, s - e);
        lemma_spread(l, s, e);
        assert(k * k == j * j + 2 * j + 1) by (nonlinear_arith)
            requires
                k == j + 1,
        ;
        let (a, b, c) = (abs_real(n - (p + 1real)), abs_real(p - l * s), abs_real(s - e));
        assert(abs_real(n - (l * e + 1real)) <= a + b + c);
    }
}

/// Values compare as the numbers do.
pub proof fn lemma_real_order(a: Double, b: Double)
    ensures
        real_of(a) <= real_of(b) <==> a.value() <= b.value(),
        real_of(a) == real_of(b) <==> a.value() == b.value(),
{
    let g = pow2(1074) as real;
    let (x, y) = (real_of(a), real_of(b));
    lemma_units(a);
    lemma_units(b);
    if a.value() <= b.value() {
        lemma_divided(g, x, y);
    }
    if x <= y {
        lemma_scaled_abs(g, y - x);
        lemma_spread(g, y, x);
    }
    if b.value() <= a.value() {
        lemma_divided(g, y, x);
    }
}

} // verus!
