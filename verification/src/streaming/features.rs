//! Feature maps: hashing, polynomials, binarization, periods, term weights and
//! target means.

use crate::constants::neg_one;
use crate::data::{zero_seq, zeros, Matrix};
use crate::double::{one, zero, Double};
use crate::functions::{apply, curve, is_function, Curve};
use crate::online::common::{inspect_online_xy, shape_issues};
use crate::quality::{
    advisory, given, issue, raise, warning, IncrementalQuality, Issue, IssueCode, Qualified, Update,
};
use crate::streaming::columns::{
    key_shift, key_shift_of, pass_through, passed_through, rejection, reports, screened_report, ColumnBank,
    ColumnState,
};
use crate::streaming::scalers::at_least_one_of;
use vstd::prelude::*;

verus! {

/// Quality figures of a map that learns nothing from a batch.
pub open spec fn static_figures(updates: u64, batch: usize, n_seen: u64, warmup: bool) -> IncrementalQuality {
    IncrementalQuality {
        effective_sample_size: Double::from_u64(n_seen),
        parameter_delta_norm: Some(zero()),
        information_gain: Some(Double::from_usize(batch)),
        still_identified: true,
        warmup,
        ..IncrementalQuality::new((updates - 1) as u64, batch, n_seen)
    }
}

fn static_quality(updates: u64, batch: usize, n_seen: u64, warmup: bool) -> (q: IncrementalQuality)
    requires
        updates > 0,
    ensures
        q == static_figures(updates, batch, n_seen, warmup),
{
    IncrementalQuality {
        effective_sample_size: Double::from_u64(n_seen),
        parameter_delta_norm: Some(zero()),
        information_gain: Some(Double::from_usize(batch)),
        still_identified: true,
        warmup,
        ..IncrementalQuality::new(updates - 1, batch, n_seen)
    }
}

/// The warning `code` if `condition` holds.
pub open spec fn warn_if(condition: bool, code: IssueCode) -> Seq<Issue> {
    if condition {
        seq![warning(code)]
    } else {
        Seq::empty()
    }
}

/// Appends the warning `code` if `condition` holds.
pub fn warn(issues: &mut Vec<Issue>, condition: bool, code: IssueCode)
    ensures
        final(issues)@ == old(issues)@ + warn_if(condition, code),
{
    if condition {
        issues.push(warning(code));
    }
    assert(issues@ =~= old(issues)@ + warn_if(condition, code));
}

/// Signed feature hashing into a fixed number of bins.
#[derive(Clone, Copy, Debug, PartialEq, Eq, Structural)]
pub struct HashingTrick {
    /// Number of bins.
    pub n_features: usize,
    /// Rows taken in.
    pub n_seen: u64,
    /// Batches taken in.
    pub updates: u64,
}

impl Default for HashingTrick {
    fn default() -> (r: HashingTrick)
        ensures
            r == (HashingTrick { n_features: 8, n_seen: 0, updates: 0 }),
    {
        HashingTrick::new(8)
    }
}

/// Multiplicative hash of a column number.
pub open spec fn column_hash(j: nat) -> nat {
    (j * 0x9E37_79B9_7F4A_7C15) % 0x1_0000_0000_0000_0000
}

/// Bin of a column among `n`.
pub open spec fn hash_bin(j: nat, n: nat) -> nat {
    column_hash(j) % (if n < 1 {
        1
    } else {
        n
    })
}

/// Sign of a column.
pub open spec fn hash_sign(j: nat) -> Double {
    if (column_hash(j) / 2) % 2 == 0 {
        one()
    } else {
        neg_one()
    }
}

/// A row folded into `m` bins, from its first `k` entries.
pub open spec fn hashed_row(row: Seq<Double>, m: nat, k: nat) -> Seq<Double>
    decreases k,
{
    if k == 0 {
        zero_seq(m)
    } else {
        let earlier = hashed_row(row, m, (k - 1) as nat);
        let b = hash_bin((k - 1) as nat, m) as int;
        earlier.update(b, earlier[b].plus(hash_sign((k - 1) as nat).times(row[k - 1])))
    }
}

impl HashingTrick {
    /// Hasher with `n_features` bins, at least one.
    pub fn new(n_features: usize) -> (r: HashingTrick)
        ensures
            r == (HashingTrick {
                n_features: if n_features < 1 {
                    1
                } else {
                    n_features
                },
                n_seen: 0,
                updates: 0,
            }),
    {
        HashingTrick {
            n_features: if n_features < 1 {
                1
            } else {
                n_features
            },
            n_seen: 0,
            updates: 0,
        }
    }

    fn bin(j: usize, n: usize) -> (r: (usize, Double))
        ensures
            r.0 == hash_bin(j as nat, n as nat),
            r.1 == hash_sign(j as nat),
            n > 0 ==> r.0 < n,
    {
        let h: u64 = ((j as u128 * 0x9E37_79B9_7F4A_7C15) % 0x1_0000_0000_0000_0000) as u64;
        let m: u64 = if n < 1 {
            1
        } else {
            n as u64
        };
        let sign: Double = if (h / 2) % 2 == 0 {
            one()
        } else {
            neg_one()
        };
        ((h % m) as usize, sign)
    }

    /// Counts a batch; nothing is learned from it.
    pub fn partial_fit(&mut self, x: &Matrix, _y: Option<&Vec<Double>>) -> (r: Update)
        requires
            old(self).n_seen + x.height() <= u64::MAX,
            old(self).updates < u64::MAX,
        ensures
            *final(self) == (HashingTrick {
                n_features: if old(self).n_features == 0 {
                    1
                } else {
                    old(self).n_features
                },
                n_seen: (old(self).n_seen + x.height()) as u64,
                updates: (old(self).updates + 1) as u64,
            }),
            reports(
                &r,
                static_figures(final(self).updates, x.height() as usize, final(self).n_seen, false),
                shape_issues(x, None) + warn_if(old(self).n_features == 0, IssueCode::InvalidWeight),
                true,
            ),
    {
        let mut issues: Vec<Issue> = Vec::new();
        inspect_online_xy(&mut issues, x, None);
        warn(&mut issues, self.n_features == 0, IssueCode::InvalidWeight);
        assert(issues@ =~= shape_issues(x, None) + warn_if(self.n_features == 0, IssueCode::InvalidWeight));
        if self.n_features == 0 {
            self.n_features = 1;
        }
        self.n_seen = self.n_seen + x.nrows() as u64;
        self.updates = self.updates + 1;
        screened_report(static_quality(self.updates, x.nrows(), self.n_seen, false), issues)
    }

    /// Folds every row into the bins.
    pub fn transform(&self, x: &Matrix) -> (out: Qualified<Matrix>)
        requires
            x.wf(),
        ensures
            out.report@ == shape_issues(x, None),
            out.value.wf(),
            out.value.height() == x.height(),
            out.value.width == if self.n_features < 1 {
                1
            } else {
                self.n_features
            },
            forall|i: int|
                0 <= i < x.height() ==> (#[trigger] out.value.rows@[i])@ == hashed_row(
                    x.rows@[i]@,
                    out.value.width as nat,
                    x.width as nat,
                ),
    {
        let mut report: Vec<Issue> = Vec::new();
        inspect_online_xy(&mut report, x, None);
        assert(report@ =~= shape_issues(x, None));
        let m: usize = if self.n_features < 1 {
            1
        } else {
            self.n_features
        };
        let mut rows: Vec<Vec<Double>> = Vec::new();
        let mut i: usize = 0;
        while i < x.nrows()
            invariant
                i <= x.height(),
                x.wf(),
                m >= 1,
                rows@.len() == i,
                forall|a: int|
                    0 <= a < i ==> (#[trigger] rows@[a])@ == hashed_row(x.rows@[a]@, m as nat, x.width as nat)
                        && rows@[a]@.len() == m,
            decreases x.height() - i,
        {
            let mut row = zeros(m);
            let mut j: usize = 0;
            while j < x.ncols()
                invariant
                    i < x.height(),
                    j <= x.width,
                    x.wf(),
                    m >= 1,
                    row@.len() == m,
                    row@ == hashed_row(x.rows@[i as int]@, m as nat, j as nat),
                decreases x.width - j,
            {
                let (b, s): (usize, Double) = HashingTrick::bin(j, m);
                let v: Double = row[b].plus(s.times(x.get(i, j)));
                row.set(b, v);
                j = j + 1;
            }
            rows.push(row);
            i = i + 1;
        }
        Qualified { value: Matrix { rows, width: m }, report }
    }
}

/// Polynomial expansion of degree one or two.
#[derive(Clone, Copy, Debug, PartialEq, Eq, Structural)]
pub struct PolynomialExtender {
    /// Degree, 1 or 2.
    pub degree: usize,
    /// Column count of the first batch.
    pub n_in: usize,
    /// Rows taken in.
    pub n_seen: u64,
    /// Batches taken in.
    pub updates: u64,
    /// Whether a batch was taken in.
    pub initialized: bool,
}

impl Default for PolynomialExtender {
    fn default() -> (r: PolynomialExtender)
        ensures
            r == (PolynomialExtender { degree: 2, n_in: 0, n_seen: 0, updates: 0, initialized: false }),
    {
        PolynomialExtender::new(2)
    }
}

/// Number of expanded columns.
pub open spec fn expanded_width(p: int, degree: int) -> int {
    if degree == 1 {
        p
    } else {
        p + p + p * (p + 1) / 2
    }
}

/// Products of entry `a` with itself and each later one, for the first `k` entries.
pub open spec fn cross_terms(row: Seq<Double>, p: nat, k: nat) -> Seq<Double>
    decreases k,
{
    if k == 0 {
        Seq::empty()
    } else {
        cross_terms(row, p, (k - 1) as nat) + Seq::new(
            (p - (k - 1)) as nat,
            |t: int| row[k - 1].times(row[k - 1 + t]),
        )
    }
}

/// The expansion of the first `p` entries: the entries, and for degree two their
/// squares and all products.
pub open spec fn expanded_row(row: Seq<Double>, p: nat, degree: int) -> Seq<Double> {
    if degree == 1 {
        row.take(p as int)
    } else {
        row.take(p as int) + Seq::new(p, |j: int| row[j].times(row[j])) + cross_terms(row, p, p)
    }
}

/// The expansion has the stated width.
pub proof fn law_expanded_width(row: Seq<Double>, p: nat, degree: int)
    requires
        p <= row.len(),
    ensures
        expanded_row(row, p, degree).len() == expanded_width(p as int, degree),
{
    lemma_cross_terms(row, p, p);
    assert(p * (2 * p - p + 1) == p * (p + 1));
}

proof fn lemma_cross_terms(row: Seq<Double>, p: nat, k: nat)
    requires
        k <= p,
    ensures
        2 * cross_terms(row, p, k).len() == k * (2 * p - k + 1),
    decreases k,
{
    if k > 0 {
        lemma_cross_terms(row, p, (k - 1) as nat);
        assert((k - 1) * (2 * p - (k - 1) + 1) + 2 * (p - (k - 1)) == k * (2 * p - k + 1)) by (nonlinear_arith);
    } else {
        assert(0 * (2 * p - 0 + 1) == 0);
    }
}

impl PolynomialExtender {
    /// Expander of the given degree.
    pub fn new(degree: usize) -> (r: PolynomialExtender)
        ensures
            r == (PolynomialExtender { degree, n_in: 0, n_seen: 0, updates: 0, initialized: false }),
    {
        PolynomialExtender { degree, n_in: 0, n_seen: 0, updates: 0, initialized: false }
    }

    /// The degree that is used.
    pub open spec fn effective_degree(self) -> usize {
        if self.degree == 1 || self.degree == 2 {
            self.degree
        } else {
            2
        }
    }

    /// Issues that come first.
    pub open spec fn early_issues(self, x: &Matrix) -> Seq<Issue> {
        shape_issues(x, None) + warn_if(self.degree != 1 && self.degree != 2, IssueCode::InvalidWeight)
    }

    /// The state after a batch.
    pub open spec fn after(self, x: &Matrix) -> PolynomialExtender {
        let fixed = PolynomialExtender { degree: self.effective_degree(), ..self };
        if x.width == 0 || (self.initialized && self.n_in != x.width) {
            fixed
        } else {
            PolynomialExtender {
                n_in: x.width,
                n_seen: (self.n_seen + x.height()) as u64,
                updates: (self.updates + 1) as u64,
                initialized: true,
                ..fixed
            }
        }
    }

    /// Records the column count; the expansion itself learns nothing.
    pub fn partial_fit(&mut self, x: &Matrix, _y: Option<&Vec<Double>>) -> (r: Update)
        requires
            old(self).n_seen + x.height() <= u64::MAX,
            old(self).updates < u64::MAX,
            2 * x.width + x.width * (x.width + 1) <= usize::MAX,
        ensures
            *final(self) == old(self).after(x),
            if x.width == 0 {
                reports(
                    &r,
                    IncrementalQuality::new(old(self).updates, x.height() as usize, old(self).n_seen),
                    old(self).early_issues(x) + seq![issue(IssueCode::PartialFitBeforeInit)],
                    false,
                )
            } else if old(self).initialized && old(self).n_in != x.width {
                reports(
                    &r,
                    IncrementalQuality::new(old(self).updates, x.height() as usize, old(self).n_seen),
                    old(self).early_issues(x) + seq![issue(IssueCode::FeatureSpaceChangedOnline)],
                    false,
                )
            } else {
                reports(
                    &r,
                    static_figures(
                        final(self).updates,
                        x.height() as usize,
                        final(self).n_seen,
                        final(self).n_seen < 2,
                    ),
                    old(self).early_issues(x) + given(
                        expanded_width(x.width as int, old(self).effective_degree() as int) > 64,
                        IssueCode::PolynomialExplosion,
                    ),
                    true,
                )
            },
    {
        let mut issues: Vec<Issue> = Vec::new();
        let ghost before = *self;
        inspect_online_xy(&mut issues, x, None);
        let odd: bool = self.degree != 1 && self.degree != 2;
        warn(&mut issues, odd, IssueCode::InvalidWeight);
        assert(issues@ =~= before.early_issues(x));
        if odd {
            self.degree = 2;
        }
        let p: usize = x.ncols();
        if p == 0 {
            issues.push(issue(IssueCode::PartialFitBeforeInit));
            assert(issues@ =~= before.early_issues(x) + seq![issue(IssueCode::PartialFitBeforeInit)]);
            return rejection(self.updates, x.nrows(), self.n_seen, issues);
        }
        if self.initialized && self.n_in != p {
            issues.push(issue(IssueCode::FeatureSpaceChangedOnline));
            assert(issues@ =~= before.early_issues(x) + seq![issue(IssueCode::FeatureSpaceChangedOnline)]);
            return rejection(self.updates, x.nrows(), self.n_seen, issues);
        }
        self.n_in = p;
        self.initialized = true;
        assert(p * (p + 1) >= 0) by (nonlinear_arith);
        let out_p: usize = if self.degree == 1 {
            p
        } else {
            p + p + p * (p + 1) / 2
        };
        raise(&mut issues, out_p > 64, IssueCode::PolynomialExplosion);
        self.n_seen = self.n_seen + x.nrows() as u64;
        self.updates = self.updates + 1;
        screened_report(static_quality(self.updates, x.nrows(), self.n_seen, self.n_seen < 2), issues)
    }

    /// Expands every row.
    pub fn transform(&self, x: &Matrix) -> (out: Qualified<Matrix>)
        requires
            x.wf(),
            2 * x.width + x.width * (x.width + 1) <= usize::MAX,
        ensures
            if !self.initialized {
                passed_through(&out, x)
            } else {
                let p: nat = if x.width < self.n_in {
                    x.width as nat
                } else {
                    self.n_in as nat
                };
                let degree: int = if self.degree == 1 {
                    1
                } else {
                    2
                };
                &&& out.report@.len() == 0
                &&& out.value.wf()
                &&& out.value.height() == x.height()
                &&& out.value.width == expanded_width(p as int, degree)
                &&& forall|i: int|
                    0 <= i < x.height() ==> (#[trigger] out.value.rows@[i])@ == expanded_row(x.rows@[i]@, p, degree)
            },
    {
        if !self.initialized {
            return pass_through(x);
        }
        let p: usize = if x.ncols() < self.n_in {
            x.ncols()
        } else {
            self.n_in
        };
        let degree: usize = if self.degree == 1 {
            1
        } else {
            2
        };
        assert(2 * p + p * (p + 1) <= 2 * x.width + x.width * (x.width + 1) && p * (p + 1) >= 0) by (nonlinear_arith)
            requires
                0 <= p <= x.width,
        ;
        let width: usize = if degree == 1 {
            p
        } else {
            p + p + p * (p + 1) / 2
        };
        let mut rows: Vec<Vec<Double>> = Vec::new();
        let mut i: usize = 0;
        while i < x.nrows()
            invariant
                i <= x.height(),
                x.wf(),
                p <= x.width,
                width == expanded_width(p as int, degree as int),
                rows@.len() == i,
                forall|a: int|
                    0 <= a < i ==> (#[trigger] rows@[a])@ == expanded_row(x.rows@[a]@, p as nat, degree as int)
                        && rows@[a]@.len() == width,
            decreases x.height() - i,
        {
            let row = expand(&x.rows[i], p, degree);
            proof {
                law_expanded_width(x.rows@[i as int]@, p as nat, degree as int);
            }
            rows.push(row);
            i = i + 1;
        }
        Qualified { value: Matrix { rows, width }, report: Vec::new() }
    }
}

fn expand(row: &Vec<Double>, p: usize, degree: usize) -> (r: Vec<Double>)
    requires
        p <= row@.len(),
    ensures
        r@ == expanded_row(row@, p as nat, degree as int),
{
    let mut r: Vec<Double> = Vec::new();
    let mut j: usize = 0;
    while j < p
        invariant
            j <= p,
            p <= row@.len(),
            r@ == row@.take(j as int),
        decreases p - j,
    {
        r.push(row[j]);
        j = j + 1;
        assert(r@ =~= row@.take(j as int));
    }
    if degree == 1 {
        return r;
    }
    let ghost linear = row@.take(p as int);
    let mut j: usize = 0;
    assert(r@ =~= linear + Seq::new(0, |k: int| row@[k].times(row@[k])));
    while j < p
        invariant
            j <= p,
            p <= row@.len(),
            r@ == linear + Seq::new(j as nat, |k: int| row@[k].times(row@[k])),
        decreases p - j,
    {
        r.push(row[j].times(row[j]));
        j = j + 1;
        assert(r@ =~= linear + Seq::new(j as nat, |k: int| row@[k].times(row@[k])));
    }
    let ghost base = linear + Seq::new(p as nat, |k: int| row@[k].times(row@[k]));
    let mut a: usize = 0;
    assert(r@ =~= base + cross_terms(row@, p as nat, 0));
    while a < p
        invariant
            a <= p,
            p <= row@.len(),
            r@ == base + cross_terms(row@, p as nat, a as nat),
        decreases p - a,
    {
        let ghost sofar = r@;
        let mut b: usize = a;
        assert(r@ =~= sofar + Seq::new(0, |t: int| row@[a as int].times(row@[a + t])));
        while b < p
            invariant
                a <= b <= p,
                a < p,
                p <= row@.len(),
                r@ == sofar + Seq::new((b - a) as nat, |t: int| row@[a as int].times(row@[a + t])),
            decreases p - b,
        {
            r.push(row[a].times(row[b]));
            b = b + 1;
            assert(r@ =~= sofar + Seq::new((b - a) as nat, |t: int| row@[a as int].times(row@[a + t])));
        }
        a = a + 1;
        assert(r@ =~= base + cross_terms(row@, p as nat, a as nat));
    }
    r
}

/// Zero-one map of every entry against a threshold.
#[derive(Clone, Copy, Debug, PartialEq, Eq, Structural)]
pub struct OnlineBinarizer {
    /// Entries at or above this become 1.
    pub threshold: Double,
    /// Column count of the first batch, 0 before it.
    pub p: usize,
    /// Rows taken in.
    pub n_seen: u64,
    /// Batches taken in.
    pub updates: u64,
}

impl Default for OnlineBinarizer {
    fn default() -> (r: OnlineBinarizer)
        ensures
            r == (OnlineBinarizer { threshold: zero(), p: 0, n_seen: 0, updates: 0 }),
    {
        OnlineBinarizer::new(zero())
    }
}

impl OnlineBinarizer {
    /// Binarizer with the given threshold.
    pub fn new(threshold: Double) -> (r: OnlineBinarizer)
        ensures
            r == (OnlineBinarizer { threshold, p: 0, n_seen: 0, updates: 0 }),
    {
        OnlineBinarizer { threshold, p: 0, n_seen: 0, updates: 0 }
    }

    /// The threshold that is used: 0 for one that is not finite.
    pub open spec fn cut(self) -> Double {
        if self.threshold.is_finite() {
            self.threshold
        } else {
            zero()
        }
    }

    /// Whether a batch of `width` columns does not fit.
    pub open spec fn misfit(self, width: usize) -> bool {
        self.p != 0 && self.p != width
    }

    /// Records the column count.
    pub fn partial_fit(&mut self, x: &Matrix, _y: Option<&Vec<Double>>) -> (r: Update)
        requires
            old(self).n_seen + x.height() <= u64::MAX,
            old(self).updates < u64::MAX,
        ensures
            ({
                let early = shape_issues(x, None) + warn_if(!old(self).threshold.is_finite(), IssueCode::InvalidWeight);
                if old(self).misfit(x.width) {
                    &&& *final(self) == (OnlineBinarizer { threshold: old(self).cut(), ..*old(self) })
                    &&& reports(
                        &r,
                        IncrementalQuality::new(old(self).updates, x.height() as usize, old(self).n_seen),
                        early + seq![issue(IssueCode::FeatureSpaceChangedOnline)],
                        false,
                    )
                } else {
                    &&& *final(self) == (OnlineBinarizer {
                        threshold: old(self).cut(),
                        p: x.width,
                        n_seen: (old(self).n_seen + x.height()) as u64,
                        updates: (old(self).updates + 1) as u64,
                    })
                    &&& reports(
                        &r,
                        static_figures(final(self).updates, x.height() as usize, final(self).n_seen, false),
                        early,
                        true,
                    )
                }
            }),
    {
        let mut issues: Vec<Issue> = Vec::new();
        inspect_online_xy(&mut issues, x, None);
        let bad: bool = !self.threshold.is_finite();
        warn(&mut issues, bad, IssueCode::InvalidWeight);
        let ghost early = shape_issues(x, None) + warn_if(bad, IssueCode::InvalidWeight);
        assert(issues@ =~= early);
        if bad {
            self.threshold = zero();
        }
        if self.p != 0 && self.p != x.ncols() {
            issues.push(issue(IssueCode::FeatureSpaceChangedOnline));
            assert(issues@ =~= early + seq![issue(IssueCode::FeatureSpaceChangedOnline)]);
            return rejection(self.updates, x.nrows(), self.n_seen, issues);
        }
        self.p = x.ncols();
        self.n_seen = self.n_seen + x.nrows() as u64;
        self.updates = self.updates + 1;
        screened_report(static_quality(self.updates, x.nrows(), self.n_seen, false), issues)
    }

    /// 1 for every entry at or above the threshold, else 0.
    pub fn transform(&self, x: &Matrix) -> (out: Qualified<Matrix>)
        requires
            x.wf(),
        ensures
            out.report@ == shape_issues(x, None),
            out.value.wf(),
            out.value.height() == x.height(),
            out.value.width == x.width,
            forall|i: int, j: int|
                0 <= i < x.height() && 0 <= j < x.width ==> #[trigger] out.value.at(i, j) == if x.at(i, j).ge(
                    self.cut(),
                ) {
                    one()
                } else {
                    zero()
                },
    {
        let mut report: Vec<Issue> = Vec::new();
        inspect_online_xy(&mut report, x, None);
        assert(report@ =~= shape_issues(x, None));
        let t: Double = if self.threshold.is_finite() {
            self.threshold
        } else {
            zero()
        };
        let mut value = Matrix::zeros(x.nrows(), x.ncols());
        let mut i: usize = 0;
        while i < x.nrows()
            invariant
                i <= x.height(),
                x.wf(),
                t == self.cut(),
                value.wf(),
                value.height() == x.height(),
                value.width == x.width,
                forall|a: int, b: int|
                    0 <= a < x.height() && 0 <= b < x.width ==> #[trigger] value.at(a, b) == if a < i && x.at(a, b).ge(
                        t,
                    ) {
                        one()
                    } else {
                        zero()
                    },
            decreases x.height() - i,
        {
            let mut j: usize = 0;
            while j < x.ncols()
                invariant
                    i < x.height(),
                    j <= x.width,
                    x.wf(),
                    value.wf(),
                    value.height() == x.height(),
                    value.width == x.width,
                    forall|a: int, b: int|
                        0 <= a < x.height() && 0 <= b < x.width ==> #[trigger] value.at(a, b) == if (a < i || (a == i
                            && b < j)) && x.at(a, b).ge(t) {
                            one()
                        } else {
                            zero()
                        },
                decreases x.width - j,
            {
                if x.get(i, j).ge(t) {
                    let ghost before = value;
                    value.set(i, j, one());
                    assert forall|a: int, b: int| 0 <= a < x.height() && 0 <= b < x.width implies #[trigger] value.at(
                        a,
                        b,
                    ) == if (a < i || (a == i && b < j + 1)) && x.at(a, b).ge(t) {
                        one()
                    } else {
                        zero()
                    } by {
                        assert(before.at(a, b) == before.rows@[a]@[b]);
                        assert(value.at(a, b) == value.rows@[a]@[b]);
                    }
                }
                j = j + 1;
            }
            i = i + 1;
        }
        Qualified { value, report }
    }
}

/// Sine and cosine of every entry over a period.
#[derive(Clone, Copy, Debug, PartialEq, Eq, Structural)]
pub struct Periodic {
    /// Length of the cycle.
    pub period: Double,
    /// Column count of the first batch, 0 before it.
    pub p: usize,
    /// Rows taken in.
    pub n_seen: u64,
    /// Batches taken in.
    pub updates: u64,
}

/// Twelve.
#[verifier::allow_in_spec]
fn twelve() -> (x: Double)
    returns
        (Double { bits: 0x4028_0000_0000_0000 }),
{
    Double { bits: 0x4028_0000_0000_0000 }
}

/// The full circle, `2 * pi`, rounded.
#[verifier::allow_in_spec]
pub fn tau() -> (x: Double)
    returns
        (Double { bits: 0x4019_21fb_5444_2d18 }),
{
    Double { bits: 0x4019_21fb_5444_2d18 }
}

impl Default for Periodic {
    fn default() -> (r: Periodic)
        ensures
            r.period == (Double { bits: 0x4028_0000_0000_0000 }),
            r.p == 0 && r.n_seen == 0 && r.updates == 0,
    {
        Periodic::new(twelve())
    }
}

impl Periodic {
    /// A map with the given period.
    pub fn new(period: Double) -> (r: Periodic)
        ensures
            r == (Periodic { period, p: 0, n_seen: 0, updates: 0 }),
    {
        Periodic { period, p: 0, n_seen: 0, updates: 0 }
    }

    /// The period that is used: 1 for one that is not positive and finite.
    pub open spec fn cycle(self) -> Double {
        if self.period.is_finite() && self.period.gt(zero()) {
            self.period
        } else {
            one()
        }
    }

    /// Records the column count.
    pub fn partial_fit(&mut self, x: &Matrix, _y: Option<&Vec<Double>>) -> (r: Update)
        requires
            old(self).n_seen + x.height() <= u64::MAX,
            old(self).updates < u64::MAX,
        ensures
            ({
                let early = shape_issues(x, None) + warn_if(
                    !old(self).period.is_finite() || old(self).period.le(zero()),
                    IssueCode::InvalidWeight,
                );
                if old(self).p != 0 && old(self).p != x.width {
                    &&& *final(self) == (Periodic { period: old(self).cycle(), ..*old(self) })
                    &&& reports(
                        &r,
                        IncrementalQuality::new(old(self).updates, x.height() as usize, old(self).n_seen),
                        early + seq![issue(IssueCode::FeatureSpaceChangedOnline)],
                        false,
                    )
                } else {
                    &&& *final(self) == (Periodic {
                        period: old(self).cycle(),
                        p: x.width,
                        n_seen: (old(self).n_seen + x.height()) as u64,
                        updates: (old(self).updates + 1) as u64,
                    })
                    &&& reports(
                        &r,
                        static_figures(final(self).updates, x.height() as usize, final(self).n_seen, false),
                        early,
                        true,
                    )
                }
            }),
    {
        let mut issues: Vec<Issue> = Vec::new();
        inspect_online_xy(&mut issues, x, None);
        let bad: bool = !self.period.is_finite() || self.period.le(zero());
        warn(&mut issues, bad, IssueCode::InvalidWeight);
        let ghost early = shape_issues(x, None) + warn_if(bad, IssueCode::InvalidWeight);
        assert(issues@ =~= early);
        if bad {
            self.period = one();
        }
        if self.p != 0 && self.p != x.ncols() {
            issues.push(issue(IssueCode::FeatureSpaceChangedOnline));
            assert(issues@ =~= early + seq![issue(IssueCode::FeatureSpaceChangedOnline)]);
            return rejection(self.updates, x.nrows(), self.n_seen, issues);
        }
        self.p = x.ncols();
        self.n_seen = self.n_seen + x.nrows() as u64;
        self.updates = self.updates + 1;
        screened_report(static_quality(self.updates, x.nrows(), self.n_seen, false), issues)
    }

    /// The angle whose sine and cosine stand for an entry.
    pub open spec fn angle_of(self, v: Double) -> Double {
        tau().times(v).over(self.cycle())
    }

    /// The angle whose sine and cosine stand for an entry.
    fn angle(&self, v: Double) -> (r: Double)
        ensures
            r == self.angle_of(v),
    {
        let per: Double = if self.period.is_finite() && self.period.gt(zero()) {
            self.period
        } else {
            one()
        };
        tau().times(v).over(per)
    }

    /// A row with the sine and the cosine of every entry's angle, side by side.
    pub open spec fn waves(self, sin: Curve, cos: Curve, row: Seq<Double>) -> Seq<Double> {
        Seq::new(
            2 * row.len(),
            |j: int|
                if j % 2 == 0 {
                    sin(self.angle_of(row[j / 2]))
                } else {
                    cos(self.angle_of(row[j / 2]))
                },
        )
    }

    /// The sine and the cosine of every entry, in twice as many columns.
    pub fn transform<S: Fn(Double) -> Double, C: Fn(Double) -> Double>(&self, x: &Matrix, sin: &S, cos: &C) -> (out:
        Qualified<Matrix>)
        requires
            x.wf(),
            is_function(*sin),
            is_function(*cos),
            2 * x.width <= usize::MAX,
        ensures
            out.report@ == shape_issues(x, None),
            out.value.wf(),
            out.value.height() == x.height(),
            out.value.width == 2 * x.width,
            forall|i: int|
                0 <= i < x.height() ==> (#[trigger] out.value.rows@[i])@ == self.waves(
                    curve(*sin),
                    curve(*cos),
                    x.rows@[i]@,
                ),
    {
        let mut report: Vec<Issue> = Vec::new();
        inspect_online_xy(&mut report, x, None);
        assert(report@ =~= shape_issues(x, None));
        let mut rows: Vec<Vec<Double>> = Vec::new();
        let mut i: usize = 0;
        while i < x.nrows()
            invariant
                i <= x.height(),
                x.wf(),
                is_function(*sin),
                is_function(*cos),
                rows@.len() == i,
                forall|a: int|
                    0 <= a < i ==> (#[trigger] rows@[a])@ == self.waves(curve(*sin), curve(*cos), x.rows@[a]@),
            decreases x.height() - i,
        {
            let ghost whole = self.waves(curve(*sin), curve(*cos), x.rows@[i as int]@);
            let mut row: Vec<Double> = Vec::new();
            let mut j: usize = 0;
            while j < x.ncols()
                invariant
                    i < x.height(),
                    j <= x.width,
                    x.wf(),
                    is_function(*sin),
                    is_function(*cos),
                    whole == self.waves(curve(*sin), curve(*cos), x.rows@[i as int]@),
                    row@ == whole.take(2 * j),
                decreases x.width - j,
            {
                let angle: Double = self.angle(x.get(i, j));
                row.push(apply(sin, angle));
                row.push(apply(cos, angle));
                assert(whole[2 * j] == row@[2 * j]);
                assert(whole[2 * j + 1] == row@[2 * j + 1]);
                j = j + 1;
                assert(row@ =~= whole.take(2 * j));
            }
            assert(row@ =~= whole);
            rows.push(row);
            i = i + 1;
        }
        Qualified { value: Matrix { rows, width: 2 * x.ncols() }, report }
    }
}

/// Document frequency of one term.
#[derive(Clone, Copy, Debug, PartialEq, Eq, Structural)]
pub struct DocumentFrequency {
    /// Documents with a positive count of the term.
    pub df: Double,
}

impl ColumnState for DocumentFrequency {
    open spec fn seen(self, rate: Double, v: Double) -> DocumentFrequency {
        if v.is_finite() && v.gt(zero()) {
            DocumentFrequency { df: self.df.plus(one()) }
        } else {
            self
        }
    }

    open spec fn key(self) -> Double {
        self.df
    }

    fn see(&self, rate: Double, v: Double) -> (r: DocumentFrequency) {
        if v.is_finite() && v.gt(zero()) {
            DocumentFrequency { df: self.df.plus(one()) }
        } else {
            *self
        }
    }

    fn get_key(&self) -> (r: Double) {
        self.df
    }
}

/// Sum of the positive finite entries among the first `k`.
pub open spec fn positive_sum(row: Seq<Double>, k: nat) -> Double
    decreases k,
{
    if k == 0 {
        zero()
    } else {
        let earlier = positive_sum(row, (k - 1) as nat);
        if row[k - 1].is_finite() && row[k - 1].gt(zero()) {
            earlier.plus(row[k - 1])
        } else {
            earlier
        }
    }
}

/// One issue for each of the first `k` documents without a positive count.
pub open spec fn blank_documents(x: &Matrix, k: nat) -> Seq<Issue>
    decreases k,
{
    if k == 0 {
        Seq::empty()
    } else {
        blank_documents(x, (k - 1) as nat) + given(
            positive_sum(x.rows@[k - 1]@, x.width as nat).le(zero()),
            IssueCode::NearZeroVariance,
        )
    }
}

/// Term weights from streaming document frequencies.
#[derive(Clone, Debug)]
pub struct OnlineTfidf {
    /// Document frequencies, with the counters.
    pub bank: ColumnBank<DocumentFrequency>,
}

impl Default for OnlineTfidf {
    fn default() -> (r: OnlineTfidf)
        ensures
            r.bank.blank(),
    {
        OnlineTfidf::new()
    }
}

impl OnlineTfidf {
    /// No documents yet.
    pub fn new() -> (r: OnlineTfidf)
        ensures
            r.bank.blank(),
    {
        OnlineTfidf { bank: ColumnBank::new() }
    }

    /// A term that occurred in no document.
    pub open spec fn fresh() -> DocumentFrequency {
        DocumentFrequency { df: zero() }
    }

    /// Quality figures of a batch, given how far the frequencies moved.
    pub open spec fn figures(&self, shift: Double, batch: usize) -> IncrementalQuality {
        IncrementalQuality {
            effective_sample_size: Double::from_u64(self.bank.n_seen),
            parameter_delta_norm: Some(shift),
            information_gain: Some(shift.max(one().over(at_least_one_of(self.bank.n_seen)))),
            still_identified: self.bank.n_seen >= 1,
            warmup: self.bank.n_seen < 4,
            ..IncrementalQuality::new((self.bank.updates - 1) as u64, batch, self.bank.n_seen)
        }
    }

    /// Counts the documents of a batch, unless the vocabulary does not fit.
    pub fn partial_fit(&mut self, x: &Matrix, _y: Option<&Vec<Double>>) -> (r: Update)
        requires
            x.wf(),
            old(self).bank.room(x),
        ensures
            match old(self).bank.refusal(x.width) {
                Some(code) => {
                    &&& final(self).bank.agrees(&old(self).bank)
                    &&& reports(
                        &r,
                        IncrementalQuality::new(old(self).bank.updates, x.height() as usize, old(self).bank.n_seen),
                        shape_issues(x, None) + seq![issue(code)],
                        false,
                    )
                },
                None => {
                    &&& final(self).bank.is_after(&old(self).bank, x, zero(), OnlineTfidf::fresh())
                    &&& r.quality == final(self).figures(
                        key_shift(final(self).bank.columns@, old(self).bank.start(x.width, OnlineTfidf::fresh())),
                        x.height() as usize,
                    )
                    &&& r.issues@ == shape_issues(x, None) + blank_documents(x, x.height())
                    &&& r.screened && !r.idle
                    &&& r.trailing@ == seq![advisory(IssueCode::PValueUnreliable)]
                },
            },
    {
        let mut issues: Vec<Issue> = Vec::new();
        inspect_online_xy(&mut issues, x, None);
        let fresh: DocumentFrequency = DocumentFrequency { df: zero() };
        match self.bank.enter(x, fresh) {
            Err(code) => {
                issues.push(issue(code));
                assert(issues@ =~= shape_issues(x, None) + seq![issue(code)]);
                rejection(self.bank.updates, x.nrows(), self.bank.n_seen, issues)
            },
            Ok(before) => {
                let mut i: usize = 0;
                assert(issues@ =~= shape_issues(x, None) + blank_documents(x, 0));
                while i < x.nrows()
                    invariant
                        i <= x.height(),
                        x.wf(),
                        issues@ == shape_issues(x, None) + blank_documents(x, i as nat),
                    decreases x.height() - i,
                {
                    let mut sum: Double = zero();
                    let mut j: usize = 0;
                    while j < x.ncols()
                        invariant
                            i < x.height(),
                            j <= x.width,
                            x.wf(),
                            sum == positive_sum(x.rows@[i as int]@, j as nat),
                        decreases x.width - j,
                    {
                        let v: Double = x.get(i, j);
                        if v.is_finite() && v.gt(zero()) {
                            sum = sum.plus(v);
                        }
                        j = j + 1;
                    }
                    raise(&mut issues, sum.le(zero()), IssueCode::NearZeroVariance);
                    i = i + 1;
                    assert(issues@ =~= shape_issues(x, None) + blank_documents(x, i as nat));
                }
                self.bank.absorb(x, zero(), &before, fresh);
                let shift: Double = key_shift_of(&self.bank.columns, &before);
                let quality = IncrementalQuality {
                    effective_sample_size: Double::from_u64(self.bank.n_seen),
                    parameter_delta_norm: Some(shift),
                    information_gain: Some(shift.max(one().over(at_least_one_of(self.bank.n_seen)))),
                    still_identified: self.bank.n_seen >= 1,
                    warmup: self.bank.n_seen < 4,
                    ..IncrementalQuality::new(self.bank.updates - 1, x.nrows(), self.bank.n_seen)
                };
                let mut trailing: Vec<Issue> = Vec::new();
                trailing.push(advisory(IssueCode::PValueUnreliable));
                assert(trailing@ =~= seq![advisory(IssueCode::PValueUnreliable)]);
                Update { quality, issues, screened: true, idle: false, trailing }
            },
        }
    }

    /// The inverse document frequency of term `j`.
    pub open spec fn rarity(&self, ln: Curve, j: int) -> Double {
        ln(
            at_least_one_of(self.bank.n_seen).plus(one()).over(self.bank.columns@[j].df.plus(one())),
        ).plus(one())
    }

    /// The weight of a count of term `j`; the count itself for a term beyond the
    /// vocabulary.
    pub open spec fn weight_of(&self, ln: Curve, j: int, v: Double) -> Double {
        let tf = v.max(zero());
        if j >= self.bank.columns@.len() {
            tf
        } else {
            tf.times(self.rarity(ln, j))
        }
    }

    /// Weighs a matrix of counts. `ln` is the natural logarithm.
    pub fn transform<F: Fn(Double) -> Double>(&self, x: &Matrix, ln: &F) -> (out: Qualified<Matrix>)
        requires
            x.wf(),
            is_function(*ln),
        ensures
            if !self.bank.initialized {
                passed_through(&out, x)
            } else {
                &&& out.report@.len() == 0
                &&& out.value.wf()
                &&& out.value.height() == x.height()
                &&& out.value.width == x.width
                &&& forall|i: int|
                    0 <= i < x.height() ==> (#[trigger] out.value.rows@[i])@ == Seq::new(
                        x.width as nat,
                        |j: int| self.weight_of(curve(*ln), j, x.at(i, j)),
                    )
            },
    {
        if !self.bank.initialized {
            return pass_through(x);
        }
        let n: Double = at_least_one_of(self.bank.n_seen);
        let mut rows: Vec<Vec<Double>> = Vec::new();
        let mut i: usize = 0;
        while i < x.nrows()
            invariant
                i <= x.height(),
                x.wf(),
                is_function(*ln),
                n == at_least_one_of(self.bank.n_seen),
                rows@.len() == i,
                forall|a: int|
                    0 <= a < i ==> (#[trigger] rows@[a])@ == Seq::new(
                        x.width as nat,
                        |j: int| self.weight_of(curve(*ln), j, x.at(a, j)),
                    ),
            decreases x.height() - i,
        {
            let mut row: Vec<Double> = Vec::new();
            let mut j: usize = 0;
            while j < x.ncols()
                invariant
                    i < x.height(),
                    j <= x.width,
                    x.wf(),
                    is_function(*ln),
                    n == at_least_one_of(self.bank.n_seen),
                    row@ == Seq::new(j as nat, |b: int| self.weight_of(curve(*ln), b, x.at(i as int, b))),
                decreases x.width - j,
            {
                let tf: Double = x.get(i, j).max(zero());
                if j >= self.bank.columns.len() {
                    row.push(tf);
                } else {
                    let log: Double = apply(ln, n.plus(one()).over(self.bank.columns[j].df.plus(one())));
                    row.push(tf.times(log.plus(one())));
                }
                j = j + 1;
                assert(row@ =~= Seq::new(j as nat, |b: int| self.weight_of(curve(*ln), b, x.at(i as int, b))));
            }
            rows.push(row);
            i = i + 1;
        }
        Qualified { value: Matrix { rows, width: x.ncols() }, report: Vec::new() }
    }
}

} // verus!
