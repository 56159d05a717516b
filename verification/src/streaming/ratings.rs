//! Models of ratings that users give to items, and target-only forecasts.

use crate::constants::{half, hundredth, ten_to_minus_12, ten_to_minus_18, ten_to_minus_6, twentieth};
use crate::data::{filled, zero_seq, Batch, Matrix};
use crate::double::{one, zero, Double};
use crate::functions::{apply, curve, is_function, Curve};
use crate::online::common::{inspect_online_xy, shape_issues, target};
use crate::quality::{
    advisory, given, issue, raise, warning, IncrementalQuality, Issue, IssueCode, Qualified, Update,
};
use crate::streaming::columns::{plain_report, rejection, reports, screened_report};
use crate::streaming::linear::unready;
use vstd::prelude::*;

verus! {

/// A number as an identifier: rounded, and zero if it is negative.
#[verifier::allow_in_spec]
pub fn identifier(v: Double) -> (r: u64)
    returns
        v.max(zero()).round().truncate_to_u64(),
{
    v.max(zero()).round().truncate_to_u64()
}

/// A list that reaches position `at`, filled up with zeros.
pub open spec fn reaching(b: Seq<Double>, at: nat) -> Seq<Double> {
    if b.len() > at {
        b
    } else {
        b + zero_seq((at + 1 - b.len()) as nat)
    }
}

fn reach(b: &mut Vec<Double>, at: usize)
    requires
        at < usize::MAX,
    ensures
        final(b)@ == reaching(old(b)@, at as nat),
        final(b)@.len() > at,
{
    let ghost start = b@;
    assert(b@ =~= start + zero_seq(0));
    while b.len() <= at
        invariant
            at < usize::MAX,
            b@.len() >= start.len(),
            b@.len() <= at + 1 || b@.len() == start.len(),
            b@ == start + zero_seq((b@.len() - start.len()) as nat),
        decreases at + 1 - b@.len(),
    {
        b.push(zero());
        assert(b@ =~= start + zero_seq((b@.len() - start.len()) as nat));
    }
}

/// Entry `at`, if there is one.
pub open spec fn entry_at(b: Seq<Double>, at: nat) -> Option<Double> {
    if at < b.len() {
        Some(b[at as int])
    } else {
        None
    }
}

/// Overall level with the deviations of users and items.
#[derive(Clone, Debug)]
pub struct Biases {
    /// Overall level.
    pub mu: Double,
    /// Deviation of each user.
    pub bu: Vec<Double>,
    /// Deviation of each item.
    pub bi: Vec<Double>,
}

/// Level and deviations.
pub struct BiasState {
    /// Overall level.
    pub mu: Double,
    /// Deviation of each user.
    pub bu: Seq<Double>,
    /// Deviation of each item.
    pub bi: Seq<Double>,
}

impl View for Biases {
    type V = BiasState;

    open spec fn view(&self) -> BiasState {
        BiasState { mu: self.mu, bu: self.bu@, bi: self.bi@ }
    }
}

impl BiasState {
    /// No ratings yet.
    pub open spec fn blank() -> BiasState {
        BiasState { mu: zero(), bu: Seq::empty(), bi: Seq::empty() }
    }

    /// The level with the deviations that are known.
    pub open spec fn foreseen(self, u: nat, i: nat) -> Double {
        let a = match entry_at(self.bu, u) {
            Some(b) => self.mu.plus(b),
            None => self.mu,
        };
        match entry_at(self.bi, i) {
            Some(b) => a.plus(b),
            None => a,
        }
    }

    /// Deviations that cover a user and an item.
    pub open spec fn covering(self, u: nat, i: nat) -> BiasState {
        BiasState { mu: self.mu, bu: reaching(self.bu, u), bi: reaching(self.bi, i) }
    }

    /// After a step along the error `e` of a rating.
    pub open spec fn stepped(self, u: nat, i: nat, e: Double, rate: Double, l2: Double) -> BiasState {
        BiasState {
            mu: self.mu.plus(rate.times(e)),
            bu: self.bu.update(
                u as int,
                self.bu[u as int].plus(rate.times(e.minus(l2.times(self.bu[u as int])))),
            ),
            bi: self.bi.update(
                i as int,
                self.bi[i as int].plus(rate.times(e.minus(l2.times(self.bi[i as int])))),
            ),
        }
    }
}

impl Biases {
    fn new() -> (r: Biases)
        ensures
            r@ == BiasState::blank(),
    {
        let r = Biases { mu: zero(), bu: Vec::new(), bi: Vec::new() };
        assert(r.bu@ =~= Seq::empty());
        assert(r.bi@ =~= Seq::empty());
        r
    }

    fn foresee(&self, u: u64, i: u64) -> (r: Double)
        ensures
            r == self@.foreseen(u as nat, i as nat),
    {
        let mut s: Double = self.mu;
        if u < self.bu.len() as u64 {
            s = s.plus(self.bu[u as usize]);
        }
        if i < self.bi.len() as u64 {
            s = s.plus(self.bi[i as usize]);
        }
        s
    }

    fn cover(&mut self, u: usize, i: usize)
        requires
            u < usize::MAX,
            i < usize::MAX,
        ensures
            final(self)@ == old(self)@.covering(u as nat, i as nat),
            final(self).bu@.len() > u,
            final(self).bi@.len() > i,
    {
        reach(&mut self.bu, u);
        reach(&mut self.bi, i);
    }

    fn step(&mut self, u: usize, i: usize, e: Double, rate: Double, l2: Double)
        requires
            u < old(self).bu@.len(),
            i < old(self).bi@.len(),
        ensures
            final(self)@ == old(self)@.stepped(u as nat, i as nat, e, rate, l2),
    {
        self.mu = self.mu.plus(rate.times(e));
        let a: Double = self.bu[u].plus(rate.times(e.minus(l2.times(self.bu[u]))));
        self.bu.set(u, a);
        let b: Double = self.bi[i].plus(rate.times(e.minus(l2.times(self.bi[i]))));
        self.bi.set(i, b);
    }
}

/// Every user and item of a batch has an identifier that can be a position.
pub open spec fn proper_ids(x: Batch, k: nat) -> bool {
    forall|r: int|
        0 <= r < k ==> identifier((#[trigger] x.rows[r])[0]) < usize::MAX && identifier(x.rows[r][1]) < usize::MAX
}

/// Rows that have a target.
pub open spec fn paired(x: Batch, y: Seq<Double>) -> nat {
    if x.height() < y.len() {
        x.height()
    } else {
        y.len()
    }
}

/// Level and deviations fitted by gradient steps.
#[derive(Clone, Debug)]
pub struct BiasedMf {
    /// Step size.
    pub learning_rate: Double,
    /// Penalty on the deviations.
    pub l2: Double,
    /// Level and deviations.
    pub biases: Biases,
    /// Ratings taken in.
    pub n_seen: u64,
    /// Batches taken in.
    pub updates: u64,
}

/// Deviations in the middle of a batch.
pub struct BiasTrail {
    /// Level and deviations.
    pub biases: BiasState,
    /// Sum of the absolute changes.
    pub moved: Double,
}

impl BiasTrail {
    /// After one more rating.
    pub open spec fn shown(self, u: nat, i: nat, y: Double, rate: Double, l2: Double) -> BiasTrail {
        let c = self.biases.covering(u, i);
        let e = y.minus(c.foreseen(u, i));
        let s = c.stepped(u, i, e, rate, l2);
        BiasTrail {
            biases: s,
            moved: self.moved.plus(
                s.bu[u as int].minus(c.bu[u as int]).abs().plus(s.bi[i as int].minus(c.bi[i as int]).abs()),
            ),
        }
    }

    /// After the first `k` ratings.
    pub open spec fn after(self, x: Batch, y: Seq<Double>, rate: Double, l2: Double, k: nat) -> BiasTrail
        decreases k,
    {
        if k == 0 {
            self
        } else {
            self.after(x, y, rate, l2, (k - 1) as nat).shown(
                identifier(x.rows[k - 1][0]) as nat,
                identifier(x.rows[k - 1][1]) as nat,
                y[k - 1],
                rate,
                l2,
            )
        }
    }
}

/// A rating only moves the level and the deviations of its own user and item.
pub proof fn law_rating_is_local(s: BiasState, u: nat, i: nat, e: Double, rate: Double, l2: Double)
    requires
        u < s.bu.len(),
        i < s.bi.len(),
    ensures
        forall|k: int| 0 <= k < s.bu.len() && k != u ==> #[trigger] s.stepped(u, i, e, rate, l2).bu[k] == s.bu[k],
        forall|k: int| 0 <= k < s.bi.len() && k != i ==> #[trigger] s.stepped(u, i, e, rate, l2).bi[k] == s.bi[k],
{
}

impl Default for BiasedMf {
    fn default() -> (r: BiasedMf)
        ensures
            r.blank(),
    {
        BiasedMf::new()
    }
}

impl BiasedMf {
    /// The state before any rating.
    pub open spec fn blank(&self) -> bool {
        &&& self.learning_rate == twentieth()
        &&& self.l2 == hundredth()
        &&& self.biases@ == BiasState::blank()
        &&& self.n_seen == 0
        &&& self.updates == 0
    }

    /// A model without ratings.
    pub fn new() -> (r: BiasedMf)
        ensures
            r.blank(),
    {
        BiasedMf { learning_rate: twentieth(), l2: hundredth(), biases: Biases::new(), n_seen: 0, updates: 0 }
    }

    /// What a batch ends with.
    pub open spec fn end(&self, x: Batch, y: Seq<Double>) -> BiasTrail {
        BiasTrail { biases: self.biases@, moved: zero() }.after(
            x,
            y,
            self.learning_rate.max(ten_to_minus_6()),
            self.l2.max(zero()),
            paired(x, y),
        )
    }

    /// What a batch does.
    pub open spec fn answers(&self, after: &BiasedMf, x: &Matrix, y: Option<Seq<Double>>, r: &Update) -> bool {
        let refused = IncrementalQuality::new(self.updates, x.height() as usize, self.n_seen);
        if y is None {
            &&& *after == *self
            &&& reports(r, refused, seq![issue(IssueCode::MissingTarget)], false)
        } else if x.width < 2 {
            &&& *after == *self
            &&& reports(r, refused, shape_issues(x, y).push(issue(IssueCode::DimensionMismatch)), false)
        } else {
            let end = self.end(x@, y->0);
            &&& after.learning_rate == self.learning_rate
            &&& after.l2 == self.l2
            &&& after.biases@ == end.biases
            &&& after.n_seen == self.n_seen + paired(x@, y->0)
            &&& after.updates == self.updates + 1
            &&& reports(
                r,
                IncrementalQuality {
                    effective_sample_size: Double::from_u64(after.n_seen),
                    parameter_delta_norm: Some(end.moved),
                    still_identified: after.n_seen >= 8,
                    warmup: after.n_seen < 8,
                    ..IncrementalQuality::new(self.updates, x.height() as usize, after.n_seen)
                },
                shape_issues(x, y) + given(after.n_seen < 8, IssueCode::WarmupIncomplete),
                false,
            )
        }
    }

    /// Takes in ratings: users in the first column, items in the second, ratings as
    /// the target.
    pub fn partial_fit(&mut self, x: &Matrix, y: Option<&Vec<Double>>) -> (r: Update)
        requires
            x.wf(),
            old(self).n_seen + x.height() <= u64::MAX,
            old(self).updates < u64::MAX,
            y matches Some(t) ==> x.width >= 2 ==> proper_ids(x@, paired(x@, t@)),
        ensures
            old(self).answers(final(self), x, target(y), &r),
    {
        let n: usize = x.nrows();
        let mut issues: Vec<Issue> = Vec::new();
        let t: &Vec<Double> = match y {
            None => {
                issues.push(issue(IssueCode::MissingTarget));
                assert(issues@ =~= seq![issue(IssueCode::MissingTarget)]);
                return rejection(self.updates, n, self.n_seen, issues);
            },
            Some(t) => t,
        };
        inspect_online_xy(&mut issues, x, Some(t));
        assert(issues@ =~= shape_issues(x, Some(t@)));
        if x.ncols() < 2 {
            issues.push(issue(IssueCode::DimensionMismatch));
            return rejection(self.updates, n, self.n_seen, issues);
        }
        let rate: Double = self.learning_rate.max(ten_to_minus_6());
        let l2: Double = self.l2.max(zero());
        let k: usize = if n < t.len() {
            n
        } else {
            t.len()
        };
        let ghost first = BiasTrail { biases: self.biases@, moved: zero() };
        let mut moved: Double = zero();
        let mut r: usize = 0;
        while r < k
            invariant
                r <= k,
                k <= x.height(),
                k <= t@.len(),
                x.wf(),
                x.width >= 2,
                proper_ids(x@, k as nat),
                first == (BiasTrail { biases: old(self).biases@, moved: zero() }),
                self.learning_rate == old(self).learning_rate,
                self.l2 == old(self).l2,
                self.n_seen == old(self).n_seen,
                self.updates == old(self).updates,
                first.after(x@, t@, rate, l2, r as nat) == (BiasTrail { biases: self.biases@, moved }),
            decreases k - r,
        {
            assert(x@.rows[r as int] == x.rows@[r as int]@);
            assert(identifier(x@.rows[r as int][0]) < usize::MAX);
            let u: usize = identifier(x.get(r, 0)) as usize;
            let i: usize = identifier(x.get(r, 1)) as usize;
            self.biases.cover(u, i);
            let e: Double = t[r].minus(self.biases.foresee(u as u64, i as u64));
            let bu: Double = self.biases.bu[u];
            let bi: Double = self.biases.bi[i];
            self.biases.step(u, i, e, rate, l2);
            moved = moved.plus(self.biases.bu[u].minus(bu).abs().plus(self.biases.bi[i].minus(bi).abs()));
            r = r + 1;
        }
        self.n_seen = self.n_seen + k as u64;
        self.updates = self.updates + 1;
        let warmup: bool = self.n_seen < 8;
        raise(&mut issues, warmup, IssueCode::WarmupIncomplete);
        let quality = IncrementalQuality {
            effective_sample_size: Double::from_u64(self.n_seen),
            parameter_delta_norm: Some(moved),
            still_identified: !warmup,
            warmup,
            ..IncrementalQuality::new(self.updates - 1, n, self.n_seen)
        };
        plain_report(quality, issues)
    }

    /// The rating of each pair of user and item, or the level if a column is missing.
    pub fn predict(&self, x: &Matrix) -> (out: Qualified<Vec<Double>>)
        requires
            x.wf(),
        ensures
            if x.width < 2 {
                &&& out.value@ == Seq::new(x.height(), |r: int| self.biases.mu)
                &&& out.report@ == seq![issue(IssueCode::DimensionMismatch)]
            } else {
                &&& out.value@ == Seq::new(
                    x.height(),
                    |r: int|
                        self.biases@.foreseen(
                            identifier(x@.rows[r][0]) as nat,
                            identifier(x@.rows[r][1]) as nat,
                        ),
                )
                &&& out.report@.len() == 0
            },
    {
        if x.ncols() < 2 {
            let mut report: Vec<Issue> = Vec::new();
            report.push(issue(IssueCode::DimensionMismatch));
            assert(report@ =~= seq![issue(IssueCode::DimensionMismatch)]);
            let value = filled(x.nrows(), self.biases.mu);
            assert(value@ =~= Seq::new(x.height(), |r: int| self.biases.mu));
            return Qualified { value, report };
        }
        let ghost want = Seq::new(
            x.height(),
            |r: int|
                self.biases@.foreseen(identifier(x@.rows[r][0]) as nat, identifier(x@.rows[r][1]) as nat),
        );
        let mut value: Vec<Double> = Vec::new();
        let mut r: usize = 0;
        while r < x.nrows()
            invariant
                r <= x.height(),
                x.wf(),
                x.width >= 2,
                want == Seq::new(
                    x.height(),
                    |r: int|
                        self.biases@.foreseen(
                            identifier(x@.rows[r][0]) as nat,
                            identifier(x@.rows[r][1]) as nat,
                        ),
                ),
                value@ == want.take(r as int),
            decreases x.height() - r,
        {
            assert(x@.rows[r as int] == x.rows@[r as int]@);
            value.push(self.biases.foresee(identifier(x.get(r, 0)), identifier(x.get(r, 1))));
            r = r + 1;
            assert(value@ =~= want.take(r as int));
        }
        assert(value@ =~= want);
        Qualified { value, report: Vec::new() }
    }
}

/// A list of factor vectors that reaches position `at`, filled up with vectors of `k`
/// small numbers.
pub open spec fn factors_reaching(f: Seq<Seq<Double>>, at: nat, k: nat) -> Seq<Seq<Double>> {
    if f.len() > at {
        f
    } else {
        f + Seq::new((at + 1 - f.len()) as nat, |a: int| Seq::new(k, |b: int| hundredth()))
    }
}

/// The vectors of a list.
pub open spec fn factor_seqs(f: &Vec<Vec<Double>>) -> Seq<Seq<Double>> {
    Seq::new(f@.len(), |a: int| f@[a]@)
}

/// Every vector has `k` entries.
pub open spec fn factor_shape(f: Seq<Seq<Double>>, k: nat) -> bool {
    forall|a: int| 0 <= a < f.len() ==> (#[trigger] f[a]).len() == k
}

fn reach_factors(f: &mut Vec<Vec<Double>>, at: usize, k: usize)
    requires
        at < usize::MAX,
    ensures
        factor_seqs(final(f)) == factors_reaching(factor_seqs(old(f)), at as nat, k as nat),
        final(f)@.len() > at,
{
    let ghost start = factor_seqs(f);
    let ghost blank = Seq::new(k as nat, |b: int| hundredth());
    assert(factor_seqs(f) =~= start + Seq::new(0, |a: int| blank));
    while f.len() <= at
        invariant
            at < usize::MAX,
            blank == Seq::new(k as nat, |b: int| hundredth()),
            f@.len() >= start.len(),
            f@.len() <= at + 1 || f@.len() == start.len(),
            factor_seqs(f) == start + Seq::new((f@.len() - start.len()) as nat, |a: int| blank),
        decreases at + 1 - f@.len(),
    {
        let ghost before = factor_seqs(f);
        let v = filled(k, hundredth());
        assert(v@ =~= blank);
        f.push(v);
        assert(factor_seqs(f) =~= before.push(blank));
        assert(factor_seqs(f) =~= start + Seq::new((f@.len() - start.len()) as nat, |a: int| blank));
    }
    assert(factor_seqs(f) =~= factors_reaching(start, at as nat, k as nat));
}

/// `start` plus the products of the first `k` entries.
pub open spec fn factor_sum(start: Double, a: Seq<Double>, b: Seq<Double>, k: nat) -> Double {
    crate::streaming::linear::linear_score(start, a, b, k)
}

/// Level, deviations and factors fitted by gradient steps.
#[derive(Clone, Debug)]
pub struct FunkMf {
    /// Factors of each user and item.
    pub n_factors: usize,
    /// Step size.
    pub learning_rate: Double,
    /// Penalty on factors and deviations.
    pub l2: Double,
    /// Level and deviations.
    pub biases: Biases,
    /// Factors of each user.
    pub pu: Vec<Vec<Double>>,
    /// Factors of each item.
    pub qi: Vec<Vec<Double>>,
    /// Ratings taken in.
    pub n_seen: u64,
    /// Batches taken in.
    pub updates: u64,
}

/// Level, deviations and factors.
pub struct FunkState {
    /// Level and deviations.
    pub biases: BiasState,
    /// Factors of each user.
    pub pu: Seq<Seq<Double>>,
    /// Factors of each item.
    pub qi: Seq<Seq<Double>>,
}

/// The model in the middle of a batch.
pub struct FunkTrail {
    /// The model.
    pub model: FunkState,
    /// Squared errors before each step.
    pub sse: Double,
    /// Sum of the absolute changes of the factors.
    pub moved: Double,
}

/// Factor vectors after a step along the error `e`.
pub open spec fn factor_step(p: Seq<Double>, q: Seq<Double>, n: nat, e: Double, rate: Double, l2: Double) -> Seq<Double> {
    Seq::new(
        p.len(),
        |f: int|
            if f < n {
                p[f].plus(rate.times(e.times(q[f]).minus(l2.times(p[f]))))
            } else {
                p[f]
            },
    )
}

/// `start` plus the absolute changes of the first `k` factors of a user and an item.
pub open spec fn factor_change(
    start: Double,
    p: Seq<Double>,
    q: Seq<Double>,
    n: nat,
    e: Double,
    rate: Double,
    l2: Double,
    k: nat,
) -> Double
    decreases k,
{
    if k == 0 {
        start
    } else {
        factor_change(start, p, q, n, e, rate, l2, (k - 1) as nat).plus(
            factor_step(p, q, n, e, rate, l2)[k - 1].minus(p[k - 1]).abs().plus(
                factor_step(q, p, n, e, rate, l2)[k - 1].minus(q[k - 1]).abs(),
            ),
        )
    }
}

impl FunkState {
    /// The rating of a user and an item.
    pub open spec fn foreseen(self, n: nat, u: nat, i: nat) -> Double {
        let s = self.biases.foreseen(u, i);
        if u < self.pu.len() && i < self.qi.len() {
            let a = self.pu[u as int];
            let b = self.qi[i as int];
            let m = if a.len() < b.len() {
                a.len()
            } else {
                b.len()
            };
            factor_sum(
                s,
                a,
                b,
                if n < m {
                    n
                } else {
                    m
                },
            )
        } else {
            s
        }
    }

    /// The model with a user and an item.
    pub open spec fn covering(self, k: nat, u: nat, i: nat) -> FunkState {
        FunkState {
            biases: self.biases.covering(u, i),
            pu: factors_reaching(self.pu, u, k),
            qi: factors_reaching(self.qi, i, k),
        }
    }

    /// After a step along the error `e` of a rating.
    pub open spec fn stepped(self, n: nat, u: nat, i: nat, e: Double, rate: Double, l2: Double) -> FunkState {
        let p = self.pu[u as int];
        let q = self.qi[i as int];
        FunkState {
            biases: self.biases.stepped(u, i, e, rate, l2),
            pu: self.pu.update(u as int, factor_step(p, q, n, e, rate, l2)),
            qi: self.qi.update(i as int, factor_step(q, p, n, e, rate, l2)),
        }
    }
}

impl FunkTrail {
    /// After one more rating.
    pub open spec fn shown(self, n: usize, u: nat, i: nat, y: Double, rate: Double, l2: Double) -> FunkTrail {
        let k = if n < 1 {
            1nat
        } else {
            n as nat
        };
        let c = self.model.covering(k, u, i);
        let e = y.minus(c.foreseen(n as nat, u, i));
        FunkTrail {
            model: c.stepped(n as nat, u, i, e, rate, l2),
            sse: self.sse.plus(e.times(e)),
            moved: factor_change(self.moved, c.pu[u as int], c.qi[i as int], n as nat, e, rate, l2, n as nat),
        }
    }

    /// After the first `k` ratings.
    pub open spec fn after(self, n: usize, x: Batch, y: Seq<Double>, rate: Double, l2: Double, k: nat) -> FunkTrail
        decreases k,
    {
        if k == 0 {
            self
        } else {
            self.after(n, x, y, rate, l2, (k - 1) as nat).shown(
                n,
                identifier(x.rows[k - 1][0]) as nat,
                identifier(x.rows[k - 1][1]) as nat,
                y[k - 1],
                rate,
                l2,
            )
        }
    }
}

impl Default for FunkMf {
    fn default() -> (r: FunkMf)
        ensures
            r.blank(4),
            r.wf(),
    {
        FunkMf::new(4)
    }
}

impl FunkMf {
    /// The state before any rating.
    pub open spec fn blank(&self, n_factors: usize) -> bool {
        &&& self.n_factors == n_factors
        &&& self.learning_rate == twentieth()
        &&& self.l2 == hundredth()
        &&& self.model() == (FunkState { biases: BiasState::blank(), pu: Seq::empty(), qi: Seq::empty() })
        &&& self.n_seen == 0
        &&& self.updates == 0
    }

    /// Factors in a vector, at least one.
    pub open spec fn rank(&self) -> nat {
        if self.n_factors < 1 {
            1
        } else {
            self.n_factors as nat
        }
    }

    /// Every vector has the same length, and every user and item has one.
    pub open spec fn wf(&self) -> bool {
        &&& factor_shape(factor_seqs(&self.pu), self.rank())
        &&& factor_shape(factor_seqs(&self.qi), self.rank())
        &&& self.pu@.len() == self.biases.bu@.len()
        &&& self.qi@.len() == self.biases.bi@.len()
    }

    /// The model.
    pub open spec fn model(&self) -> FunkState {
        FunkState { biases: self.biases@, pu: factor_seqs(&self.pu), qi: factor_seqs(&self.qi) }
    }

    /// A model with `n_factors` factors.
    pub fn new(n_factors: usize) -> (r: FunkMf)
        ensures
            r.blank(
                if n_factors < 1 {
                    1
                } else {
                    n_factors
                },
            ),
            r.wf(),
    {
        let r = FunkMf {
            n_factors: if n_factors < 1 {
                1
            } else {
                n_factors
            },
            learning_rate: twentieth(),
            l2: hundredth(),
            biases: Biases::new(),
            pu: Vec::new(),
            qi: Vec::new(),
            n_seen: 0,
            updates: 0,
        };
        assert(r.model().pu =~= Seq::empty());
        assert(r.model().qi =~= Seq::empty());
        r
    }

    fn grow(&mut self, u: usize, i: usize)
        requires
            u < usize::MAX,
            i < usize::MAX,
            old(self).wf(),
        ensures
            final(self).wf(),
            final(self).model() == old(self).model().covering(old(self).rank(), u as nat, i as nat),
            final(self).pu@.len() > u,
            final(self).qi@.len() > i,
            final(self).n_factors == old(self).n_factors,
            final(self).learning_rate == old(self).learning_rate,
            final(self).l2 == old(self).l2,
            final(self).n_seen == old(self).n_seen,
            final(self).updates == old(self).updates,
    {
        let k: usize = if self.n_factors < 1 {
            1
        } else {
            self.n_factors
        };
        self.biases.cover(u, i);
        reach_factors(&mut self.pu, u, k);
        reach_factors(&mut self.qi, i, k);
        assert(factor_seqs(&self.pu).len() == self.pu@.len());
        assert(factor_seqs(&self.qi).len() == self.qi@.len());
    }

    fn pred(&self, u: u64, i: u64) -> (r: Double)
        ensures
            r == self.model().foreseen(self.n_factors as nat, u as nat, i as nat),
    {
        let s: Double = self.biases.foresee(u, i);
        if u < self.pu.len() as u64 && i < self.qi.len() as u64 {
            let a: &Vec<Double> = &self.pu[u as usize];
            let b: &Vec<Double> = &self.qi[i as usize];
            assert(self.model().pu[u as int] == a@);
            assert(self.model().qi[i as int] == b@);
            let m: usize = if a.len() < b.len() {
                a.len()
            } else {
                b.len()
            };
            let m: usize = if self.n_factors < m {
                self.n_factors
            } else {
                m
            };
            crate::streaming::linear::score_row(s, a, b, m)
        } else {
            s
        }
    }

    fn descend(&mut self, u: usize, i: usize, e: Double, rate: Double, l2: Double, start: Double) -> (moved: Double)
        requires
            old(self).wf(),
            u < old(self).pu@.len(),
            i < old(self).qi@.len(),
        ensures
            final(self).wf(),
            final(self).model() == old(self).model().stepped(
                old(self).n_factors as nat,
                u as nat,
                i as nat,
                e,
                rate,
                l2,
            ),
            moved == factor_change(
                start,
                old(self).model().pu[u as int],
                old(self).model().qi[i as int],
                old(self).n_factors as nat,
                e,
                rate,
                l2,
                old(self).n_factors as nat,
            ),
            final(self).n_factors == old(self).n_factors,
            final(self).learning_rate == old(self).learning_rate,
            final(self).l2 == old(self).l2,
            final(self).n_seen == old(self).n_seen,
            final(self).updates == old(self).updates,
    {
        let n: usize = self.n_factors;
        let ghost p = self.model().pu[u as int];
        let ghost q = self.model().qi[i as int];
        let ghost np = factor_step(p, q, n as nat, e, rate, l2);
        let ghost nq = factor_step(q, p, n as nat, e, rate, l2);
        assert(p == self.pu@[u as int]@ && q == self.qi@[i as int]@);
        assert(p.len() == self.rank() && q.len() == self.rank());
        self.biases.step(u, i, e, rate, l2);
        let k: usize = self.pu[u].len();
        let mut a: Vec<Double> = Vec::new();
        let mut b: Vec<Double> = Vec::new();
        let mut moved: Double = start;
        let mut f: usize = 0;
        while f < k
            invariant
                f <= k,
                k == p.len(),
                k == q.len(),
                n <= k,
                u < self.pu@.len(),
                i < self.qi@.len(),
                p == self.pu@[u as int]@,
                q == self.qi@[i as int]@,
                np == factor_step(p, q, n as nat, e, rate, l2),
                nq == factor_step(q, p, n as nat, e, rate, l2),
                a@ == np.take(f as int),
                b@ == nq.take(f as int),
                moved == factor_change(
                    start,
                    p,
                    q,
                    n as nat,
                    e,
                    rate,
                    l2,
                    if f < n {
                        f as nat
                    } else {
                        n as nat
                    },
                ),
            decreases k - f,
        {
            let pf: Double = self.pu[u][f];
            let qf: Double = self.qi[i][f];
            if f < n {
                let x: Double = pf.plus(rate.times(e.times(qf).minus(l2.times(pf))));
                let y: Double = qf.plus(rate.times(e.times(pf).minus(l2.times(qf))));
                a.push(x);
                b.push(y);
                moved = moved.plus(x.minus(pf).abs().plus(y.minus(qf).abs()));
            } else {
                a.push(pf);
                b.push(qf);
            }
            f = f + 1;
            assert(a@ =~= np.take(f as int));
            assert(b@ =~= nq.take(f as int));
        }
        assert(a@ =~= np);
        assert(b@ =~= nq);
        self.pu.set(u, a);
        self.qi.set(i, b);
        assert(self.model().pu =~= old(self).model().pu.update(u as int, np));
        assert(self.model().qi =~= old(self).model().qi.update(i as int, nq));
        moved
    }

    /// What a batch ends with.
    pub open spec fn end(&self, x: Batch, y: Seq<Double>) -> FunkTrail {
        FunkTrail { model: self.model(), sse: zero(), moved: zero() }.after(
            self.n_factors,
            x,
            y,
            self.learning_rate.max(ten_to_minus_6()),
            self.l2.max(zero()),
            paired(x, y),
        )
    }

    /// What a batch does.
    pub open spec fn answers(&self, after: &FunkMf, x: &Matrix, y: Option<Seq<Double>>, r: &Update) -> bool {
        let refused = IncrementalQuality::new(self.updates, x.height() as usize, self.n_seen);
        if y is None {
            &&& *after == *self
            &&& reports(r, refused, seq![issue(IssueCode::MissingTarget)], false)
        } else if x.width < 2 {
            &&& *after == *self
            &&& reports(r, refused, shape_issues(x, y).push(issue(IssueCode::DimensionMismatch)), false)
        } else {
            let end = self.end(x@, y->0);
            &&& after.n_factors == self.n_factors
            &&& after.learning_rate == self.learning_rate
            &&& after.l2 == self.l2
            &&& after.model() == end.model
            &&& after.n_seen == self.n_seen + paired(x@, y->0)
            &&& after.updates == self.updates + 1
            &&& reports(
                r,
                IncrementalQuality {
                    effective_sample_size: Double::from_u64(after.n_seen),
                    parameter_delta_norm: Some(end.moved),
                    loss_before: Some(end.sse),
                    loss_after: Some(end.sse),
                    information_gain: Some(end.moved),
                    still_identified: after.n_seen >= 8,
                    warmup: after.n_seen < 8,
                    ..IncrementalQuality::new(self.updates, x.height() as usize, after.n_seen)
                },
                shape_issues(x, y) + given(after.n_seen < 8, IssueCode::WarmupIncomplete),
                false,
            )
        }
    }

    /// Takes in ratings: users in the first column, items in the second, ratings as
    /// the target.
    pub fn partial_fit(&mut self, x: &Matrix, y: Option<&Vec<Double>>) -> (r: Update)
        requires
            x.wf(),
            old(self).wf(),
            old(self).n_seen + x.height() <= u64::MAX,
            old(self).updates < u64::MAX,
            y matches Some(t) ==> x.width >= 2 ==> proper_ids(x@, paired(x@, t@)),
        ensures
            final(self).wf(),
            old(self).answers(final(self), x, target(y), &r),
    {
        let n: usize = x.nrows();
        let mut issues: Vec<Issue> = Vec::new();
        let t: &Vec<Double> = match y {
            None => {
                issues.push(issue(IssueCode::MissingTarget));
                assert(issues@ =~= seq![issue(IssueCode::MissingTarget)]);
                return rejection(self.updates, n, self.n_seen, issues);
            },
            Some(t) => t,
        };
        inspect_online_xy(&mut issues, x, Some(t));
        assert(issues@ =~= shape_issues(x, Some(t@)));
        if x.ncols() < 2 {
            issues.push(issue(IssueCode::DimensionMismatch));
            return rejection(self.updates, n, self.n_seen, issues);
        }
        let rate: Double = self.learning_rate.max(ten_to_minus_6());
        let l2: Double = self.l2.max(zero());
        let k: usize = if n < t.len() {
            n
        } else {
            t.len()
        };
        let ghost first = FunkTrail { model: self.model(), sse: zero(), moved: zero() };
        let mut sse: Double = zero();
        let mut moved: Double = zero();
        let mut r: usize = 0;
        while r < k
            invariant
                r <= k,
                k <= x.height(),
                k <= t@.len(),
                x.wf(),
                x.width >= 2,
                self.wf(),
                proper_ids(x@, k as nat),
                first == (FunkTrail { model: old(self).model(), sse: zero(), moved: zero() }),
                self.n_factors == old(self).n_factors,
                self.learning_rate == old(self).learning_rate,
                self.l2 == old(self).l2,
                self.n_seen == old(self).n_seen,
                self.updates == old(self).updates,
                first.after(self.n_factors, x@, t@, rate, l2, r as nat) == (FunkTrail {
                    model: self.model(),
                    sse,
                    moved,
                }),
            decreases k - r,
        {
            assert(x@.rows[r as int] == x.rows@[r as int]@);
            assert(identifier(x@.rows[r as int][0]) < usize::MAX);
            let u: usize = identifier(x.get(r, 0)) as usize;
            let i: usize = identifier(x.get(r, 1)) as usize;
            self.grow(u, i);
            let e: Double = t[r].minus(self.pred(u as u64, i as u64));
            sse = sse.plus(e.times(e));
            moved = self.descend(u, i, e, rate, l2, moved);
            r = r + 1;
        }
        self.n_seen = self.n_seen + k as u64;
        self.updates = self.updates + 1;
        let warmup: bool = self.n_seen < 8;
        raise(&mut issues, warmup, IssueCode::WarmupIncomplete);
        let quality = IncrementalQuality {
            effective_sample_size: Double::from_u64(self.n_seen),
            parameter_delta_norm: Some(moved),
            loss_before: Some(sse),
            loss_after: Some(sse),
            information_gain: Some(moved),
            still_identified: !warmup,
            warmup,
            ..IncrementalQuality::new(self.updates - 1, n, self.n_seen)
        };
        plain_report(quality, issues)
    }

    /// The rating of each pair of user and item.
    pub open spec fn predictions(&self, x: Batch) -> Seq<Double> {
        Seq::new(
            x.height(),
            |r: int|
                self.model().foreseen(
                    self.n_factors as nat,
                    identifier(x.rows[r][0]) as nat,
                    identifier(x.rows[r][1]) as nat,
                ),
        )
    }

    /// The rating of each pair of user and item, or the level if a column is missing.
    pub fn predict(&self, x: &Matrix) -> (out: Qualified<Vec<Double>>)
        requires
            x.wf(),
        ensures
            if x.width < 2 {
                &&& out.value@ == Seq::new(x.height(), |r: int| self.biases.mu)
                &&& out.report@ == seq![issue(IssueCode::DimensionMismatch)]
            } else {
                &&& out.value@ == self.predictions(x@)
                &&& out.report@.len() == 0
            },
    {
        if x.ncols() < 2 {
            let mut report: Vec<Issue> = Vec::new();
            report.push(issue(IssueCode::DimensionMismatch));
            assert(report@ =~= seq![issue(IssueCode::DimensionMismatch)]);
            let value = filled(x.nrows(), self.biases.mu);
            assert(value@ =~= Seq::new(x.height(), |r: int| self.biases.mu));
            return Qualified { value, report };
        }
        let mut value: Vec<Double> = Vec::new();
        let mut r: usize = 0;
        while r < x.nrows()
            invariant
                r <= x.height(),
                x.wf(),
                x.width >= 2,
                value@ == self.predictions(x@).take(r as int),
            decreases x.height() - r,
        {
            assert(x@.rows[r as int] == x.rows@[r as int]@);
            value.push(self.pred(identifier(x.get(r, 0)), identifier(x.get(r, 1))));
            r = r + 1;
            assert(value@ =~= self.predictions(x@).take(r as int));
        }
        assert(value@ =~= self.predictions(x@));
        Qualified { value, report: Vec::new() }
    }
}

/// Mean of all ratings.
#[derive(Clone, Debug)]
pub struct Baseline {
    /// Mean.
    pub mean: Double,
    /// Finite ratings taken in.
    pub n_seen: u64,
    /// Batches taken in.
    pub updates: u64,
}

/// Running mean and count after the first `k` values; values that are not finite are
/// skipped.
pub open spec fn running_mean(mean: Double, n: nat, y: Seq<Double>, k: nat) -> (Double, nat)
    decreases k,
{
    if k == 0 {
        (mean, n)
    } else {
        let (m, c) = running_mean(mean, n, y, (k - 1) as nat);
        if y[k - 1].is_finite() {
            (m.plus(y[k - 1].minus(m).over(Double::from_u64((c + 1) as u64))), c + 1)
        } else {
            (m, c)
        }
    }
}

impl Default for Baseline {
    fn default() -> (r: Baseline)
        ensures
            r.mean == zero() && r.n_seen == 0 && r.updates == 0,
    {
        Baseline::new()
    }
}

impl Baseline {
    /// No ratings yet.
    pub fn new() -> (r: Baseline)
        ensures
            r.mean == zero() && r.n_seen == 0 && r.updates == 0,
    {
        Baseline { mean: zero(), n_seen: 0, updates: 0 }
    }

    /// What a batch does.
    pub open spec fn answers(&self, after: &Baseline, x: &Matrix, y: Option<Seq<Double>>, r: &Update) -> bool {
        match y {
            None => {
                &&& *after == *self
                &&& reports(
                    r,
                    IncrementalQuality::new(self.updates, x.height() as usize, self.n_seen),
                    shape_issues(x, y).push(issue(IssueCode::MissingTarget)),
                    false,
                )
            },
            Some(t) => {
                let shift = after.mean.minus(self.mean).abs();
                &&& (after.mean, after.n_seen as nat) == running_mean(self.mean, self.n_seen as nat, t, t.len())
                &&& after.updates == self.updates + 1
                &&& reports(
                    r,
                    IncrementalQuality {
                        effective_sample_size: Double::from_u64(after.n_seen),
                        parameter_delta_norm: Some(shift),
                        information_gain: Some(shift),
                        still_identified: after.n_seen >= 1,
                        warmup: after.n_seen < 2,
                        ..IncrementalQuality::new(self.updates, x.height() as usize, after.n_seen)
                    },
                    shape_issues(x, y),
                    true,
                )
            },
        }
    }

    /// Takes in ratings, unless there are none.
    pub fn partial_fit(&mut self, x: &Matrix, y: Option<&Vec<Double>>) -> (r: Update)
        requires
            x.wf(),
            y matches Some(t) ==> old(self).n_seen + t@.len() <= u64::MAX,
            old(self).updates < u64::MAX,
        ensures
            old(self).answers(final(self), x, target(y), &r),
    {
        let n: usize = x.nrows();
        let mut issues: Vec<Issue> = Vec::new();
        inspect_online_xy(&mut issues, x, y);
        assert(issues@ =~= shape_issues(x, target(y)));
        let t: &Vec<Double> = match y {
            None => {
                issues.push(issue(IssueCode::MissingTarget));
                return rejection(self.updates, n, self.n_seen, issues);
            },
            Some(t) => t,
        };
        let before: Double = self.mean;
        let mut i: usize = 0;
        while i < t.len()
            invariant
                i <= t@.len(),
                old(self).n_seen + t@.len() <= u64::MAX,
                self.n_seen <= old(self).n_seen + i,
                self.updates == old(self).updates,
                (self.mean, self.n_seen as nat) == running_mean(old(self).mean, old(self).n_seen as nat, t@, i as nat),
            decreases t@.len() - i,
        {
            if t[i].is_finite() {
                self.n_seen = self.n_seen + 1;
                self.mean = self.mean.plus(t[i].minus(self.mean).over(Double::from_u64(self.n_seen)));
            }
            i = i + 1;
        }
        self.updates = self.updates + 1;
        let shift: Double = self.mean.minus(before).abs();
        let quality = IncrementalQuality {
            effective_sample_size: Double::from_u64(self.n_seen),
            parameter_delta_norm: Some(shift),
            information_gain: Some(shift),
            still_identified: self.n_seen >= 1,
            warmup: self.n_seen < 2,
            ..IncrementalQuality::new(self.updates - 1, n, self.n_seen)
        };
        screened_report(quality, issues)
    }

    /// The mean for every row.
    pub fn predict(&self, x: &Matrix) -> (out: Qualified<Vec<Double>>)
        ensures
            out.value@ == Seq::new(x.height(), |i: int| self.mean),
            out.report@ == given(self.n_seen == 0, IssueCode::PartialFitBeforeInit),
    {
        let mut report: Vec<Issue> = Vec::new();
        raise(&mut report, self.n_seen == 0, IssueCode::PartialFitBeforeInit);
        assert(report@ =~= given(self.n_seen == 0, IssueCode::PartialFitBeforeInit));
        let value = filled(x.nrows(), self.mean);
        assert(value@ =~= Seq::new(x.height(), |i: int| self.mean));
        Qualified { value, report }
    }
}

/// Weighted mix of two forecasts of the target: its mean and its last value.
#[derive(Clone, Copy, Debug, PartialEq, Eq, Structural)]
pub struct EwaRegressor {
    /// Step of the weights.
    pub eta: Double,
    /// Weight of the mean.
    pub w_mean: Double,
    /// Weight of the last value.
    pub w_last: Double,
    /// Mean.
    pub mean: Double,
    /// Last value.
    pub last: Double,
    /// Finite targets taken in.
    pub n_seen: u64,
    /// Batches taken in.
    pub updates: u64,
    /// Whether a target was taken in.
    pub initialized: bool,
}

impl Default for EwaRegressor {
    fn default() -> (r: EwaRegressor)
        ensures
            r == EwaRegressor::blank(half()),
    {
        EwaRegressor::new(half())
    }
}

impl EwaRegressor {
    /// The state before any target.
    pub open spec fn blank(eta: Double) -> EwaRegressor {
        EwaRegressor {
            eta,
            w_mean: one(),
            w_last: one(),
            mean: zero(),
            last: zero(),
            n_seen: 0,
            updates: 0,
            initialized: false,
        }
    }

    /// A mix with the given step.
    pub fn new(eta: Double) -> (r: EwaRegressor)
        ensures
            r == EwaRegressor::blank(eta),
    {
        EwaRegressor {
            eta,
            w_mean: one(),
            w_last: one(),
            mean: zero(),
            last: zero(),
            n_seen: 0,
            updates: 0,
            initialized: false,
        }
    }

    /// The forecast.
    pub open spec fn forecast(self) -> Double {
        let z = self.w_mean.plus(self.w_last);
        if z.le(zero()) {
            self.mean
        } else {
            self.w_mean.times(self.mean).plus(self.w_last.times(self.last)).over(z)
        }
    }

    fn mix(&self) -> (r: Double)
        ensures
            r == self.forecast(),
    {
        let z: Double = self.w_mean.plus(self.w_last);
        if z.le(zero()) {
            self.mean
        } else {
            self.w_mean.times(self.mean).plus(self.w_last.times(self.last)).over(z)
        }
    }

    /// Whether the step can be used.
    pub open spec fn proper(self) -> bool {
        self.eta.is_finite() && self.eta.gt(zero())
    }

    /// The step in use.
    pub open spec fn step(self) -> Double {
        if self.proper() {
            self.eta
        } else {
            half()
        }
    }

    /// After one more target; one that is not finite is skipped. Both weights shrink
    /// with the squared error of their forecast and are scaled back.
    pub open spec fn shown(self, y: Double, eta: Double, exp: Curve) -> EwaRegressor {
        if !y.is_finite() {
            self
        } else if self.initialized {
            let em = self.mean.minus(y).times(self.mean.minus(y));
            let el = self.last.minus(y).times(self.last.minus(y));
            let wm = self.w_mean.times(exp(eta.neg().times(em)));
            let wl = self.w_last.times(exp(eta.neg().times(el)));
            let z = wm.plus(wl).max(ten_to_minus_18());
            let n = Double::from_u64(self.n_seen);
            EwaRegressor {
                w_mean: wm.over(z).max(ten_to_minus_12()),
                w_last: wl.over(z).max(ten_to_minus_12()),
                mean: self.mean.times(n).plus(y).over(n.plus(one())),
                last: y,
                n_seen: (self.n_seen + 1) as u64,
                ..self
            }
        } else {
            EwaRegressor { mean: y, last: y, initialized: true, n_seen: (self.n_seen + 1) as u64, ..self }
        }
    }

    /// After the first `k` targets.
    pub open spec fn after(self, y: Seq<Double>, eta: Double, exp: Curve, k: nat) -> EwaRegressor
        decreases k,
    {
        if k == 0 {
            self
        } else {
            self.after(y, eta, exp, (k - 1) as nat).shown(y[k - 1], eta, exp)
        }
    }

    fn show<E: Fn(Double) -> Double>(&mut self, y: Double, eta: Double, exp: &E)
        requires
            old(self).n_seen < u64::MAX,
            is_function(*exp),
        ensures
            *final(self) == old(self).shown(y, eta, curve(*exp)),
    {
        if !y.is_finite() {
            return ;
        }
        if self.initialized {
            let em: Double = self.mean.minus(y).times(self.mean.minus(y));
            let el: Double = self.last.minus(y).times(self.last.minus(y));
            let wm: Double = self.w_mean.times(apply(exp, eta.neg().times(em)));
            let wl: Double = self.w_last.times(apply(exp, eta.neg().times(el)));
            let z: Double = wm.plus(wl).max(ten_to_minus_18());
            self.w_mean = wm.over(z).max(ten_to_minus_12());
            self.w_last = wl.over(z).max(ten_to_minus_12());
            let n: Double = Double::from_u64(self.n_seen);
            self.mean = self.mean.times(n).plus(y).over(n.plus(one()));
            self.last = y;
        } else {
            self.mean = y;
            self.last = y;
            self.initialized = true;
        }
        self.n_seen = self.n_seen + 1;
    }

    /// Issues about the batch, the step and the unused columns.
    pub open spec fn early_issues(self, x: &Matrix, y: Seq<Double>) -> Seq<Issue> {
        let seen = shape_issues(x, Some(y));
        (if self.proper() {
            seen
        } else {
            seen.push(warning(IssueCode::InvalidWeight))
        }).push(advisory(IssueCode::CausalClaimUnidentified))
    }

    /// What a batch does.
    pub open spec fn answers(self, after: EwaRegressor, x: &Matrix, y: Option<Seq<Double>>, exp: Curve, r: &Update) -> bool {
        match y {
            None => {
                &&& after == self
                &&& reports(
                    r,
                    IncrementalQuality::new(self.updates, x.height() as usize, self.n_seen),
                    shape_issues(x, y).push(issue(IssueCode::MissingTarget)),
                    false,
                )
            },
            Some(t) => {
                let end = self.after(t, self.step(), exp, paired(x@, t));
                let shift = after.forecast().minus(self.forecast()).abs();
                &&& after == (EwaRegressor { updates: (self.updates + 1) as u64, ..end })
                &&& reports(
                    r,
                    IncrementalQuality {
                        effective_sample_size: Double::from_u64(after.n_seen),
                        parameter_delta_norm: Some(shift),
                        information_gain: Some(
                            shift.max(
                                one().over(
                                    Double::from_u64(
                                        if after.n_seen < 1 {
                                            1
                                        } else {
                                            after.n_seen
                                        },
                                    ),
                                ),
                            ),
                        ),
                        still_identified: after.initialized && after.n_seen >= 2,
                        warmup: after.n_seen < 2,
                        ..IncrementalQuality::new(self.updates, x.height() as usize, after.n_seen)
                    },
                    self.early_issues(x, t),
                    true,
                )
            },
        }
    }

    /// Takes in the targets of a batch, unless there are none. `exp` is the
    /// exponential.
    pub fn partial_fit<E: Fn(Double) -> Double>(&mut self, x: &Matrix, y: Option<&Vec<Double>>, exp: &E) -> (r: Update)
        requires
            x.wf(),
            old(self).n_seen + x.height() <= u64::MAX,
            old(self).updates < u64::MAX,
            is_function(*exp),
        ensures
            old(self).answers(*final(self), x, target(y), curve(*exp), &r),
    {
        let n: usize = x.nrows();
        let mut issues: Vec<Issue> = Vec::new();
        inspect_online_xy(&mut issues, x, y);
        assert(issues@ =~= shape_issues(x, target(y)));
        let t: &Vec<Double> = match y {
            None => {
                issues.push(issue(IssueCode::MissingTarget));
                return rejection(self.updates, n, self.n_seen, issues);
            },
            Some(t) => t,
        };
        let eta: Double = if self.eta.is_finite() && self.eta.gt(zero()) {
            self.eta
        } else {
            issues.push(warning(IssueCode::InvalidWeight));
            half()
        };
        issues.push(advisory(IssueCode::CausalClaimUnidentified));
        assert(issues@ =~= self.early_issues(x, t@));
        let before: Double = self.mix();
        let k: usize = if n < t.len() {
            n
        } else {
            t.len()
        };
        let ghost start = *self;
        let mut i: usize = 0;
        while i < k
            invariant
                i <= k,
                k <= n,
                n == x.height(),
                k <= t@.len(),
                start == *old(self),
                start.n_seen + n <= u64::MAX,
                self.n_seen <= start.n_seen + i,
                self.updates == start.updates,
                is_function(*exp),
                *self == start.after(t@, eta, curve(*exp), i as nat),
            decreases k - i,
        {
            self.show(t[i], eta, exp);
            i = i + 1;
        }
        self.updates = self.updates + 1;
        let shift: Double = self.mix().minus(before).abs();
        let count: u64 = if self.n_seen < 1 {
            1
        } else {
            self.n_seen
        };
        let quality = IncrementalQuality {
            effective_sample_size: Double::from_u64(self.n_seen),
            parameter_delta_norm: Some(shift),
            information_gain: Some(shift.max(one().over(Double::from_u64(count)))),
            still_identified: self.initialized && self.n_seen >= 2,
            warmup: self.n_seen < 2,
            ..IncrementalQuality::new(self.updates - 1, n, self.n_seen)
        };
        screened_report(quality, issues)
    }

    /// The forecast for every row, or zeros before the first target.
    pub fn predict(&self, x: &Matrix) -> (out: Qualified<Vec<Double>>)
        ensures
            if !self.initialized {
                &&& out.value@ == zero_seq(x.height())
                &&& out.report@ == seq![issue(IssueCode::PartialFitBeforeInit)]
            } else {
                &&& out.value@ == Seq::new(x.height(), |i: int| self.forecast())
                &&& out.report@.len() == 0
            },
    {
        if !self.initialized {
            return unready(x.nrows());
        }
        let value = filled(x.nrows(), self.mix());
        assert(value@ =~= Seq::new(x.height(), |i: int| self.forecast()));
        Qualified { value, report: Vec::new() }
    }
}

} // verus!
