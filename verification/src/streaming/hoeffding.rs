//! Decision trees that split a leaf once a Hoeffding bound is met.

use crate::constants::{half, neg_one, ten_to_minus_12, ten_to_minus_6, ten_to_minus_7, twentieth, two};
use crate::data::{Batch, zero_seq, Matrix};
use crate::double::{one, zero, Double};
use crate::functions::{apply, curve, is_function, Curve};
use crate::online::common::{inspect_online_xy, shape_issues, target};
use crate::quality::{given, issue, raise, IncrementalQuality, Issue, IssueCode, Qualified, Update};
use crate::streaming::columns::{rejection, reports};
use crate::streaming::linear::{linear_refusal, unready};
use vstd::prelude::*;

verus! {

/// Running count, mean and sum of squared deviations.
#[derive(Clone, Copy, Debug, PartialEq, Eq, Structural)]
pub struct Gauss {
    /// Number of values.
    pub n: Double,
    /// Mean.
    pub mean: Double,
    /// Sum of squared deviations.
    pub m2: Double,
}

impl Gauss {
    /// No values yet.
    #[verifier::allow_in_spec]
    pub fn fresh() -> (r: Gauss)
        returns
            (Gauss { n: zero(), mean: zero(), m2: zero() }),
    {
        Gauss { n: zero(), mean: zero(), m2: zero() }
    }

    /// After one more value; values that are not finite are skipped.
    pub open spec fn spec_pushed(self, x: Double) -> Gauss {
        if !x.is_finite() {
            self
        } else {
            let n = self.n.plus(one());
            let d = x.minus(self.mean);
            let mean = self.mean.plus(d.over(n));
            Gauss { n, mean, m2: self.m2.plus(d.times(x.minus(mean))) }
        }
    }

    /// After one more value; values that are not finite are skipped.
    #[verifier::when_used_as_spec(spec_pushed)]
    pub fn pushed(self, x: Double) -> (r: Gauss)
        ensures
            r == self.spec_pushed(x),
    {
        if !x.is_finite() {
            self
        } else {
            let n: Double = self.n.plus(one());
            let d: Double = x.minus(self.mean);
            let mean: Double = self.mean.plus(d.over(n));
            Gauss { n, mean, m2: self.m2.plus(d.times(x.minus(mean))) }
        }
    }

    /// Sample variance, zero for fewer than two values.
    pub open spec fn spec_var(self) -> Double {
        if self.n.lt(two()) {
            zero()
        } else {
            self.m2.over(self.n.minus(one())).max(zero())
        }
    }

    /// Sample variance, zero for fewer than two values.
    #[verifier::when_used_as_spec(spec_var)]
    pub fn var(self) -> (r: Double)
        ensures
            r == self.spec_var(),
    {
        if self.n.lt(two()) {
            zero()
        } else {
            self.m2.over(self.n.minus(one())).max(zero())
        }
    }

    /// Sample standard deviation, kept away from zero.
    pub open spec fn spec_deviation(self) -> Double {
        if self.n.lt(two()) {
            ten_to_minus_6()
        } else {
            self.m2.over(self.n.minus(one())).max(zero()).sqrt().max(ten_to_minus_6())
        }
    }

    /// Sample standard deviation, kept away from zero.
    #[verifier::when_used_as_spec(spec_deviation)]
    pub fn deviation(self) -> (r: Double)
        ensures
            r == self.spec_deviation(),
    {
        if self.n.lt(two()) {
            ten_to_minus_6()
        } else {
            self.m2.over(self.n.minus(one())).max(zero()).sqrt().max(ten_to_minus_6())
        }
    }
}

/// Gini impurity of two class counts.
pub open spec fn gini(n0: Double, n1: Double) -> Double {
    let n = n0.plus(n1);
    if n.le(zero()) {
        zero()
    } else {
        let p0 = n0.over(n);
        let p1 = n1.over(n);
        one().minus(p0.times(p0)).minus(p1.times(p1))
    }
}

/// Gini impurity of two class counts.
#[verifier::when_used_as_spec(gini)]
pub fn gini_counts(n0: Double, n1: Double) -> (r: Double)
    ensures
        r == gini(n0, n1),
{
    let n: Double = n0.plus(n1);
    if n.le(zero()) {
        return zero();
    }
    let p0: Double = n0.over(n);
    let p1: Double = n1.over(n);
    one().minus(p0.times(p0)).minus(p1.times(p1))
}

/// When a leaf may split.
#[derive(Clone, Copy, Debug, PartialEq, Eq, Structural)]
pub struct SplitRule {
    /// Probability that a split is taken wrongly.
    pub delta: Double,
    /// Observations that a leaf needs.
    pub min_samples: usize,
    /// Bound below which ties are broken.
    pub tau: Double,
}

/// A split that a leaf took.
#[derive(Clone, Copy, Debug, PartialEq, Eq, Structural)]
pub struct SplitNote {
    /// Identifier of the leaf.
    pub leaf: u64,
    /// Column that the split looks at.
    pub feature: usize,
    /// Values up to the threshold go to the left.
    pub threshold: Double,
    /// Gain of the split.
    pub gain: Double,
    /// Hoeffding bound.
    pub bound: Double,
    /// Observations in the leaf.
    pub n: Double,
}

/// The best candidate so far and the gain of the runner-up.
#[derive(Clone, Copy, Debug, PartialEq, Eq, Structural)]
pub struct Race {
    /// Column of the best candidate.
    pub feature: usize,
    /// Threshold of the best candidate.
    pub threshold: Double,
    /// Gain of the best candidate.
    pub gain: Double,
    /// Gain of the runner-up.
    pub second: Double,
}

impl Race {
    /// No candidate yet.
    #[verifier::allow_in_spec]
    pub fn open() -> (r: Race)
        returns
            (Race { feature: 0, threshold: zero(), gain: neg_one(), second: neg_one() }),
    {
        Race { feature: 0, threshold: zero(), gain: neg_one(), second: neg_one() }
    }

    /// The race after one more candidate.
    pub open spec fn spec_joined(self, feature: usize, threshold: Double, gain: Double) -> Race {
        if gain.gt(self.gain) {
            Race { feature, threshold, gain, second: self.gain }
        } else if gain.gt(self.second) {
            Race { second: gain, ..self }
        } else {
            self
        }
    }

    /// The race after one more candidate.
    #[verifier::when_used_as_spec(spec_joined)]
    pub fn joined(self, feature: usize, threshold: Double, gain: Double) -> (r: Race)
        ensures
            r == self.spec_joined(feature, threshold, gain),
    {
        if gain.gt(self.gain) {
            Race { feature, threshold, gain, second: self.gain }
        } else if gain.gt(self.second) {
            Race { second: gain, ..self }
        } else {
            self
        }
    }

    /// Whether the best candidate beats the runner-up by more than the bound, or
    /// the bound is below the tie threshold.
    pub open spec fn spec_decided(self, bound: Double, tau: Double) -> bool {
        !self.gain.lt(zero()) && (self.gain.minus(self.second.max(zero())).gt(bound) || bound.lt(tau))
    }

    /// Whether the best candidate beats the runner-up by more than the bound, or
    /// the bound is below the tie threshold.
    #[verifier::when_used_as_spec(spec_decided)]
    pub fn decided(self, bound: Double, tau: Double) -> (r: bool)
        ensures
            r == self.spec_decided(bound, tau),
    {
        !self.gain.lt(zero()) && (self.gain.minus(self.second.max(zero())).gt(bound) || bound.lt(tau))
    }
}

/// The Hoeffding bound after `n` observations.
pub open spec fn hoeffding_bound(delta: Double, n: Double, ln: Curve) -> Double {
    half().times(ln(one().over(delta.max(ten_to_minus_12())))).over(n).sqrt()
}

/// The Hoeffding bound after `n` observations.
pub fn bound_for<F: Fn(Double) -> Double>(delta: Double, n: Double, ln: &F) -> (r: Double)
    requires
        is_function(*ln),
    ensures
        r == hoeffding_bound(delta, n, curve(*ln)),
{
    half().times(apply(ln, one().over(delta.max(ten_to_minus_12())))).over(n).sqrt()
}

/// The leaf of a tree.
pub trait TreeLeaf: View + Sized {
    /// An empty leaf for `p` columns.
    spec fn fresh(id: u64, p: nat) -> Self::V;

    /// Columns that the leaf knows.
    spec fn width(s: Self::V) -> nat;

    /// Whether no counter of the leaf is above `cap`.
    spec fn within(s: Self::V, cap: nat) -> bool;

    /// The leaf after one more row.
    spec fn fed(s: Self::V, row: Seq<Double>, y: Double) -> Self::V;

    /// The split that the leaf calls for, given the natural logarithm and the
    /// distribution function of the standard normal law.
    spec fn verdict(
        s: Self::V,
        rule: SplitRule,
        ln: Curve,
        cdf: Curve,
    ) -> Option<SplitNote>;

    /// What the leaf predicts.
    spec fn answer(s: Self::V) -> Double;

    /// What every value of the type satisfies.
    spec fn sound(&self) -> bool;

    /// A row keeps the columns and adds at most one to each counter.
    proof fn lemma_fed(s: Self::V, row: Seq<Double>, y: Double, cap: nat)
        ensures
            Self::width(Self::fed(s, row, y)) == Self::width(s),
            Self::within(s, cap) ==> Self::within(Self::fed(s, row, y), cap + 1),
            Self::within(s, cap) ==> Self::within(s, cap + 1),
    ;

    /// An empty leaf has no counts.
    proof fn lemma_fresh(id: u64, p: nat, cap: nat)
        ensures
            Self::width(Self::fresh(id, p)) == p,
            Self::within(Self::fresh(id, p), cap),
    ;

    /// A split looks at a column that the leaf knows.
    proof fn lemma_verdict(
        s: Self::V,
        rule: SplitRule,
        ln: Curve,
        cdf: Curve,
    )
        ensures
            Self::width(s) <= usize::MAX ==> (Self::verdict(s, rule, ln, cdf) matches Some(note) ==> note.feature
                < Self::width(s)),
    ;

    /// An empty leaf for `p` columns.
    fn sprout(id: u64, p: usize) -> (r: Self)
        ensures
            r.sound(),
            r@ == Self::fresh(id, p as nat),
    ;

    /// Takes in a row.
    fn feed(&mut self, row: &Vec<Double>, y: Double, Ghost(cap): Ghost<nat>)
        requires
            old(self).sound(),
            Self::within(old(self)@, cap),
            cap < u64::MAX,
            row@.len() == Self::width(old(self)@),
        ensures
            final(self).sound(),
            final(self)@ == Self::fed(old(self)@, row@, y),
    ;

    /// The split that the leaf calls for.
    fn judge<F: Fn(Double) -> Double, G: Fn(Double) -> Double>(&self, rule: SplitRule, ln: &F, cdf: &G) -> (r: Option<
        SplitNote,
    >)
        requires
            self.sound(),
            is_function(*ln),
            is_function(*cdf),
        ensures
            r == Self::verdict(self@, rule, curve(*ln), curve(*cdf)),
    ;

    /// What the leaf predicts.
    fn predict(&self) -> (r: Double)
        requires
            self.sound(),
        ensures
            r == Self::answer(self@),
    ;

    /// Columns that the leaf knows.
    fn columns(&self) -> (n: usize)
        requires
            self.sound(),
        ensures
            n == Self::width(self@),
    ;

    /// A copy with the same state.
    fn duplicate(&self) -> (r: Self)
        requires
            self.sound(),
        ensures
            r.sound(),
            r@ == self@,
    ;
}

/// Node of a tree.
#[derive(Debug)]
pub enum Node<L> {
    /// A leaf.
    Leaf(L),
    /// A test on one column.
    Split {
        /// Column that the test looks at.
        feature: usize,
        /// Values up to the threshold go to the left.
        threshold: Double,
        /// Subtree for values up to the threshold.
        left: Box<Node<L>>,
        /// Subtree for the others.
        right: Box<Node<L>>,
    },
}

/// The shape and leaf states of a tree.
pub enum Tree<S> {
    /// A leaf.
    Leaf(S),
    /// A test on one column.
    Split {
        /// Column that the test looks at.
        feature: usize,
        /// Values up to the threshold go to the left.
        threshold: Double,
        /// Subtree for values up to the threshold.
        left: Box<Tree<S>>,
        /// Subtree for the others.
        right: Box<Tree<S>>,
    },
}

impl<L: TreeLeaf> Node<L> {
    /// The shape and leaf states.
    pub open spec fn tree(&self) -> Tree<L::V>
        decreases self,
    {
        match self {
            Node::Leaf(l) => Tree::Leaf(l@),
            Node::Split { feature, threshold, left, right } => Tree::Split {
                feature: *feature,
                threshold: *threshold,
                left: Box::new(left.tree()),
                right: Box::new(right.tree()),
            },
        }
    }

    /// Every leaf is sound.
    pub open spec fn sound(&self) -> bool
        decreases self,
    {
        match self {
            Node::Leaf(l) => l.sound(),
            Node::Split { feature, threshold, left, right } => left.sound() && right.sound(),
        }
    }
}

/// Every leaf knows `p` columns, every test looks at one of them, and no counter
/// is above `cap`.
pub open spec fn fits_tree<L: TreeLeaf>(t: Tree<L::V>, p: nat, cap: nat) -> bool
    decreases t,
{
    match t {
        Tree::Leaf(s) => L::width(s) == p && L::within(s, cap),
        Tree::Split { feature, threshold, left, right } => {
            &&& feature < p
            &&& fits_tree::<L>(*left, p, cap)
            &&& fits_tree::<L>(*right, p, cap)
        },
    }
}

/// The tree after one more row.
pub open spec fn grown<L: TreeLeaf>(
    t: Tree<L::V>,
    row: Seq<Double>,
    y: Double,
    rule: SplitRule,
    ln: Curve,
    cdf: Curve,
    next_id: u64,
) -> Tree<L::V>
    decreases t,
{
    match t {
        Tree::Leaf(s) => {
            let fed = L::fed(s, row, y);
            match L::verdict(fed, rule, ln, cdf) {
                Some(note) => Tree::Split {
                    feature: note.feature,
                    threshold: note.threshold,
                    left: Box::new(Tree::Leaf(L::fresh(next_id, L::width(fed)))),
                    right: Box::new(Tree::Leaf(L::fresh((next_id + 1) as u64, L::width(fed)))),
                },
                None => Tree::Leaf(fed),
            }
        },
        Tree::Split { feature, threshold, left, right } => {
            if row[feature as int].le(threshold) {
                Tree::Split {
                    feature,
                    threshold,
                    left: Box::new(grown::<L>(*left, row, y, rule, ln, cdf, next_id)),
                    right,
                }
            } else {
                Tree::Split {
                    feature,
                    threshold,
                    left,
                    right: Box::new(grown::<L>(*right, row, y, rule, ln, cdf, next_id)),
                }
            }
        },
    }
}

/// The state of the leaf that a row reaches. A column that the row lacks reads as
/// zero.
pub open spec fn reached<S>(t: Tree<S>, row: Seq<Double>) -> S
    decreases t,
{
    match t {
        Tree::Leaf(s) => s,
        Tree::Split { feature, threshold, left, right } => {
            let v = if feature < row.len() {
                row[feature as int]
            } else {
                zero()
            };
            if v.le(threshold) {
                reached(*left, row)
            } else {
                reached(*right, row)
            }
        },
    }
}

/// The split that a row brings about.
pub open spec fn split_by<L: TreeLeaf>(
    t: Tree<L::V>,
    row: Seq<Double>,
    y: Double,
    rule: SplitRule,
    ln: Curve,
    cdf: Curve,
) -> Option<SplitNote> {
    L::verdict(L::fed(reached(t, row), row, y), rule, ln, cdf)
}

/// Leaves of a tree.
pub open spec fn leaf_count<S>(t: Tree<S>) -> nat
    decreases t,
{
    match t {
        Tree::Leaf(s) => 1,
        Tree::Split { feature, threshold, left, right } => leaf_count(*left) + leaf_count(*right),
    }
}

/// One row keeps a tree well formed, and adds a leaf exactly if it splits one.
pub proof fn law_tree_grows_by_one<L: TreeLeaf>(
    t: Tree<L::V>,
    row: Seq<Double>,
    y: Double,
    rule: SplitRule,
    ln: Curve,
    cdf: Curve,
    next_id: u64,
    p: nat,
    cap: nat,
)
    requires
        p <= usize::MAX,
        row.len() == p,
        fits_tree::<L>(t, p, cap),
    ensures
        fits_tree::<L>(grown::<L>(t, row, y, rule, ln, cdf, next_id), p, cap + 1),
        leaf_count(grown::<L>(t, row, y, rule, ln, cdf, next_id)) == leaf_count(t) + (if split_by::<L>(
            t,
            row,
            y,
            rule,
            ln,
            cdf,
        ) is Some {
            1nat
        } else {
            0nat
        }),
    decreases t,
{
    match t {
        Tree::Leaf(s) => {
            let fed = L::fed(s, row, y);
            L::lemma_fed(s, row, y, cap);
            L::lemma_verdict(fed, rule, ln, cdf);
            L::lemma_fresh(next_id, p, cap + 1);
            L::lemma_fresh((next_id + 1) as u64, p, cap + 1);
            if let Some(note) = L::verdict(fed, rule, ln, cdf) {
                let left = Tree::Leaf(L::fresh(next_id, p));
                let right = Tree::Leaf(L::fresh((next_id + 1) as u64, p));
                assert(fits_tree::<L>(left, p, cap + 1));
                assert(fits_tree::<L>(right, p, cap + 1));
                assert(leaf_count(left) == 1 && leaf_count(right) == 1);
            }
        },
        Tree::Split { feature, threshold, left, right } => {
            lemma_cap_grows::<L>(*left, p, cap);
            lemma_cap_grows::<L>(*right, p, cap);
            if row[feature as int].le(threshold) {
                law_tree_grows_by_one::<L>(*left, row, y, rule, ln, cdf, next_id, p, cap);
            } else {
                law_tree_grows_by_one::<L>(*right, row, y, rule, ln, cdf, next_id, p, cap);
            }
        },
    }
}

proof fn lemma_cap_grows<L: TreeLeaf>(t: Tree<L::V>, p: nat, cap: nat)
    requires
        fits_tree::<L>(t, p, cap),
    ensures
        fits_tree::<L>(t, p, cap + 1),
    decreases t,
{
    match t {
        Tree::Leaf(s) => {
            L::lemma_fed(s, Seq::empty(), zero(), cap);
        },
        Tree::Split { feature, threshold, left, right } => {
            lemma_cap_grows::<L>(*left, p, cap);
            lemma_cap_grows::<L>(*right, p, cap);
        },
    }
}

impl<L: TreeLeaf> Node<L> {
    /// Takes in a row. The answer is the split that it brings about.
    fn update<F: Fn(Double) -> Double, G: Fn(Double) -> Double>(
        &mut self,
        row: &Vec<Double>,
        y: Double,
        rule: SplitRule,
        ln: &F,
        cdf: &G,
        next_id: u64,
        Ghost(cap): Ghost<nat>,
    ) -> (r: Option<SplitNote>)
        requires
            old(self).sound(),
            fits_tree::<L>(old(self).tree(), row@.len(), cap),
            cap < u64::MAX,
            next_id < u64::MAX,
            is_function(*ln),
            is_function(*cdf),
        ensures
            final(self).sound(),
            final(self).tree() == grown::<L>(old(self).tree(), row@, y, rule, curve(*ln), curve(*cdf), next_id),
            r == split_by::<L>(old(self).tree(), row@, y, rule, curve(*ln), curve(*cdf)),
        decreases *old(self),
    {
        match self {
            Node::Split { feature, threshold, left, right } => {
                let note: Option<SplitNote> = if row[*feature].le(*threshold) {
                    left.update(row, y, rule, ln, cdf, next_id, Ghost(cap))
                } else {
                    right.update(row, y, rule, ln, cdf, next_id, Ghost(cap))
                };
                assert(self.sound());
                assert(self.tree() == grown::<L>(old(self).tree(), row@, y, rule, curve(*ln), curve(*cdf), next_id));
                note
            },
            Node::Leaf(leaf) => {
                proof {
                    L::lemma_fed(leaf@, row@, y, cap);
                }
                leaf.feed(row, y, Ghost(cap));
                let verdict = leaf.judge(rule, ln, cdf);
                let p: usize = leaf.columns();
                if let Some(note) = verdict {
                    let left: Node<L> = Node::Leaf(L::sprout(next_id, p));
                    let right: Node<L> = Node::Leaf(L::sprout(next_id + 1, p));
                    assert(left.sound() && right.sound());
                    assert(left.tree() == Tree::Leaf(L::fresh(next_id, p as nat)));
                    assert(right.tree() == Tree::Leaf(L::fresh((next_id + 1) as u64, p as nat)));
                    *self = Node::Split {
                        feature: note.feature,
                        threshold: note.threshold,
                        left: Box::new(left),
                        right: Box::new(right),
                    };
                }
                verdict
            },
        }
    }

    /// What the leaf that a row reaches predicts.
    pub fn predict_one(&self, row: &Vec<Double>) -> (r: Double)
        requires
            self.sound(),
        ensures
            r == L::answer(reached(self.tree(), row@)),
        decreases self,
    {
        match self {
            Node::Leaf(leaf) => leaf.predict(),
            Node::Split { feature, threshold, left, right } => {
                let v: Double = if *feature < row.len() {
                    row[*feature]
                } else {
                    zero()
                };
                if v.le(*threshold) {
                    left.predict_one(row)
                } else {
                    right.predict_one(row)
                }
            },
        }
    }

    /// A copy with the same shape and leaf states.
    pub fn copy(&self) -> (r: Node<L>)
        requires
            self.sound(),
        ensures
            r.sound(),
            r.tree() == self.tree(),
        decreases self,
    {
        match self {
            Node::Leaf(leaf) => Node::Leaf(leaf.duplicate()),
            Node::Split { feature, threshold, left, right } => Node::Split {
                feature: *feature,
                threshold: *threshold,
                left: Box::new(left.copy()),
                right: Box::new(right.copy()),
            },
        }
    }
}

/// A tree that grows with the rows it is shown.
#[derive(Debug)]
pub struct Grower<L> {
    /// Probability that a split is taken wrongly.
    pub delta: Double,
    /// Observations that a leaf needs before a split is considered.
    pub min_samples: usize,
    /// Bound below which ties are broken.
    pub tau: Double,
    /// Root of the tree.
    pub root: Node<L>,
    /// Rows taken in since the last reset.
    pub n_seen: u64,
    /// Batches taken in.
    pub updates: u64,
    /// Columns that the tree knows.
    pub n_features: usize,
    /// Whether the column count is fixed.
    pub initialized: bool,
    /// The most recent split.
    pub last_split: Option<SplitNote>,
}

/// The state of a growing tree.
pub struct Grove<S> {
    /// When a leaf may split.
    pub rule: SplitRule,
    /// The tree.
    pub root: Tree<S>,
    /// Rows taken in since the last reset.
    pub n_seen: nat,
    /// Batches taken in.
    pub updates: nat,
    /// Columns that the tree knows.
    pub n_features: usize,
    /// Whether the column count is fixed.
    pub initialized: bool,
    /// The most recent split.
    pub last_split: Option<SplitNote>,
}

/// A tree in the middle of a batch, with the last split of the batch.
pub struct Growth<S> {
    /// The tree.
    pub root: Tree<S>,
    /// The last split of the batch.
    pub note: Option<SplitNote>,
}

/// The tree after the first `k` rows of a batch.
pub open spec fn growth<L: TreeLeaf>(
    root: Tree<L::V>,
    x: Batch,
    y: Seq<Double>,
    rule: SplitRule,
    ln: Curve,
    cdf: Curve,
    n_seen: nat,
    k: nat,
) -> Growth<L::V>
    decreases k,
{
    if k == 0 {
        Growth { root, note: None }
    } else {
        let before = growth::<L>(root, x, y, rule, ln, cdf, n_seen, (k - 1) as nat);
        let row = x.rows[k - 1];
        let note = split_by::<L>(before.root, row, y[k - 1], rule, ln, cdf);
        Growth {
            root: grown::<L>(before.root, row, y[k - 1], rule, ln, cdf, (n_seen + 17 + (k - 1)) as u64),
            note: if note is Some {
                note
            } else {
                before.note
            },
        }
    }
}

/// Rows keep a tree well formed: every test looks at a known column, and no
/// counter exceeds the number of rows seen.
pub proof fn law_growth_keeps_fit<L: TreeLeaf>(
    root: Tree<L::V>,
    x: Batch,
    y: Seq<Double>,
    rule: SplitRule,
    ln: Curve,
    cdf: Curve,
    n_seen: nat,
    k: nat,
)
    requires
        x.wf(),
        k <= x.height(),
        fits_tree::<L>(root, x.width as nat, n_seen),
    ensures
        fits_tree::<L>(growth::<L>(root, x, y, rule, ln, cdf, n_seen, k).root, x.width as nat, n_seen + k),
    decreases k,
{
    if k > 0 {
        law_growth_keeps_fit::<L>(root, x, y, rule, ln, cdf, n_seen, (k - 1) as nat);
        let before = growth::<L>(root, x, y, rule, ln, cdf, n_seen, (k - 1) as nat);
        assert(x.rows[k - 1].len() == x.width);
        law_tree_grows_by_one::<L>(
            before.root,
            x.rows[k - 1],
            y[k - 1],
            rule,
            ln,
            cdf,
            (n_seen + 17 + (k - 1)) as u64,
            x.width as nat,
            (n_seen + (k - 1)) as nat,
        );
    }
}

/// The state with a root for `width` columns.
pub open spec fn rooted<L: TreeLeaf>(s: Grove<L::V>, width: usize) -> Grove<L::V> {
    if s.initialized {
        s
    } else {
        Grove { root: Tree::Leaf(L::fresh(0, width as nat)), n_features: width, initialized: true, ..s }
    }
}

/// What the rows of a batch make of a tree.
pub open spec fn grove_growth<L: TreeLeaf>(
    s: Grove<L::V>,
    x: Batch,
    y: Seq<Double>,
    ln: Curve,
    cdf: Curve,
) -> Growth<L::V> {
    growth::<L>(rooted::<L>(s, x.width).root, x, y, s.rule, ln, cdf, s.n_seen, x.height())
}

/// Why a batch is turned away.
pub open spec fn grove_refusal<S>(s: Grove<S>, x: Batch, y: Option<Seq<Double>>) -> Option<IssueCode> {
    linear_refusal(s.initialized, s.n_features as nat, x, y)
}

/// The state after a batch. A batch that does not fit changes nothing.
pub open spec fn grove_after<L: TreeLeaf>(
    s: Grove<L::V>,
    x: Batch,
    y: Seq<Double>,
    ln: Curve,
    cdf: Curve,
) -> Grove<L::V> {
    if grove_refusal(s, x, Some(y)) is Some {
        s
    } else {
        let g = grove_growth::<L>(s, x, y, ln, cdf);
        Grove {
            root: g.root,
            n_seen: s.n_seen + x.height(),
            updates: s.updates + 1,
            last_split: if g.note is Some {
                g.note
            } else {
                s.last_split
            },
            ..rooted::<L>(s, x.width)
        }
    }
}

/// Quality figures after a batch.
pub open spec fn grove_figures<S>(after: Grove<S>, split: bool, batch: usize) -> IncrementalQuality {
    let moved = if split {
        one()
    } else {
        zero()
    };
    let warmup = after.n_seen < after.rule.min_samples;
    IncrementalQuality {
        effective_sample_size: Double::from_u64(after.n_seen as u64),
        parameter_delta_norm: Some(moved),
        information_gain: Some(moved),
        still_identified: !warmup,
        warmup,
        ..IncrementalQuality::new((after.updates - 1) as u64, batch, after.n_seen as u64)
    }
}

/// What a batch does.
pub open spec fn grove_answers<L: TreeLeaf>(
    before: Grove<L::V>,
    after: Grove<L::V>,
    x: &Matrix,
    y: Option<Seq<Double>>,
    ln: Curve,
    cdf: Curve,
    r: &Update,
) -> bool {
    match grove_refusal(before, x@, y) {
        Some(code) => {
            &&& after == before
            &&& reports(
                r,
                IncrementalQuality::new(before.updates as u64, x.height() as usize, before.n_seen as u64),
                seq![issue(code)],
                false,
            )
        },
        None => {
            let split = grove_growth::<L>(before, x@, y->0, ln, cdf).note is Some;
            let warmup = after.n_seen < after.rule.min_samples;
            &&& after == grove_after::<L>(before, x@, y->0, ln, cdf)
            &&& reports(
                r,
                grove_figures(after, split, x.height() as usize),
                shape_issues(x, y) + given(warmup, IssueCode::WarmupIncomplete),
                !warmup,
            )
        },
    }
}

/// One prediction per row.
pub open spec fn grove_predictions<L: TreeLeaf>(s: Grove<L::V>, x: Batch) -> Seq<Double> {
    Seq::new(x.height(), |i: int| L::answer(reached(s.root, x.rows[i])))
}

impl<L: TreeLeaf> View for Grower<L> {
    type V = Grove<L::V>;

    open spec fn view(&self) -> Grove<L::V> {
        Grove {
            rule: self.rule_spec(),
            root: self.root.tree(),
            n_seen: self.n_seen as nat,
            updates: self.updates as nat,
            n_features: self.n_features,
            initialized: self.initialized,
            last_split: self.last_split,
        }
    }
}

/// The state of a tree without rows.
pub open spec fn blank_grove<L: TreeLeaf>(rule: SplitRule) -> Grove<L::V> {
    Grove {
        rule,
        root: Tree::Leaf(L::fresh(0, 0)),
        n_seen: 0,
        updates: 0,
        n_features: 0,
        initialized: false,
        last_split: None,
    }
}

/// The default rule for splits.
#[verifier::allow_in_spec]
pub fn default_rule() -> (r: SplitRule)
    returns
        (SplitRule { delta: ten_to_minus_7(), min_samples: 20, tau: twentieth() }),
{
    SplitRule { delta: ten_to_minus_7(), min_samples: 20, tau: twentieth() }
}

/// The state after a reset: an empty root for the known columns.
pub open spec fn reset_grove<L: TreeLeaf>(s: Grove<L::V>) -> Grove<L::V> {
    Grove {
        root: Tree::Leaf(L::fresh(0, s.n_features as nat)),
        n_seen: 0,
        last_split: None,
        initialized: s.n_features > 0,
        ..s
    }
}

impl<L: TreeLeaf> Grower<L> {
    /// When a leaf may split.
    pub open spec fn rule_spec(&self) -> SplitRule {
        SplitRule { delta: self.delta, min_samples: self.min_samples, tau: self.tau }
    }

    /// The tree fits its columns.
    pub open spec fn wf(&self) -> bool {
        &&& self.root.sound()
        &&& self.initialized ==> fits_tree::<L>(self.root.tree(), self.n_features as nat, self.n_seen as nat)
    }

    /// Counters that leave room for a batch.
    pub open spec fn room(&self, rows: nat) -> bool {
        &&& self.n_seen + rows + 18 <= u64::MAX
        &&& self.updates < u64::MAX
    }

    /// An empty tree with the default rule.
    pub fn new() -> (r: Grower<L>)
        ensures
            r.wf(),
            r@ == blank_grove::<L>(default_rule()),
    {
        let rule = default_rule();
        Grower {
            delta: rule.delta,
            min_samples: rule.min_samples,
            tau: rule.tau,
            root: Node::Leaf(L::sprout(0, 0)),
            n_seen: 0,
            updates: 0,
            n_features: 0,
            initialized: false,
            last_split: None,
        }
    }

    /// An empty tree for `p` columns.
    pub fn planted(p: usize, min_samples: usize) -> (r: Grower<L>)
        ensures
            r.wf(),
            r@ == rooted::<L>(
                blank_grove::<L>(SplitRule { min_samples, ..default_rule() }),
                p,
            ),
    {
        let mut r: Grower<L> = Grower::new();
        r.min_samples = min_samples;
        r.n_features = p;
        r.root = Node::Leaf(L::sprout(0, p));
        r.initialized = true;
        proof {
            L::lemma_fresh(0, p as nat, 0);
            assert(fits_tree::<L>(Tree::Leaf(L::fresh(0, p as nat)), p as nat, 0));
        }
        r
    }

    /// The most recent split, if any.
    pub fn last_split(&self) -> (r: Option<SplitNote>)
        ensures
            r == self@.last_split,
    {
        self.last_split
    }

    /// Starts over with an empty root for the known columns.
    pub fn reset(&mut self)
        ensures
            final(self).wf(),
            final(self)@ == reset_grove::<L>(old(self)@),
    {
        self.root = Node::Leaf(L::sprout(0, self.n_features));
        self.n_seen = 0;
        self.last_split = None;
        self.initialized = self.n_features > 0;
        proof {
            L::lemma_fresh(0, self.n_features as nat, 0);
            assert(fits_tree::<L>(Tree::Leaf(L::fresh(0, self.n_features as nat)), self.n_features as nat, 0));
        }
    }

    /// A copy with the same state.
    pub fn copy(&self) -> (r: Grower<L>)
        requires
            self.wf(),
        ensures
            r.wf(),
            r@ == self@,
    {
        Grower {
            delta: self.delta,
            min_samples: self.min_samples,
            tau: self.tau,
            root: self.root.copy(),
            n_seen: self.n_seen,
            updates: self.updates,
            n_features: self.n_features,
            initialized: self.initialized,
            last_split: self.last_split,
        }
    }

    /// Takes in the rows of a batch. The answer is the last split.
    pub fn absorb<F: Fn(Double) -> Double, G: Fn(Double) -> Double>(
        &mut self,
        x: &Matrix,
        y: &Vec<Double>,
        ln: &F,
        cdf: &G,
    ) -> (r: Option<SplitNote>)
        requires
            x.wf(),
            x.height() <= y@.len(),
            old(self).wf(),
            old(self).room(x.height()),
            grove_refusal(old(self)@, x@, Some(y@)) is None,
            is_function(*ln),
            is_function(*cdf),
        ensures
            final(self).wf(),
            final(self)@ == grove_after::<L>(old(self)@, x@, y@, curve(*ln), curve(*cdf)),
            r == grove_growth::<L>(old(self)@, x@, y@, curve(*ln), curve(*cdf)).note,
    {
        let ghost start = self@;
        if !self.initialized {
            self.n_features = x.ncols();
            self.root = Node::Leaf(L::sprout(0, x.ncols()));
            self.initialized = true;
            proof {
                L::lemma_fresh(0, x.width as nat, start.n_seen);
                assert(fits_tree::<L>(Tree::Leaf(L::fresh(0, x.width as nat)), x.width as nat, start.n_seen));
            }
        }
        let ghost ready = self@;
        assert(ready == rooted::<L>(start, x.width));
        let rule = SplitRule { delta: self.delta, min_samples: self.min_samples, tau: self.tau };
        let mut note: Option<SplitNote> = None;
        let mut i: usize = 0;
        while i < x.nrows()
            invariant
                i <= x.height(),
                x.wf(),
                x.height() <= y@.len(),
                self.root.sound(),
                is_function(*ln),
                is_function(*cdf),
                rule == start.rule,
                self.n_seen + x.height() + 18 <= u64::MAX,
                self.n_seen == start.n_seen,
                fits_tree::<L>(ready.root, x.width as nat, start.n_seen),
                self@ == (Grove { root: self.root.tree(), ..ready }),
                ({
                    let g = growth::<L>(ready.root, x@, y@, rule, curve(*ln), curve(*cdf), start.n_seen, i as nat);
                    &&& self.root.tree() == g.root
                    &&& note == g.note
                }),
            decreases x.height() - i,
        {
            proof {
                law_growth_keeps_fit::<L>(ready.root, x@, y@, rule, curve(*ln), curve(*cdf), start.n_seen, i as nat);
            }
            assert(x.rows[i as int]@.len() == x.width);
            let id: u64 = self.n_seen + 17 + i as u64;
            let split = self.root.update(&x.rows[i], y[i], rule, ln, cdf, id, Ghost((start.n_seen + i) as nat));
            if split.is_some() {
                note = split;
            }
            i = i + 1;
        }
        proof {
            law_growth_keeps_fit::<L>(ready.root, x@, y@, rule, curve(*ln), curve(*cdf), start.n_seen, x.height());
        }
        self.n_seen = self.n_seen + x.nrows() as u64;
        self.updates = self.updates + 1;
        if note.is_some() {
            self.last_split = note;
        }
        note
    }

    /// Whether a batch is turned away.
    fn refuses(&self, x: &Matrix, y: Option<&Vec<Double>>) -> (r: Option<IssueCode>)
        ensures
            r == grove_refusal(self@, x@, target(y)),
    {
        if y.is_none() {
            Some(IssueCode::MissingTarget)
        } else if !self.initialized && x.ncols() == 0 {
            Some(IssueCode::PartialFitBeforeInit)
        } else if self.initialized && self.n_features != x.ncols() {
            Some(IssueCode::FeatureSpaceChangedOnline)
        } else {
            None
        }
    }

    /// Takes in a batch, unless it has no target or its column count does not fit.
    /// `ln` is the natural logarithm and `cdf` the distribution function of the
    /// standard normal law.
    pub fn partial_fit<F: Fn(Double) -> Double, G: Fn(Double) -> Double>(
        &mut self,
        x: &Matrix,
        y: Option<&Vec<Double>>,
        ln: &F,
        cdf: &G,
    ) -> (r: Update)
        requires
            x.wf(),
            grove_refusal(old(self)@, x@, target(y)) is None ==> x.height() <= y->0@.len(),
            old(self).wf(),
            old(self).room(x.height()),
            is_function(*ln),
            is_function(*cdf),
        ensures
            final(self).wf(),
            grove_answers::<L>(old(self)@, final(self)@, x, target(y), curve(*ln), curve(*cdf), &r),
    {
        let n: usize = x.nrows();
        let refusal = self.refuses(x, y);
        let mut issues: Vec<Issue> = Vec::new();
        if let Some(code) = refusal {
            issues.push(issue(code));
            assert(issues@ =~= seq![issue(code)]);
            return rejection(self.updates, n, self.n_seen, issues);
        }
        inspect_online_xy(&mut issues, x, y);
        assert(issues@ =~= shape_issues(x, target(y)));
        let mut moved: Double = zero();
        if let Some(t) = y {
            let note = self.absorb(x, t, ln, cdf);
            if note.is_some() {
                moved = one();
            }
        }
        let warmup: bool = self.n_seen < self.min_samples as u64;
        raise(&mut issues, warmup, IssueCode::WarmupIncomplete);
        let quality = IncrementalQuality {
            effective_sample_size: Double::from_u64(self.n_seen),
            parameter_delta_norm: Some(moved),
            information_gain: Some(moved),
            still_identified: !warmup,
            warmup,
            ..IncrementalQuality::new(self.updates - 1, n, self.n_seen)
        };
        Update { quality, issues, screened: !warmup, idle: false, trailing: Vec::new() }
    }

    /// What the tree predicts for a row.
    pub fn predict_one(&self, row: &Vec<Double>) -> (r: Double)
        requires
            self.wf(),
        ensures
            r == L::answer(reached(self@.root, row@)),
    {
        self.root.predict_one(row)
    }

    /// What the tree predicts, or zeros before the first batch.
    pub fn predict(&self, x: &Matrix) -> (out: Qualified<Vec<Double>>)
        requires
            self.wf(),
        ensures
            if !self.initialized {
                &&& out.value@ == zero_seq(x.height())
                &&& out.report@ == seq![issue(IssueCode::PartialFitBeforeInit)]
            } else {
                &&& out.value@ == grove_predictions::<L>(self@, x@)
                &&& out.report@.len() == 0
            },
    {
        if !self.initialized {
            return unready(x.nrows());
        }
        let mut value: Vec<Double> = Vec::new();
        let mut i: usize = 0;
        while i < x.nrows()
            invariant
                i <= x.height(),
                self.wf(),
                value@ == grove_predictions::<L>(self@, x@).take(i as int),
            decreases x.height() - i,
        {
            value.push(self.root.predict_one(&x.rows[i]));
            i = i + 1;
            assert(value@ =~= grove_predictions::<L>(self@, x@).take(i as int));
        }
        assert(value@ =~= grove_predictions::<L>(self@, x@));
        Qualified { value, report: Vec::new() }
    }
}

} // verus!
