//! Forests whose members are replaced when their errors change.

use crate::constants::{decimal_002, decimal_632, half, tenth};
use crate::data::{difference, norm, norm_of, subtract, zero_seq, Batch, Matrix};
use crate::double::{one, zero, Double};
use crate::functions::{curve, is_function, Curve};
use crate::online::common::{inspect_online_xy, shape_issues, target};
use crate::quality::{given, issue, raise, IncrementalQuality, Issue, IssueCode, Qualified, Update};
use crate::streaming::columns::{plain_report, rejection, reports};
use crate::streaming::committee::{at_least_one_member, member_sum};
use crate::streaming::drift::{Adwin, AdwinState, DriftDecision};
use crate::streaming::hoeffding::{
    blank_grove, default_rule, grove_after, grove_growth, reached, reset_grove, rooted, Grove, SplitRule, TreeLeaf,
};
use crate::streaming::linear::{as01, unready};
use crate::streaming::rls::{repeat, repeated, LinearRegression, RlsState};
use crate::streaming::trees::{HoeffdingTree, HtLeaf, HtState};
use vstd::prelude::*;

verus! {

/// Whether a uniform draw keeps a row of a batch of `n` rows.
#[verifier::allow_in_spec]
pub fn keeps(draw: Double, n: usize) -> (r: bool)
    returns
        (draw.lt(decimal_632()) || n == 1),
{
    draw.lt(decimal_632()) || n == 1
}

/// The rows among the first `k` that the draws keep.
pub open spec fn picked(draws: Seq<Double>, n: usize, k: nat) -> Seq<int>
    decreases k,
{
    if k == 0 {
        Seq::empty()
    } else {
        let before = picked(draws, n, (k - 1) as nat);
        if keeps(draws[k - 1], n) {
            before.push(k - 1)
        } else {
            before
        }
    }
}

/// The rows that a member learns from: those that the draws keep, or the first row
/// if they keep none.
pub open spec fn chosen(draws: Seq<Double>, n: usize) -> Seq<int> {
    let p = picked(draws, n, n as nat);
    if p.len() == 0 {
        seq![0int]
    } else {
        p
    }
}

/// The batch made of the given rows.
pub open spec fn rows_at(x: Batch, at: Seq<int>) -> Batch {
    Batch { rows: Seq::new(at.len(), |k: int| x.rows[at[k]]), width: x.width }
}

/// The targets of the given rows.
pub open spec fn targets_at(y: Seq<Double>, at: Seq<int>) -> Seq<Double> {
    Seq::new(at.len(), |k: int| y[at[k]])
}

/// Every row that a member learns from is a row of the batch, and none comes twice.
pub proof fn law_bootstrap_rows(draws: Seq<Double>, n: usize, k: nat)
    ensures
        picked(draws, n, k).len() <= k,
        forall|a: int| 0 <= a < picked(draws, n, k).len() ==> 0 <= #[trigger] picked(draws, n, k)[a] < k,
        forall|a: int, b: int|
            0 <= a < b < picked(draws, n, k).len() ==> (#[trigger] picked(draws, n, k)[a]) < (#[trigger] picked(
                draws,
                n,
                k,
            )[b]),
    decreases k,
{
    if k > 0 {
        law_bootstrap_rows(draws, n, (k - 1) as nat);
    }
}

/// The rows and targets that the draws choose.
pub fn bootstrap(x: &Matrix, y: &Vec<Double>, draws: &Vec<Double>) -> (r: (Matrix, Vec<Double>))
    requires
        x.wf(),
        x.height() > 0,
        x.height() <= y@.len(),
        draws@.len() == x.height(),
    ensures
        r.0.wf(),
        r.0@ == rows_at(x@, chosen(draws@, x.height() as usize)),
        r.1@ == targets_at(y@, chosen(draws@, x.height() as usize)),
        0 < r.0.height() <= x.height(),
        r.0.height() == r.1@.len(),
{
    let n: usize = x.nrows();
    let mut rows: Vec<Vec<Double>> = Vec::new();
    let mut ys: Vec<Double> = Vec::new();
    let mut i: usize = 0;
    while i < n
        invariant
            i <= n,
            n == x.height(),
            x.wf(),
            n <= y@.len(),
            draws@.len() == n,
            rows@.len() == picked(draws@, n, i as nat).len(),
            ys@.len() == rows@.len(),
            rows@.len() <= i,
            forall|k: int| 0 <= k < rows@.len() ==> (#[trigger] rows@[k])@ == x@.rows[picked(draws@, n, i as nat)[k]],
            forall|k: int| 0 <= k < rows@.len() ==> (#[trigger] rows@[k])@.len() == x.width,
            forall|k: int| 0 <= k < ys@.len() ==> #[trigger] ys@[k] == y@[picked(draws@, n, i as nat)[k]],
        decreases n - i,
    {
        if keeps(draws[i], n) {
            let row = x.row(i);
            rows.push(row);
            ys.push(y[i]);
        }
        i = i + 1;
    }
    if rows.len() == 0 {
        let row = x.row(0);
        rows.push(row);
        ys.push(y[0]);
    }
    let m = Matrix { rows, width: x.ncols() };
    assert(m@.rows =~= rows_at(x@, chosen(draws@, n)).rows);
    assert(ys@ =~= targets_at(y@, chosen(draws@, n)));
    (m, ys)
}

/// A tree with the detector that watches its errors.
pub struct Plot {
    /// The tree.
    pub tree: Grove<HtState>,
    /// The detector.
    pub watch: AdwinState,
    /// Resets in the batch.
    pub resets: nat,
}

/// Whether a prediction misses a label, as zero or one.
#[verifier::allow_in_spec]
pub fn misses(guess: Double, y: Double) -> (r: Double)
    returns
        (if guess.minus(as01(y)).abs().gt(half()) {
            one()
        } else {
            zero()
        }),
{
    if guess.minus(as01(y)).abs().gt(half()) {
        one()
    } else {
        zero()
    }
}

/// Tree and detector after the first `k` rows were predicted: a change in the
/// errors resets the tree.
pub open spec fn monitored(tree: Grove<HtState>, watch: AdwinState, x: Batch, y: Seq<Double>, ln: Curve, k: nat) -> Plot
    decreases k,
{
    if k == 0 {
        Plot { tree, watch, resets: 0 }
    } else {
        let before = monitored(tree, watch, x, y, ln, (k - 1) as nat);
        let guess = HtLeaf::answer(reached(before.tree.root, x.rows[k - 1]));
        let w = before.watch.watched(misses(guess, y[k - 1]), ln);
        if w.decision is Drift {
            Plot { tree: reset_grove::<HtLeaf>(before.tree), watch: w.state, resets: before.resets + 1 }
        } else {
            Plot { watch: w.state, ..before }
        }
    }
}

/// Member of a forest after a batch.
pub open spec fn plot_after(
    tree: Grove<HtState>,
    watch: AdwinState,
    x: Batch,
    y: Seq<Double>,
    draws: Seq<Double>,
    ln: Curve,
    cdf: Curve,
) -> Plot {
    let at = chosen(draws, x.height() as usize);
    let grown = grove_after::<HtLeaf>(tree, rows_at(x, at), targets_at(y, at), ln, cdf);
    monitored(grown, watch, x, y, ln, x.height())
}

/// Whether the member split a leaf in the batch.
pub open spec fn plot_splits(tree: Grove<HtState>, x: Batch, y: Seq<Double>, draws: Seq<Double>, ln: Curve, cdf: Curve) -> bool {
    let at = chosen(draws, x.height() as usize);
    grove_growth::<HtLeaf>(tree, rows_at(x, at), targets_at(y, at), ln, cdf).note is Some
}

/// Trees on bootstrapped rows, each with a detector of change in its errors.
#[derive(Debug)]
pub struct AdaptiveRandomForest {
    /// Number of trees.
    pub n_estimators: usize,
    /// The trees.
    pub trees: Vec<HoeffdingTree>,
    /// One detector per tree.
    pub detectors: Vec<Adwin>,
    /// Rows taken in.
    pub n_seen: u64,
    /// Batches taken in.
    pub updates: u64,
    /// Whether the trees are planted.
    pub initialized: bool,
}

/// The state of a forest.
pub struct ForestState {
    /// Number of trees.
    pub n_estimators: usize,
    /// The trees.
    pub trees: Seq<Grove<HtState>>,
    /// The detectors.
    pub watches: Seq<AdwinState>,
    /// Rows taken in.
    pub n_seen: nat,
    /// Batches taken in.
    pub updates: nat,
    /// Whether the trees are planted.
    pub initialized: bool,
}

impl View for AdaptiveRandomForest {
    type V = ForestState;

    open spec fn view(&self) -> ForestState {
        ForestState {
            n_estimators: self.n_estimators,
            trees: Seq::new(self.trees@.len(), |k: int| self.trees@[k]@),
            watches: Seq::new(self.detectors@.len(), |k: int| self.detectors@[k]@),
            n_seen: self.n_seen as nat,
            updates: self.updates as nat,
            initialized: self.initialized,
        }
    }
}

impl ForestState {
    /// A forest without trees.
    pub open spec fn blank(n_estimators: usize) -> ForestState {
        ForestState {
            n_estimators,
            trees: Seq::empty(),
            watches: Seq::empty(),
            n_seen: 0,
            updates: 0,
            initialized: false,
        }
    }

    /// A new tree of a forest for `width` columns.
    pub open spec fn seedling(width: usize) -> Grove<HtState> {
        rooted::<HtLeaf>(blank_grove::<HtLeaf>(SplitRule { min_samples: 15, ..default_rule() }), width)
    }

    /// The forest with its trees planted.
    pub open spec fn planted(self, width: usize) -> ForestState {
        if self.initialized {
            self
        } else {
            ForestState {
                trees: Seq::new(self.n_estimators as nat, |k: int| ForestState::seedling(width)),
                watches: Seq::new(self.n_estimators as nat, |k: int| AdwinState::blank(decimal_002())),
                initialized: true,
                ..self
            }
        }
    }

    /// Member `k` after a batch. Row `k` of `draws` chooses its rows.
    pub open spec fn plot(self, k: int, x: Batch, y: Seq<Double>, draws: Batch, ln: Curve, cdf: Curve) -> Plot {
        plot_after(self.trees[k], self.watches[k], x, y, draws.rows[k], ln, cdf)
    }

    /// Resets in the first `k` members.
    pub open spec fn resets(self, x: Batch, y: Seq<Double>, draws: Batch, ln: Curve, cdf: Curve, k: nat) -> nat
        decreases k,
    {
        if k == 0 {
            0
        } else {
            self.resets(x, y, draws, ln, cdf, (k - 1) as nat) + self.plot(k - 1, x, y, draws, ln, cdf).resets
        }
    }

    /// Members among the first `k` that split a leaf.
    pub open spec fn splits(self, x: Batch, y: Seq<Double>, draws: Batch, ln: Curve, cdf: Curve, k: nat) -> nat
        decreases k,
    {
        if k == 0 {
            0
        } else {
            self.splits(x, y, draws, ln, cdf, (k - 1) as nat) + if plot_splits(
                self.trees[k - 1],
                x,
                y,
                draws.rows[k - 1],
                ln,
                cdf,
            ) {
                1nat
            } else {
                0nat
            }
        }
    }

    /// The forest after a batch.
    pub open spec fn taught(self, x: Batch, y: Seq<Double>, draws: Batch, ln: Curve, cdf: Curve) -> ForestState {
        let p = self.planted(x.width);
        ForestState {
            trees: Seq::new(p.trees.len(), |k: int| p.plot(k, x, y, draws, ln, cdf).tree),
            watches: Seq::new(p.trees.len(), |k: int| p.plot(k, x, y, draws, ln, cdf).watch),
            n_seen: p.n_seen + x.height(),
            updates: p.updates + 1,
            ..p
        }
    }

    /// Why a batch is turned away.
    pub open spec fn refusal(self, x: Batch, y: Option<Seq<Double>>) -> Option<IssueCode> {
        if y is None {
            Some(IssueCode::MissingTarget)
        } else if x.width == 0 {
            Some(IssueCode::PartialFitBeforeInit)
        } else if self.initialized && self.trees[0].n_features != x.width {
            Some(IssueCode::FeatureSpaceChangedOnline)
        } else {
            None
        }
    }

    /// Quality figures after a batch.
    pub open spec fn figures(self, resets: nat, splits: nat, batch: usize) -> IncrementalQuality {
        let r = Double::from_u64(resets as u64);
        let s = Double::from_u64(splits as u64);
        IncrementalQuality {
            effective_sample_size: Double::from_u64(self.n_seen as u64),
            parameter_delta_norm: Some(r.plus(tenth().times(s))),
            information_gain: Some(s.plus(r)),
            still_identified: self.n_seen >= 15,
            warmup: self.n_seen < 15,
            ..IncrementalQuality::new((self.updates - 1) as u64, batch, self.n_seen as u64)
        }
    }

    /// Majority vote of the trees, row by row.
    pub open spec fn votes(self, x: Batch, i: int, k: nat) -> Double
        decreases k,
    {
        if k == 0 {
            zero()
        } else {
            self.votes(x, i, (k - 1) as nat).plus(HtLeaf::answer(reached(self.trees[k - 1].root, x.rows[i])))
        }
    }

    /// Majority vote of the trees, row by row.
    pub open spec fn predictions(self, x: Batch) -> Seq<Double> {
        Seq::new(
            x.height(),
            |i: int|
                if self.votes(x, i, self.trees.len()).ge(
                    Double::from_usize(self.trees.len() as usize).times(half()),
                ) {
                    one()
                } else {
                    zero()
                },
        )
    }
}

proof fn lemma_monitored(tree: Grove<HtState>, watch: AdwinState, x: Batch, y: Seq<Double>, ln: Curve, k: nat, rows: nat)
    requires
        watch.room(rows + k),
        tree.n_features > 0,
        tree.initialized,
    ensures
        ({
            let p = monitored(tree, watch, x, y, ln, k);
            &&& p.watch.room(rows)
            &&& p.tree.n_features == tree.n_features
            &&& p.tree.initialized
            &&& p.tree.n_seen <= tree.n_seen
            &&& p.tree.updates == tree.updates
            &&& p.tree.rule == tree.rule
            &&& p.resets <= k
        }),
    decreases k,
{
    if k > 0 {
        lemma_monitored(tree, watch, x, y, ln, (k - 1) as nat, rows + 1);
        let before = monitored(tree, watch, x, y, ln, (k - 1) as nat);
        let guess = HtLeaf::answer(reached(before.tree.root, x.rows[k - 1]));
        crate::streaming::drift::law_adwin_window(before.watch, misses(guess, y[k - 1]), ln);
    }
}

/// A reset empties a tree but keeps its columns, its rule and its batch count, and
/// there is at most one per row.
pub proof fn law_monitor_keeps_columns(tree: Grove<HtState>, watch: AdwinState, x: Batch, y: Seq<Double>, ln: Curve, k: nat)
    requires
        watch.room(k),
        tree.initialized,
        tree.n_features > 0,
    ensures
        monitored(tree, watch, x, y, ln, k).tree.n_features == tree.n_features,
        monitored(tree, watch, x, y, ln, k).tree.rule == tree.rule,
        monitored(tree, watch, x, y, ln, k).resets <= k,
{
    lemma_monitored(tree, watch, x, y, ln, k, 0);
}

fn monitor<F: Fn(Double) -> Double>(tree: &mut HoeffdingTree, watch: &mut Adwin, x: &Matrix, y: &Vec<Double>, ln: &F) -> (resets:
    u64)
    requires
        x.wf(),
        x.height() <= y@.len(),
        old(tree).wf(),
        old(tree).initialized,
        old(tree).n_features > 0,
        old(watch)@.room(x.height()),
        is_function(*ln),
    ensures
        final(tree).wf(),
        ({
            let p = monitored(old(tree)@, old(watch)@, x@, y@, curve(*ln), x.height());
            &&& final(tree)@ == p.tree
            &&& final(watch)@ == p.watch
            &&& resets == p.resets
        }),
{
    let ghost tree0 = tree@;
    let ghost watch0 = watch@;
    let mut resets: u64 = 0;
    let mut i: usize = 0;
    while i < x.nrows()
        invariant
            i <= x.height(),
            x.wf(),
            x.height() <= y@.len(),
            tree.wf(),
            is_function(*ln),
            watch0.room(x.height()),
            tree0.initialized,
            tree0.n_features > 0,
            resets <= i,
            ({
                let p = monitored(tree0, watch0, x@, y@, curve(*ln), i as nat);
                &&& tree@ == p.tree
                &&& watch@ == p.watch
                &&& resets == p.resets
            }),
        decreases x.height() - i,
    {
        proof {
            lemma_monitored(tree0, watch0, x@, y@, curve(*ln), i as nat, (x.height() - i) as nat);
        }
        let guess: Double = tree.predict_one(&x.rows[i]);
        let error: Double = misses(guess, y[i]);
        let q = watch.update(error, ln);
        if let DriftDecision::Drift { statistic } = q.value {
            tree.reset();
            resets = resets + 1;
        }
        i = i + 1;
    }
    resets
}

/// Teaches one member. The answer counts its resets and says whether it split.
fn tend_one<F: Fn(Double) -> Double, G: Fn(Double) -> Double>(
    tree: &mut HoeffdingTree,
    watch: &mut Adwin,
    x: &Matrix,
    y: &Vec<Double>,
    draws: &Vec<Double>,
    ln: &F,
    cdf: &G,
) -> (r: (u64, bool))
    requires
        x.wf(),
        x.width > 0,
        0 < x.height() <= y@.len(),
        draws@.len() == x.height(),
        old(tree).wf(),
        old(tree).initialized,
        old(tree).n_features == x.width,
        old(tree).room(x.height()),
        old(watch)@.room(x.height()),
        is_function(*ln),
        is_function(*cdf),
    ensures
        final(tree).wf(),
        final(tree).initialized,
        final(tree).n_features == x.width,
        ({
            let p = plot_after(old(tree)@, old(watch)@, x@, y@, draws@, curve(*ln), curve(*cdf));
            &&& final(tree)@ == p.tree
            &&& final(watch)@ == p.watch
            &&& r.0 == p.resets
            &&& p.resets <= x.height()
        }),
        r.1 == plot_splits(old(tree)@, x@, y@, draws@, curve(*ln), curve(*cdf)),
{
    let ghost tree0 = tree@;
    let ghost watch0 = watch@;
    let (xs, ys) = bootstrap(x, y, draws);
    let note = tree.absorb(&xs, &ys, ln, cdf);
    let resets: u64 = monitor(tree, watch, x, y, ln);
    proof {
        let at = chosen(draws@, x.height() as usize);
        let grown = grove_after::<HtLeaf>(tree0, rows_at(x@, at), targets_at(y@, at), curve(*ln), curve(*cdf));
        lemma_monitored(grown, watch0, x@, y@, curve(*ln), x.height(), 0);
        assert(tree.n_features == tree@.n_features && tree.initialized == tree@.initialized);
    }
    (resets, note.is_some())
}

impl Default for AdaptiveRandomForest {
    fn default() -> (r: AdaptiveRandomForest)
        ensures
            r@ == ForestState::blank(3),
            r.wf(),
    {
        AdaptiveRandomForest::new(3)
    }
}

impl AdaptiveRandomForest {
    /// Every tree has a detector, and all trees know the same columns.
    pub open spec fn wf(&self) -> bool {
        &&& self.detectors@.len() == self.trees@.len()
        &&& forall|k: int|
            0 <= k < self.trees@.len() ==> {
                &&& (#[trigger] self.trees@[k]).wf()
                &&& self.trees@[k].initialized
                &&& self.trees@[k].n_features == self.trees@[0].n_features
            }
    }

    /// Counters that leave room for a batch.
    pub open spec fn room(&self, rows: nat) -> bool {
        &&& self.n_seen + rows <= u64::MAX
        &&& self.updates < u64::MAX
        &&& rows + 18 <= u64::MAX
        &&& rows <= usize::MAX
        &&& self.size() * rows <= u64::MAX
        &&& self.size() <= u64::MAX
        &&& forall|k: int| 0 <= k < self.trees@.len() ==> (#[trigger] self.trees@[k]).room(rows)
        &&& forall|k: int| 0 <= k < self.detectors@.len() ==> (#[trigger] self.detectors@[k])@.room(rows)
    }

    /// Trees that a batch meets.
    pub open spec fn size(&self) -> nat {
        if self.initialized {
            self.trees@.len()
        } else {
            self.n_estimators as nat
        }
    }

    /// A forest of `n_estimators` trees.
    pub fn new(n_estimators: usize) -> (r: AdaptiveRandomForest)
        ensures
            r@ == ForestState::blank(at_least_one_member(n_estimators)),
            r.wf(),
    {
        let r = AdaptiveRandomForest {
            n_estimators: if n_estimators < 1 {
                1
            } else {
                n_estimators
            },
            trees: Vec::new(),
            detectors: Vec::new(),
            n_seen: 0,
            updates: 0,
            initialized: false,
        };
        assert(r@.trees =~= Seq::empty());
        assert(r@.watches =~= Seq::empty());
        r
    }

    fn ensure(&mut self, p: usize)
        requires
            p > 0,
            old(self).wf(),
        ensures
            final(self).wf(),
            final(self)@ == old(self)@.planted(p),
            !old(self).initialized ==> forall|k: int|
                0 <= k < final(self).trees@.len() ==> (#[trigger] final(self).trees@[k]).n_features == p
                    && final(self).trees@[k].n_seen == 0 && final(self).trees@[k].updates == 0,
            !old(self).initialized ==> forall|k: int|
                0 <= k < final(self).detectors@.len() ==> (#[trigger] final(self).detectors@[k])@
                    == AdwinState::blank(decimal_002()),
            final(self).trees@.len() == old(self).size(),
            old(self).initialized ==> *final(self) == *old(self),
    {
        if self.initialized {
            return ;
        }
        let mut trees: Vec<HoeffdingTree> = Vec::new();
        let mut detectors: Vec<Adwin> = Vec::new();
        let mut k: usize = 0;
        while k < self.n_estimators
            invariant
                k <= self.n_estimators,
                p > 0,
                trees@.len() == k,
                detectors@.len() == k,
                forall|m: int|
                    0 <= m < k ==> (#[trigger] trees@[m]).wf() && trees@[m]@ == ForestState::seedling(p)
                        && trees@[m].n_features == p && trees@[m].initialized,
                forall|m: int| 0 <= m < k ==> (#[trigger] detectors@[m])@ == AdwinState::blank(decimal_002()),
            decreases self.n_estimators - k,
        {
            let tree: HoeffdingTree = HoeffdingTree::planted(p, 15);
            assert(tree.n_features == tree@.n_features && tree.initialized == tree@.initialized);
            trees.push(tree);
            detectors.push(Adwin::new(decimal_002()));
            k = k + 1;
        }
        self.trees = trees;
        self.detectors = detectors;
        self.initialized = true;
        assert forall|k: int| 0 <= k < self.trees@.len() implies (#[trigger] self.trees@[k]).n_seen == 0
            && self.trees@[k].updates == 0 by {
            assert(self.trees@[k]@ == ForestState::seedling(p));
            assert(self.trees@[k]@.n_seen == 0);
            assert(self.trees@[k]@.updates == 0);
        }
        assert(self@.trees =~= old(self)@.planted(p).trees);
        assert(self@.watches =~= old(self)@.planted(p).watches);
    }

    fn refuses(&self, x: &Matrix, y: Option<&Vec<Double>>) -> (r: Option<IssueCode>)
        requires
            self.initialized ==> self.trees@.len() > 0,
        ensures
            r == self@.refusal(x@, target(y)),
    {
        if y.is_none() {
            Some(IssueCode::MissingTarget)
        } else if x.ncols() == 0 {
            Some(IssueCode::PartialFitBeforeInit)
        } else if self.initialized && self.trees[0].n_features != x.ncols() {
            assert(self@.trees[0] == self.trees@[0]@);
            Some(IssueCode::FeatureSpaceChangedOnline)
        } else {
            proof {
                if self.initialized {
                    assert(self@.trees[0] == self.trees@[0]@);
                }
            }
            None
        }
    }

    /// Teaches every member. The answer counts resets and splits.
    fn tend<F: Fn(Double) -> Double, G: Fn(Double) -> Double>(
        &mut self,
        x: &Matrix,
        y: &Vec<Double>,
        draws: &Matrix,
        ln: &F,
        cdf: &G,
    ) -> (r: (u64, u64))
        requires
            x.wf(),
            x.width > 0,
            x.height() > 0,
            x.height() <= y@.len(),
            old(self).wf(),
            old(self).initialized,
            old(self).room(x.height()),
            forall|k: int| 0 <= k < old(self).trees@.len() ==> (#[trigger] old(self).trees@[k]).n_features == x.width,
            draws.wf(),
            draws.height() == old(self).trees@.len(),
            draws.width == x.height(),
            is_function(*ln),
            is_function(*cdf),
        ensures
            final(self).wf(),
            final(self)@.trees == old(self)@.taught(x@, y@, draws@, curve(*ln), curve(*cdf)).trees,
            final(self)@.watches == old(self)@.taught(x@, y@, draws@, curve(*ln), curve(*cdf)).watches,
            final(self).n_estimators == old(self).n_estimators,
            final(self).n_seen == old(self).n_seen,
            final(self).updates == old(self).updates,
            final(self).initialized,
            final(self).trees@.len() == old(self).trees@.len(),
            r.0 == old(self)@.resets(x@, y@, draws@, curve(*ln), curve(*cdf), old(self).trees@.len()),
            r.1 == old(self)@.splits(x@, y@, draws@, curve(*ln), curve(*cdf), old(self).trees@.len()),
    {
        let ghost start = self@;
        let ghost l = curve(*ln);
        let ghost c = curve(*cdf);
        let n: usize = self.trees.len();
        let mut resets: u64 = 0;
        let mut splits: u64 = 0;
        let mut k: usize = 0;
        while k < n
            invariant
                k <= n,
                n == self.trees@.len(),
                n == self.detectors@.len(),
                n == start.trees.len(),
                start == old(self)@,
                x.wf(),
                x.width > 0,
                0 < x.height() <= y@.len(),
                draws.wf(),
                draws.height() == n,
                draws.width == x.height(),
                is_function(*ln),
                is_function(*cdf),
                l == curve(*ln),
                c == curve(*cdf),
                n * x.height() <= u64::MAX,
                n <= u64::MAX,
                self.n_estimators == old(self).n_estimators,
                self.n_seen == old(self).n_seen,
                self.updates == old(self).updates,
                self.initialized,
                forall|m: int|
                    0 <= m < n ==> {
                        &&& (#[trigger] self.trees@[m]).wf()
                        &&& self.trees@[m].initialized
                        &&& self.trees@[m].n_features == x.width
                    },
                forall|m: int| k <= m < n ==> (#[trigger] self.trees@[m]).room(x.height()),
                forall|m: int| k <= m < n ==> (#[trigger] self.detectors@[m])@.room(x.height()),
                forall|m: int| k <= m < n ==> (#[trigger] self.trees@[m])@ == start.trees[m],
                forall|m: int| k <= m < n ==> (#[trigger] self.detectors@[m])@ == start.watches[m],
                forall|m: int| 0 <= m < k ==> (#[trigger] self.trees@[m])@ == start.plot(m, x@, y@, draws@, l, c).tree,
                forall|m: int|
                    0 <= m < k ==> (#[trigger] self.detectors@[m])@ == start.plot(m, x@, y@, draws@, l, c).watch,
                resets == start.resets(x@, y@, draws@, l, c, k as nat),
                splits == start.splits(x@, y@, draws@, l, c, k as nat),
                resets <= k * x.height(),
                splits <= k,
            decreases n - k,
        {
            assert(draws.rows[k as int]@.len() == x.height());
            assert(self.trees@[k as int]@ == start.trees[k as int]);
            assert(self.detectors@[k as int]@ == start.watches[k as int]);
            let (fresh, split) = tend_one(&mut self.trees[k], &mut self.detectors[k], x, y, &draws.rows[k], ln, cdf);
            proof {
                assert((k + 1) * x.height() <= n * x.height()) by (nonlinear_arith)
                    requires
                        k + 1 <= n,
                ;
                assert((k + 1) * x.height() == k * x.height() + x.height()) by (nonlinear_arith);
            }
            resets = resets + fresh;
            if split {
                splits = splits + 1;
            }
            k = k + 1;
        }
        assert(self@.trees =~= start.taught(x@, y@, draws@, l, c).trees);
        assert(self@.watches =~= start.taught(x@, y@, draws@, l, c).watches);
        (resets, splits)
    }

    /// What a batch does.
    pub open spec fn answers(
        &self,
        after: &AdaptiveRandomForest,
        x: &Matrix,
        y: Option<Seq<Double>>,
        draws: Batch,
        ln: Curve,
        cdf: Curve,
        r: &Update,
    ) -> bool {
        match self@.refusal(x@, y) {
            Some(code) => {
                &&& *after == *self
                &&& reports(
                    r,
                    IncrementalQuality::new(self.updates, x.height() as usize, self.n_seen),
                    seq![issue(code)],
                    false,
                )
            },
            None => {
                let p = self@.planted(x.width);
                let resets = p.resets(x@, y->0, draws, ln, cdf, p.trees.len());
                let splits = p.splits(x@, y->0, draws, ln, cdf, p.trees.len());
                &&& after@ == self@.taught(x@, y->0, draws, ln, cdf)
                &&& reports(
                    r,
                    after@.figures(resets, splits, x.height() as usize),
                    shape_issues(x, y) + repeated(resets, IssueCode::ConceptDriftDetected) + given(
                        after.n_seen < 15,
                        IssueCode::WarmupIncomplete,
                    ),
                    false,
                )
            },
        }
    }

    /// Takes in a batch, unless it has no target or its column count does not fit.
    /// Row `k` of `draws` holds the uniform draws that choose the rows for tree `k`.
    pub fn partial_fit<F: Fn(Double) -> Double, G: Fn(Double) -> Double>(
        &mut self,
        x: &Matrix,
        y: Option<&Vec<Double>>,
        draws: &Matrix,
        ln: &F,
        cdf: &G,
    ) -> (r: Update)
        requires
            x.wf(),
            old(self)@.refusal(x@, target(y)) is None ==> x.height() <= y->0@.len(),
            old(self).wf(),
            old(self).initialized ==> old(self).trees@.len() > 0,
            old(self).room(x.height()),
            old(self)@.refusal(x@, target(y)) is None ==> {
                &&& x.height() > 0
                &&& draws.wf()
                &&& draws.height() == old(self).size()
                &&& draws.width == x.height()
            },
            is_function(*ln),
            is_function(*cdf),
        ensures
            final(self).wf(),
            old(self).answers(final(self), x, target(y), draws@, curve(*ln), curve(*cdf), &r),
    {
        let n: usize = x.nrows();
        let mut issues: Vec<Issue> = Vec::new();
        let refusal = self.refuses(x, y);
        if let Some(code) = refusal {
            issues.push(issue(code));
            assert(issues@ =~= seq![issue(code)]);
            return rejection(self.updates, n, self.n_seen, issues);
        }
        let ghost before = self@;
        self.ensure(x.ncols());
        let ghost p = self@;
        assert forall|k: int| 0 <= k < self.trees@.len() implies (#[trigger] self.trees@[k]).n_features == x.width by {
            if old(self).initialized {
                assert(old(self)@.trees[0] == old(self).trees@[0]@);
            }
        }
        inspect_online_xy(&mut issues, x, y);
        assert(issues@ =~= shape_issues(x, target(y)));
        let mut resets: u64 = 0;
        let mut splits: u64 = 0;
        if let Some(t) = y {
            let counts = self.tend(x, t, draws, ln, cdf);
            resets = counts.0;
            splits = counts.1;
            assert(p.planted(x.width) == p);
        }
        self.n_seen = self.n_seen + n as u64;
        self.updates = self.updates + 1;
        assert(self@ == before.taught(x@, y->0@, draws@, curve(*ln), curve(*cdf)));
        repeat(&mut issues, resets, IssueCode::ConceptDriftDetected);
        raise(&mut issues, self.n_seen < 15, IssueCode::WarmupIncomplete);
        let moved: Double = Double::from_u64(resets);
        let cut: Double = Double::from_u64(splits);
        let quality = IncrementalQuality {
            effective_sample_size: Double::from_u64(self.n_seen),
            parameter_delta_norm: Some(moved.plus(tenth().times(cut))),
            information_gain: Some(cut.plus(moved)),
            still_identified: self.n_seen >= 15,
            warmup: self.n_seen < 15,
            ..IncrementalQuality::new(self.updates - 1, n, self.n_seen)
        };
        plain_report(quality, issues)
    }

    /// Majority vote of the trees, or zeros before the first batch.
    pub fn predict(&self, x: &Matrix) -> (out: Qualified<Vec<Double>>)
        requires
            self.wf(),
        ensures
            if !self.initialized {
                &&& out.value@ == zero_seq(x.height())
                &&& out.report@ == seq![issue(IssueCode::PartialFitBeforeInit)]
            } else {
                &&& out.value@ == self@.predictions(x@)
                &&& out.report@.len() == 0
            },
    {
        if !self.initialized {
            return unready(x.nrows());
        }
        let n: usize = self.trees.len();
        let ghost want = self@.predictions(x@);
        let mut value: Vec<Double> = Vec::new();
        let mut i: usize = 0;
        while i < x.nrows()
            invariant
                i <= x.height(),
                self.wf(),
                n == self.trees@.len(),
                want == self@.predictions(x@),
                value@ == want.take(i as int),
            decreases x.height() - i,
        {
            let mut votes: Double = zero();
            let mut k: usize = 0;
            while k < n
                invariant
                    k <= n,
                    i < x.height(),
                    self.wf(),
                    n == self.trees@.len(),
                    votes == self@.votes(x@, i as int, k as nat),
                decreases n - k,
            {
                assert(self@.trees[k as int] == self.trees@[k as int]@);
                assert(x@.rows[i as int] == x.rows@[i as int]@);
                votes = votes.plus(self.trees[k].predict_one(&x.rows[i]));
                k = k + 1;
            }
            value.push(
                if votes.ge(Double::from_usize(n).times(half())) {
                    one()
                } else {
                    zero()
                },
            );
            i = i + 1;
            assert(value@ =~= want.take(i as int));
        }
        assert(value@ =~= want);
        Qualified { value, report: Vec::new() }
    }
}

/// A regression with the detector that watches its errors.
pub struct Bed {
    /// The model.
    pub model: RlsState,
    /// The detector.
    pub watch: AdwinState,
    /// Resets in the batch.
    pub resets: nat,
}

/// Model and detector after the first `k` rows were predicted: a change in the
/// absolute errors replaces the model by a new one.
pub open spec fn supervised(model: RlsState, watch: AdwinState, x: Batch, y: Seq<Double>, ln: Curve, k: nat) -> Bed
    decreases k,
{
    if k == 0 {
        Bed { model, watch, resets: 0 }
    } else {
        let before = supervised(model, watch, x, y, ln, (k - 1) as nat);
        let w = before.watch.watched(before.model.foreseen(x)[k - 1].minus(y[k - 1]).abs(), ln);
        if w.decision is Drift {
            Bed { model: RlsState::blank(one()), watch: w.state, resets: before.resets + 1 }
        } else {
            Bed { watch: w.state, ..before }
        }
    }
}

/// The model after its share of the batch.
pub open spec fn bed_taught(model: RlsState, x: Batch, y: Seq<Double>, draws: Seq<Double>) -> RlsState {
    let at = chosen(draws, x.height() as usize);
    model.taught(rows_at(x, at), targets_at(y, at))
}

/// Member after a batch.
pub open spec fn bed_after(model: RlsState, watch: AdwinState, x: Batch, y: Seq<Double>, draws: Seq<Double>, ln: Curve) -> Bed {
    supervised(bed_taught(model, x, y, draws), watch, x, y, ln, x.height())
}

/// `start` plus what the coefficients of a member moved: all of them, and the
/// slopes once more if their number did not change.
pub open spec fn bed_moved(start: Double, model: RlsState, x: Batch, y: Seq<Double>, draws: Seq<Double>) -> Double {
    let after = bed_taught(model, x, y, draws);
    let all = start.plus(norm_of(difference(after.theta, model.trail(x.width).theta)));
    if model.slopes().len() == after.slopes().len() {
        all.plus(norm_of(difference(after.slopes(), model.slopes())))
    } else {
        all
    }
}

proof fn lemma_supervised(model: RlsState, watch: AdwinState, x: Batch, y: Seq<Double>, ln: Curve, k: nat, rows: nat)
    requires
        watch.room(rows + k),
        model.fits(x.width),
    ensures
        ({
            let p = supervised(model, watch, x, y, ln, k);
            &&& p.watch.room(rows)
            &&& p.model.fits(x.width)
            &&& p.resets <= k
        }),
    decreases k,
{
    if k > 0 {
        lemma_supervised(model, watch, x, y, ln, (k - 1) as nat, rows + 1);
        let before = supervised(model, watch, x, y, ln, (k - 1) as nat);
        crate::streaming::drift::law_adwin_window(
            before.watch,
            before.model.foreseen(x)[k - 1].minus(y[k - 1]).abs(),
            ln,
        );
    }
}

fn supervise<F: Fn(Double) -> Double>(
    model: &mut LinearRegression,
    watch: &mut Adwin,
    x: &Matrix,
    y: &Vec<Double>,
    ln: &F,
) -> (resets: u64)
    requires
        x.wf(),
        x.height() <= y@.len(),
        old(model).wf(),
        old(model)@.fits(x.width),
        old(watch)@.room(x.height()),
        is_function(*ln),
    ensures
        final(model).wf(),
        ({
            let p = supervised(old(model)@, old(watch)@, x@, y@, curve(*ln), x.height());
            &&& final(model)@ == p.model
            &&& final(watch)@ == p.watch
            &&& resets == p.resets
        }),
{
    let ghost model0 = model@;
    let ghost watch0 = watch@;
    let mut resets: u64 = 0;
    let mut i: usize = 0;
    while i < x.nrows()
        invariant
            i <= x.height(),
            x.wf(),
            x.height() <= y@.len(),
            model.wf(),
            is_function(*ln),
            watch0.room(x.height()),
            model0.fits(x.width),
            resets <= i,
            ({
                let p = supervised(model0, watch0, x@, y@, curve(*ln), i as nat);
                &&& model@ == p.model
                &&& watch@ == p.watch
                &&& resets == p.resets
            }),
        decreases x.height() - i,
    {
        proof {
            lemma_supervised(model0, watch0, x@, y@, curve(*ln), i as nat, (x.height() - i) as nat);
        }
        let error: Double = model.predict_row(x, i).minus(y[i]).abs();
        let q = watch.update(error, ln);
        if let DriftDecision::Drift { statistic } = q.value {
            *model = LinearRegression::new(one());
            resets = resets + 1;
        }
        i = i + 1;
    }
    resets
}

proof fn lemma_bed_fits(model: RlsState, x: Batch, y: Seq<Double>, draws: Seq<Double>)
    requires
        model.fits(x.width),
        x.width > 0,
    ensures
        bed_taught(model, x, y, draws).fits(x.width),
        bed_taught(model, x, y, draws).initialized,
        bed_taught(model, x, y, draws).theta.len() == model.trail(x.width).theta.len(),
{
    let at = chosen(draws, x.height() as usize);
    let xs = rows_at(x, at);
    crate::streaming::rls::law_rls_faults(
        model.trail(x.width),
        xs,
        targets_at(y, at),
        model.fit_intercept,
        model.lambda(),
        xs.height(),
    );
}

/// Teaches one member. The answer counts its resets and adds what it moved.
fn raise_one<F: Fn(Double) -> Double>(
    model: &mut LinearRegression,
    watch: &mut Adwin,
    x: &Matrix,
    y: &Vec<Double>,
    draws: &Vec<Double>,
    start: Double,
    ln: &F,
) -> (r: (u64, Double))
    requires
        x.wf(),
        0 < x.width < usize::MAX,
        0 < x.height() <= y@.len(),
        draws@.len() == x.height(),
        old(model).wf(),
        old(model)@.fits(x.width),
        old(model)@.room(x.height()),
        old(watch)@.room(x.height()),
        is_function(*ln),
    ensures
        final(model).wf(),
        final(model)@.fits(x.width),
        ({
            let p = bed_after(old(model)@, old(watch)@, x@, y@, draws@, curve(*ln));
            &&& final(model)@ == p.model
            &&& final(watch)@ == p.watch
            &&& r.0 == p.resets
            &&& p.resets <= x.height()
        }),
        r.1 == bed_moved(start, old(model)@, x@, y@, draws@),
{
    let ghost model0 = model@;
    let ghost watch0 = watch@;
    let slopes: Vec<Double> = model.coef();
    let (xs, ys) = bootstrap(x, y, draws);
    proof {
        lemma_bed_fits(model0, x@, y@, draws@);
    }
    let passage = model.absorb(&xs, &ys);
    assert(model@ == bed_taught(model0, x@, y@, draws@));
    let shift = subtract(&model.theta, &passage.first);
    let mut moved: Double = start.plus(norm(&shift));
    let after: Vec<Double> = model.coef();
    if slopes.len() == after.len() {
        let turn = subtract(&after, &slopes);
        moved = moved.plus(norm(&turn));
    }
    let resets: u64 = supervise(model, watch, x, y, ln);
    proof {
        lemma_supervised(bed_taught(model0, x@, y@, draws@), watch0, x@, y@, curve(*ln), x.height(), 0);
    }
    (resets, moved)
}

/// Recursive least squares models on bootstrapped rows, each with a detector of
/// change in its errors.
#[derive(Clone, Debug)]
pub struct AdaptiveRandomForestRegressor {
    /// Number of models.
    pub n_estimators: usize,
    /// The models.
    pub trees: Vec<LinearRegression>,
    /// One detector per model.
    pub detectors: Vec<Adwin>,
    /// Columns that the models know.
    pub n_features: usize,
    /// Rows taken in.
    pub n_seen: u64,
    /// Batches taken in.
    pub updates: u64,
    /// Whether the models are there.
    pub initialized: bool,
}

/// The state of a regression forest.
pub struct OrchardState {
    /// Number of models.
    pub n_estimators: usize,
    /// The models.
    pub models: Seq<RlsState>,
    /// The detectors.
    pub watches: Seq<AdwinState>,
    /// Columns that the models know.
    pub n_features: usize,
    /// Rows taken in.
    pub n_seen: nat,
    /// Batches taken in.
    pub updates: nat,
    /// Whether the models are there.
    pub initialized: bool,
}

impl View for AdaptiveRandomForestRegressor {
    type V = OrchardState;

    open spec fn view(&self) -> OrchardState {
        OrchardState {
            n_estimators: self.n_estimators,
            models: Seq::new(self.trees@.len(), |k: int| self.trees@[k]@),
            watches: Seq::new(self.detectors@.len(), |k: int| self.detectors@[k]@),
            n_features: self.n_features,
            n_seen: self.n_seen as nat,
            updates: self.updates as nat,
            initialized: self.initialized,
        }
    }
}

impl OrchardState {
    /// A forest without models.
    pub open spec fn blank(n_estimators: usize) -> OrchardState {
        OrchardState {
            n_estimators,
            models: Seq::empty(),
            watches: Seq::empty(),
            n_features: 0,
            n_seen: 0,
            updates: 0,
            initialized: false,
        }
    }

    /// The forest with its models in place.
    pub open spec fn planted(self, width: usize) -> OrchardState {
        if self.initialized {
            OrchardState { n_features: width, ..self }
        } else {
            OrchardState {
                models: Seq::new(self.n_estimators as nat, |k: int| RlsState::blank(one())),
                watches: Seq::new(self.n_estimators as nat, |k: int| AdwinState::blank(decimal_002())),
                initialized: true,
                n_features: width,
                ..self
            }
        }
    }

    /// Member `k` after a batch. Row `k` of `draws` chooses its rows.
    pub open spec fn bed(self, k: int, x: Batch, y: Seq<Double>, draws: Batch, ln: Curve) -> Bed {
        bed_after(self.models[k], self.watches[k], x, y, draws.rows[k], ln)
    }

    /// Resets in the first `k` members.
    pub open spec fn resets(self, x: Batch, y: Seq<Double>, draws: Batch, ln: Curve, k: nat) -> nat
        decreases k,
    {
        if k == 0 {
            0
        } else {
            self.resets(x, y, draws, ln, (k - 1) as nat) + self.bed(k - 1, x, y, draws, ln).resets
        }
    }

    /// What the first `k` members moved.
    pub open spec fn moved(self, x: Batch, y: Seq<Double>, draws: Batch, k: nat) -> Double
        decreases k,
    {
        if k == 0 {
            zero()
        } else {
            bed_moved(self.moved(x, y, draws, (k - 1) as nat), self.models[k - 1], x, y, draws.rows[k - 1])
        }
    }

    /// The forest after a batch.
    pub open spec fn taught(self, x: Batch, y: Seq<Double>, draws: Batch, ln: Curve) -> OrchardState {
        let p = self.planted(x.width);
        OrchardState {
            models: Seq::new(p.models.len(), |k: int| p.bed(k, x, y, draws, ln).model),
            watches: Seq::new(p.models.len(), |k: int| p.bed(k, x, y, draws, ln).watch),
            n_seen: p.n_seen + x.height(),
            updates: p.updates + 1,
            ..p
        }
    }

    /// Why a batch is turned away.
    pub open spec fn refusal(self, x: Batch, y: Option<Seq<Double>>) -> Option<IssueCode> {
        if y is None {
            Some(IssueCode::MissingTarget)
        } else if x.width == 0 {
            Some(IssueCode::PartialFitBeforeInit)
        } else if self.initialized && self.n_features != x.width {
            Some(IssueCode::FeatureSpaceChangedOnline)
        } else {
            None
        }
    }

    /// Quality figures after a batch.
    pub open spec fn figures(self, resets: nat, moved: Double, batch: usize) -> IncrementalQuality {
        let total = moved.plus(Double::from_u64(resets as u64));
        IncrementalQuality {
            effective_sample_size: Double::from_u64(self.n_seen as u64),
            parameter_delta_norm: Some(total),
            information_gain: Some(total),
            still_identified: self.n_seen >= 15,
            warmup: self.n_seen < 15,
            ..IncrementalQuality::new((self.updates - 1) as u64, batch, self.n_seen as u64)
        }
    }

    /// Mean of the models' predictions, row by row.
    pub open spec fn predictions(self, x: Batch) -> Seq<Double> {
        Seq::new(
            x.height(),
            |i: int|
                member_sum::<LinearRegression>(self.models, x, i, self.models.len()).over(
                    Double::from_usize(at_least_one_member(self.models.len() as usize)),
                ),
        )
    }
}

impl Default for AdaptiveRandomForestRegressor {
    fn default() -> (r: AdaptiveRandomForestRegressor)
        ensures
            r@ == OrchardState::blank(3),
            r.wf(),
    {
        AdaptiveRandomForestRegressor::new(3)
    }
}

impl AdaptiveRandomForestRegressor {
    /// Every model has a detector and fits the known columns.
    pub open spec fn wf(&self) -> bool {
        &&& self.detectors@.len() == self.trees@.len()
        &&& self.initialized ==> forall|k: int|
            0 <= k < self.trees@.len() ==> (#[trigger] self.trees@[k]).wf() && self.trees@[k]@.fits(self.n_features)
    }

    /// Models that a batch meets.
    pub open spec fn size(&self) -> nat {
        if self.initialized {
            self.trees@.len()
        } else {
            self.n_estimators as nat
        }
    }

    /// Counters that leave room for a batch.
    pub open spec fn room(&self, rows: nat) -> bool {
        &&& self.n_seen + rows <= u64::MAX
        &&& self.updates < u64::MAX
        &&& rows <= usize::MAX
        &&& self.size() * rows <= u64::MAX
        &&& self.initialized ==> forall|k: int| 0 <= k < self.trees@.len() ==> (#[trigger] self.trees@[k])@.room(rows)
        &&& self.initialized ==> forall|k: int|
            0 <= k < self.detectors@.len() ==> (#[trigger] self.detectors@[k])@.room(rows)
    }

    /// A forest of `n_estimators` models.
    pub fn new(n_estimators: usize) -> (r: AdaptiveRandomForestRegressor)
        ensures
            r@ == OrchardState::blank(at_least_one_member(n_estimators)),
            r.wf(),
    {
        let r = AdaptiveRandomForestRegressor {
            n_estimators: if n_estimators < 1 {
                1
            } else {
                n_estimators
            },
            trees: Vec::new(),
            detectors: Vec::new(),
            n_features: 0,
            n_seen: 0,
            updates: 0,
            initialized: false,
        };
        assert(r@.models =~= Seq::empty());
        assert(r@.watches =~= Seq::empty());
        r
    }

    fn ensure(&mut self, width: usize)
        requires
            old(self).wf(),
            old(self).initialized ==> old(self).n_features == width,
        ensures
            final(self).wf(),
            final(self)@ == old(self)@.planted(width),
            final(self).initialized,
            final(self).n_features == width,
            final(self).trees@.len() == old(self).size(),
            old(self).initialized ==> *final(self) == *old(self),
            !old(self).initialized ==> forall|k: int|
                0 <= k < final(self).trees@.len() ==> (#[trigger] final(self).trees@[k])@ == RlsState::blank(one()),
            !old(self).initialized ==> forall|k: int|
                0 <= k < final(self).detectors@.len() ==> (#[trigger] final(self).detectors@[k])@
                    == AdwinState::blank(decimal_002()),
    {
        if self.initialized {
            return ;
        }
        let mut trees: Vec<LinearRegression> = Vec::new();
        let mut detectors: Vec<Adwin> = Vec::new();
        let mut k: usize = 0;
        while k < self.n_estimators
            invariant
                k <= self.n_estimators,
                trees@.len() == k,
                detectors@.len() == k,
                forall|m: int| 0 <= m < k ==> (#[trigger] trees@[m]).wf() && trees@[m]@ == RlsState::blank(one()),
                forall|m: int| 0 <= m < k ==> (#[trigger] detectors@[m])@ == AdwinState::blank(decimal_002()),
            decreases self.n_estimators - k,
        {
            trees.push(LinearRegression::new(one()));
            detectors.push(Adwin::new(decimal_002()));
            k = k + 1;
        }
        self.trees = trees;
        self.detectors = detectors;
        self.initialized = true;
        self.n_features = width;
        assert(self@.models =~= old(self)@.planted(width).models);
        assert(self@.watches =~= old(self)@.planted(width).watches);
    }

    /// Teaches every member. The answer counts resets and says what moved.
    fn tend<F: Fn(Double) -> Double>(&mut self, x: &Matrix, y: &Vec<Double>, draws: &Matrix, ln: &F) -> (r: (u64, Double))
        requires
            x.wf(),
            0 < x.width < usize::MAX,
            0 < x.height() <= y@.len(),
            old(self).wf(),
            old(self).initialized,
            old(self).room(x.height()),
            old(self).n_features == x.width,
            draws.wf(),
            draws.height() == old(self).trees@.len(),
            draws.width == x.height(),
            is_function(*ln),
        ensures
            final(self).wf(),
            final(self)@.models == old(self)@.taught(x@, y@, draws@, curve(*ln)).models,
            final(self)@.watches == old(self)@.taught(x@, y@, draws@, curve(*ln)).watches,
            final(self).n_estimators == old(self).n_estimators,
            final(self).n_features == old(self).n_features,
            final(self).n_seen == old(self).n_seen,
            final(self).updates == old(self).updates,
            final(self).initialized,
            r.0 == old(self)@.resets(x@, y@, draws@, curve(*ln), old(self).trees@.len()),
            r.1 == old(self)@.moved(x@, y@, draws@, old(self).trees@.len()),
    {
        let ghost start = self@;
        let ghost l = curve(*ln);
        let n: usize = self.trees.len();
        let mut resets: u64 = 0;
        let mut moved: Double = zero();
        let mut k: usize = 0;
        while k < n
            invariant
                k <= n,
                n == self.trees@.len(),
                n == self.detectors@.len(),
                n == start.models.len(),
                start == old(self)@,
                x.wf(),
                0 < x.width < usize::MAX,
                0 < x.height() <= y@.len(),
                draws.wf(),
                draws.height() == n,
                draws.width == x.height(),
                is_function(*ln),
                l == curve(*ln),
                n * x.height() <= u64::MAX,
                self.n_estimators == old(self).n_estimators,
                self.n_features == old(self).n_features,
                self.n_seen == old(self).n_seen,
                self.updates == old(self).updates,
                self.initialized,
                forall|m: int| 0 <= m < n ==> (#[trigger] self.trees@[m]).wf() && self.trees@[m]@.fits(x.width),
                forall|m: int| k <= m < n ==> (#[trigger] self.trees@[m])@.room(x.height()),
                forall|m: int| k <= m < n ==> (#[trigger] self.detectors@[m])@.room(x.height()),
                forall|m: int| k <= m < n ==> (#[trigger] self.trees@[m])@ == start.models[m],
                forall|m: int| k <= m < n ==> (#[trigger] self.detectors@[m])@ == start.watches[m],
                forall|m: int| 0 <= m < k ==> (#[trigger] self.trees@[m])@ == start.bed(m, x@, y@, draws@, l).model,
                forall|m: int| 0 <= m < k ==> (#[trigger] self.detectors@[m])@ == start.bed(m, x@, y@, draws@, l).watch,
                resets == start.resets(x@, y@, draws@, l, k as nat),
                moved == start.moved(x@, y@, draws@, k as nat),
                resets <= k * x.height(),
            decreases n - k,
        {
            assert(draws.rows[k as int]@.len() == x.height());
            assert(self.trees@[k as int]@ == start.models[k as int]);
            assert(self.detectors@[k as int]@ == start.watches[k as int]);
            let (fresh, total) = raise_one(
                &mut self.trees[k],
                &mut self.detectors[k],
                x,
                y,
                &draws.rows[k],
                moved,
                ln,
            );
            proof {
                assert((k + 1) * x.height() <= n * x.height()) by (nonlinear_arith)
                    requires
                        k + 1 <= n,
                ;
                assert((k + 1) * x.height() == k * x.height() + x.height()) by (nonlinear_arith);
            }
            resets = resets + fresh;
            moved = total;
            k = k + 1;
        }
        assert(self@.models =~= start.taught(x@, y@, draws@, l).models);
        assert(self@.watches =~= start.taught(x@, y@, draws@, l).watches);
        (resets, moved)
    }

    fn refuses(&self, x: &Matrix, y: Option<&Vec<Double>>) -> (r: Option<IssueCode>)
        ensures
            r == self@.refusal(x@, target(y)),
    {
        if y.is_none() {
            Some(IssueCode::MissingTarget)
        } else if x.ncols() == 0 {
            Some(IssueCode::PartialFitBeforeInit)
        } else if self.initialized && self.n_features != x.ncols() {
            Some(IssueCode::FeatureSpaceChangedOnline)
        } else {
            None
        }
    }

    /// What a batch does.
    pub open spec fn answers(
        &self,
        after: &AdaptiveRandomForestRegressor,
        x: &Matrix,
        y: Option<Seq<Double>>,
        draws: Batch,
        ln: Curve,
        r: &Update,
    ) -> bool {
        match self@.refusal(x@, y) {
            Some(code) => {
                &&& *after == *self
                &&& reports(
                    r,
                    IncrementalQuality::new(self.updates, x.height() as usize, self.n_seen),
                    seq![issue(code)],
                    false,
                )
            },
            None => {
                let p = self@.planted(x.width);
                let resets = p.resets(x@, y->0, draws, ln, p.models.len());
                &&& after@ == self@.taught(x@, y->0, draws, ln)
                &&& reports(
                    r,
                    after@.figures(resets, p.moved(x@, y->0, draws, p.models.len()), x.height() as usize),
                    shape_issues(x, y) + repeated(resets, IssueCode::ConceptDriftDetected) + given(
                        after.n_seen < 15,
                        IssueCode::WarmupIncomplete,
                    ),
                    false,
                )
            },
        }
    }

    /// Takes in a batch, unless it has no target or its column count does not fit.
    /// Row `k` of `draws` holds the uniform draws that choose the rows for model `k`.
    pub fn partial_fit<F: Fn(Double) -> Double>(
        &mut self,
        x: &Matrix,
        y: Option<&Vec<Double>>,
        draws: &Matrix,
        ln: &F,
    ) -> (r: Update)
        requires
            x.wf(),
            x.width < usize::MAX,
            old(self)@.refusal(x@, target(y)) is None ==> x.height() <= y->0@.len(),
            old(self).wf(),
            old(self).room(x.height()),
            old(self)@.refusal(x@, target(y)) is None ==> {
                &&& x.height() > 0
                &&& draws.wf()
                &&& draws.height() == old(self).size()
                &&& draws.width == x.height()
            },
            is_function(*ln),
        ensures
            final(self).wf(),
            old(self).answers(final(self), x, target(y), draws@, curve(*ln), &r),
    {
        let n: usize = x.nrows();
        let mut issues: Vec<Issue> = Vec::new();
        let refusal = self.refuses(x, y);
        if let Some(code) = refusal {
            issues.push(issue(code));
            assert(issues@ =~= seq![issue(code)]);
            return rejection(self.updates, n, self.n_seen, issues);
        }
        let ghost before = self@;
        self.ensure(x.ncols());
        let ghost p = self@;
        inspect_online_xy(&mut issues, x, y);
        assert(issues@ =~= shape_issues(x, target(y)));
        let mut resets: u64 = 0;
        let mut moved: Double = zero();
        if let Some(t) = y {
            let counts = self.tend(x, t, draws, ln);
            resets = counts.0;
            moved = counts.1;
            assert(p.planted(x.width) == p);
        }
        self.n_seen = self.n_seen + n as u64;
        self.updates = self.updates + 1;
        assert(self@ == before.taught(x@, y->0@, draws@, curve(*ln)));
        repeat(&mut issues, resets, IssueCode::ConceptDriftDetected);
        raise(&mut issues, self.n_seen < 15, IssueCode::WarmupIncomplete);
        let total: Double = moved.plus(Double::from_u64(resets));
        let quality = IncrementalQuality {
            effective_sample_size: Double::from_u64(self.n_seen),
            parameter_delta_norm: Some(total),
            information_gain: Some(total),
            still_identified: self.n_seen >= 15,
            warmup: self.n_seen < 15,
            ..IncrementalQuality::new(self.updates - 1, n, self.n_seen)
        };
        plain_report(quality, issues)
    }

    /// Mean of the models' predictions, or zeros before the first batch.
    pub fn predict(&self, x: &Matrix) -> (out: Qualified<Vec<Double>>)
        requires
            x.wf(),
            self.wf(),
            self.initialized ==> forall|k: int| 0 <= k < self.trees@.len() ==> (#[trigger] self.trees@[k])@.fits(x.width),
        ensures
            if !self.initialized {
                &&& out.value@ == zero_seq(x.height())
                &&& out.report@ == seq![issue(IssueCode::PartialFitBeforeInit)]
            } else {
                &&& out.value@ == self@.predictions(x@)
                &&& out.report@.len() == 0
            },
    {
        if !self.initialized {
            return unready(x.nrows());
        }
        let n: usize = self.trees.len();
        let divisor: Double = Double::from_usize(
            if n < 1 {
                1
            } else {
                n
            },
        );
        let ghost want = self@.predictions(x@);
        let mut value: Vec<Double> = Vec::new();
        let mut i: usize = 0;
        while i < x.nrows()
            invariant
                i <= x.height(),
                x.wf(),
                self.wf(),
                self.initialized,
                n == self.trees@.len(),
                divisor == Double::from_usize(at_least_one_member(n)),
                forall|k: int| 0 <= k < self.trees@.len() ==> (#[trigger] self.trees@[k])@.fits(x.width),
                want == self@.predictions(x@),
                value@ == want.take(i as int),
            decreases x.height() - i,
        {
            let mut sum: Double = zero();
            let mut k: usize = 0;
            while k < n
                invariant
                    k <= n,
                    i < x.height(),
                    x.wf(),
                    self.wf(),
                    self.initialized,
                    n == self.trees@.len(),
                    forall|k: int| 0 <= k < self.trees@.len() ==> (#[trigger] self.trees@[k])@.fits(x.width),
                    sum == member_sum::<LinearRegression>(self@.models, x@, i as int, k as nat),
                decreases n - k,
            {
                assert(self@.models[k as int] == self.trees@[k as int]@);
                sum = sum.plus(self.trees[k].predict_row(x, i));
                k = k + 1;
            }
            value.push(sum.over(divisor));
            i = i + 1;
            assert(value@ =~= want.take(i as int));
        }
        assert(value@ =~= want);
        Qualified { value, report: Vec::new() }
    }
}

} // verus!
