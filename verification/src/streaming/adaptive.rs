//! Trees that start over when their errors change, and a tree that splits early.

use crate::constants::{decimal_002, decimal_15};
use crate::data::{zero_seq, Batch, Matrix};
use crate::double::{zero, Double};
use crate::functions::{curve, is_function, Curve};
use crate::online::common::{inspect_online_xy, shape_issues, target};
use crate::quality::{advisory, given, issue, raise, IncrementalQuality, Issue, IssueCode, Qualified, Update};
use crate::streaming::columns::{plain_report, reports};
use crate::streaming::drift::{law_adwin_window, Adwin, AdwinState, DriftDecision};
use crate::streaming::forest::misses;
use crate::streaming::hoeffding::{
    blank_grove, default_rule, grove_after, grove_answers, grove_figures, grove_growth, grove_predictions,
    grove_refusal, reached, reset_grove, Grove, Grower, SplitRule, TreeLeaf,
};
use crate::streaming::rls::{repeat, repeated};
use crate::streaming::trees::{HoeffdingTree, HrLeaf, HtLeaf};
use vstd::prelude::*;

verus! {

/// A leaf whose predictions have an error.
pub trait Erring: TreeLeaf {
    /// The error of a prediction.
    spec fn error(guess: Double, y: Double) -> Double;

    /// The error of a prediction.
    fn measure(guess: Double, y: Double) -> (r: Double)
        ensures
            r == Self::error(guess, y),
    ;
}

impl Erring for HtLeaf {
    open spec fn error(guess: Double, y: Double) -> Double {
        misses(guess, y)
    }

    fn measure(guess: Double, y: Double) -> (r: Double) {
        misses(guess, y)
    }
}

impl Erring for HrLeaf {
    open spec fn error(guess: Double, y: Double) -> Double {
        guess.minus(y).abs()
    }

    fn measure(guess: Double, y: Double) -> (r: Double) {
        guess.minus(y).abs()
    }
}

/// A tree with a detector of change in its errors.
#[derive(Debug)]
pub struct Adaptive<L> {
    /// The tree.
    pub tree: Grower<L>,
    /// The detector.
    pub detector: Adwin,
    /// Rows taken in.
    pub n_seen: u64,
    /// Batches taken in.
    pub updates: u64,
    /// Times the tree started over.
    pub resets: u64,
}

/// Tree and detector in the middle of a batch.
pub struct Vigil<S> {
    /// The tree.
    pub tree: Grove<S>,
    /// The detector.
    pub watch: AdwinState,
    /// Times the tree started over in the batch.
    pub resets: nat,
}

/// Tree and detector after the first `k` rows were predicted: a change in the errors
/// empties both.
pub open spec fn kept_vigil<L: Erring>(tree: Grove<L::V>, watch: AdwinState, x: Batch, y: Seq<Double>, ln: Curve, k: nat) -> Vigil<L::V>
    decreases k,
{
    if k == 0 {
        Vigil { tree, watch, resets: 0 }
    } else {
        let b = kept_vigil::<L>(tree, watch, x, y, ln, (k - 1) as nat);
        let w = b.watch.watched(L::error(L::answer(reached(b.tree.root, x.rows[k - 1])), y[k - 1]), ln);
        if w.decision is Drift {
            Vigil {
                tree: reset_grove::<L>(b.tree),
                watch: AdwinState { window: Seq::empty(), ..w.state },
                resets: b.resets + 1,
            }
        } else {
            Vigil { watch: w.state, ..b }
        }
    }
}

/// At most one fresh start per row; the detector counts each as a cut and the tree
/// keeps its columns.
pub proof fn law_vigil_resets<L: Erring>(
    tree: Grove<L::V>,
    watch: AdwinState,
    x: Batch,
    y: Seq<Double>,
    ln: Curve,
    k: nat,
    rows: nat,
)
    requires
        watch.room(rows + k),
    ensures
        ({
            let v = kept_vigil::<L>(tree, watch, x, y, ln, k);
            &&& v.resets <= k
            &&& v.watch.cuts == watch.cuts + v.resets
            &&& v.watch.room(rows)
            &&& v.tree.n_features == tree.n_features
        }),
    decreases k,
{
    if k > 0 {
        law_vigil_resets::<L>(tree, watch, x, y, ln, (k - 1) as nat, rows + 1);
        let b = kept_vigil::<L>(tree, watch, x, y, ln, (k - 1) as nat);
        law_adwin_window(b.watch, L::error(L::answer(reached(b.tree.root, x.rows[k - 1])), y[k - 1]), ln);
    }
}

impl<L: Erring> Default for Adaptive<L> {
    fn default() -> (r: Adaptive<L>)
        ensures
            r.blank(),
    {
        Adaptive::new()
    }
}

impl<L: Erring> Adaptive<L> {
    /// The state before any row.
    pub open spec fn blank(&self) -> bool {
        &&& self.tree.wf()
        &&& self.tree@ == blank_grove::<L>(default_rule())
        &&& self.detector@ == AdwinState::blank(decimal_002())
        &&& self.n_seen == 0
        &&& self.updates == 0
        &&& self.resets == 0
    }

    /// A tree without rows.
    pub fn new() -> (r: Adaptive<L>)
        ensures
            r.blank(),
    {
        Adaptive { tree: Grower::new(), detector: Adwin::new(decimal_002()), n_seen: 0, updates: 0, resets: 0 }
    }

    /// Counters that leave room for a batch.
    pub open spec fn room(&self, rows: nat) -> bool {
        &&& self.tree.room(rows)
        &&& self.detector@.room(rows)
        &&& self.n_seen + rows <= u64::MAX
        &&& self.resets + rows <= u64::MAX
        &&& self.updates < u64::MAX
    }

    fn keep_vigil<F: Fn(Double) -> Double>(&mut self, x: &Matrix, y: &Vec<Double>, ln: &F) -> (resets: u64)
        requires
            x.wf(),
            x.height() <= y@.len(),
            old(self).tree.wf(),
            old(self).detector@.room(x.height()),
            is_function(*ln),
        ensures
            final(self).tree.wf(),
            final(self).n_seen == old(self).n_seen,
            final(self).updates == old(self).updates,
            final(self).resets == old(self).resets,
            ({
                let v = kept_vigil::<L>(old(self).tree@, old(self).detector@, x@, y@, curve(*ln), x.height());
                &&& final(self).tree@ == v.tree
                &&& final(self).detector@ == v.watch
                &&& resets == v.resets
                &&& v.resets <= x.height()
            }),
    {
        let ghost tree = self.tree@;
        let ghost watch = self.detector@;
        let mut resets: u64 = 0;
        let mut i: usize = 0;
        while i < x.nrows()
            invariant
                i <= x.height(),
                x.wf(),
                x.height() <= y@.len(),
                self.tree.wf(),
                watch.room(x.height()),
                is_function(*ln),
                tree == old(self).tree@,
                watch == old(self).detector@,
                self.n_seen == old(self).n_seen,
                self.updates == old(self).updates,
                self.resets == old(self).resets,
                resets <= i,
                ({
                    let v = kept_vigil::<L>(tree, watch, x@, y@, curve(*ln), i as nat);
                    &&& self.tree@ == v.tree
                    &&& self.detector@ == v.watch
                    &&& resets == v.resets
                }),
            decreases x.height() - i,
        {
            proof {
                law_vigil_resets::<L>(tree, watch, x@, y@, curve(*ln), i as nat, (x.height() - i) as nat);
            }
            assert(x@.rows[i as int] == x.rows@[i as int]@);
            let guess: Double = self.tree.predict_one(&x.rows[i]);
            let error: Double = L::measure(guess, y[i]);
            let d = self.detector.update(error, ln);
            if let DriftDecision::Drift { statistic } = d.value {
                self.tree.reset();
                self.detector.reset();
                resets = resets + 1;
            }
            i = i + 1;
        }
        resets
    }

    /// What a batch that fits does: the tree learns, then its errors are watched.
    pub open spec fn learns(&self, after: &Adaptive<L>, x: &Matrix, y: Seq<Double>, ln: Curve, cdf: Curve, r: &Update) -> bool {
        let grown = grove_after::<L>(self.tree@, x@, y, ln, cdf);
        let v = kept_vigil::<L>(grown, self.detector@, x@, y, ln, x.height());
        let base = grove_figures(
            grown,
            grove_growth::<L>(self.tree@, x@, y, ln, cdf).note is Some,
            x.height() as usize,
        );
        let fresh = Double::from_u64(v.resets as u64);
        &&& after.tree@ == v.tree
        &&& after.detector@ == v.watch
        &&& after.n_seen == self.n_seen + x.height()
        &&& after.updates == self.updates + 1
        &&& after.resets == self.resets + v.resets
        &&& reports(
            r,
            IncrementalQuality {
                effective_sample_size: Double::from_u64(after.n_seen),
                parameter_delta_norm: Some(fresh.plus(base.parameter_delta_norm->0)),
                information_gain: Some(fresh.plus(base.information_gain->0)),
                still_identified: after.n_seen >= 15,
                warmup: after.n_seen < 15,
                ..IncrementalQuality::new(self.updates, x.height() as usize, after.n_seen)
            },
            shape_issues(x, Some(y)) + repeated(v.resets, IssueCode::ConceptDriftDetected) + given(
                after.n_seen < 15,
                IssueCode::WarmupIncomplete,
            ),
            false,
        )
    }

    /// Takes in a batch. A batch that the tree turns away changes nothing and is
    /// answered by the tree. `ln` is the natural logarithm and `cdf` the distribution
    /// function of the standard normal law.
    pub fn partial_fit<F: Fn(Double) -> Double, G: Fn(Double) -> Double>(
        &mut self,
        x: &Matrix,
        y: Option<&Vec<Double>>,
        ln: &F,
        cdf: &G,
    ) -> (r: Update)
        requires
            x.wf(),
            grove_refusal(old(self).tree@, x@, target(y)) is None ==> x.height() <= y->0@.len(),
            old(self).tree.wf(),
            old(self).room(x.height()),
            is_function(*ln),
            is_function(*cdf),
        ensures
            final(self).tree.wf(),
            if grove_refusal(old(self).tree@, x@, target(y)) is Some {
                &&& grove_answers::<L>(
                    old(self).tree@,
                    final(self).tree@,
                    x,
                    target(y),
                    curve(*ln),
                    curve(*cdf),
                    &r,
                )
                &&& final(self).detector == old(self).detector
                &&& final(self).n_seen == old(self).n_seen
                &&& final(self).updates == old(self).updates
                &&& final(self).resets == old(self).resets
            } else {
                old(self).learns(final(self), x, y->0@, curve(*ln), curve(*cdf), &r)
            },
    {
        let n: usize = x.nrows();
        let refused: bool = y.is_none() || (!self.tree.initialized && x.ncols() == 0) || (self.tree.initialized
            && self.tree.n_features != x.ncols());
        assert(refused == (grove_refusal(self.tree@, x@, target(y)) is Some));
        let base: Update = self.tree.partial_fit(x, y, ln, cdf);
        if refused {
            return base;
        }
        let mut issues: Vec<Issue> = Vec::new();
        inspect_online_xy(&mut issues, x, y);
        assert(issues@ =~= shape_issues(x, target(y)));
        let mut resets: u64 = 0;
        if let Some(t) = y {
            resets = self.keep_vigil(x, t, ln);
        }
        self.n_seen = self.n_seen + n as u64;
        self.updates = self.updates + 1;
        self.resets = self.resets + resets;
        repeat(&mut issues, resets, IssueCode::ConceptDriftDetected);
        raise(&mut issues, self.n_seen < 15, IssueCode::WarmupIncomplete);
        let fresh: Double = Double::from_u64(resets);
        let moved: Double = match base.quality.parameter_delta_norm {
            Some(v) => v,
            None => zero(),
        };
        let gained: Double = match base.quality.information_gain {
            Some(v) => v,
            None => zero(),
        };
        let quality = IncrementalQuality {
            effective_sample_size: Double::from_u64(self.n_seen),
            parameter_delta_norm: Some(fresh.plus(moved)),
            information_gain: Some(fresh.plus(gained)),
            still_identified: self.n_seen >= 15,
            warmup: self.n_seen < 15,
            ..IncrementalQuality::new(self.updates - 1, n, self.n_seen)
        };
        plain_report(quality, issues)
    }

    /// What the tree predicts, or zeros before the first batch.
    pub fn predict(&self, x: &Matrix) -> (out: Qualified<Vec<Double>>)
        requires
            self.tree.wf(),
        ensures
            if !self.tree.initialized {
                &&& out.value@ == zero_seq(x.height())
                &&& out.report@ == seq![issue(IssueCode::PartialFitBeforeInit)]
            } else {
                &&& out.value@ == grove_predictions::<L>(self.tree@, x@)
                &&& out.report@.len() == 0
            },
    {
        self.tree.predict(x)
    }
}

/// Classification tree that starts over when its error rate changes.
pub type HoeffdingAdaptiveTree = Adaptive<HtLeaf>;

/// Regression tree that starts over when its absolute errors change.
pub type HoeffdingAdaptiveTreeRegressor = Adaptive<HrLeaf>;

/// Classification tree that considers splits early. Splits once taken stay.
#[derive(Debug)]
pub struct ExtremelyFastDecisionTree {
    /// The tree.
    pub tree: HoeffdingTree,
}

impl Default for ExtremelyFastDecisionTree {
    fn default() -> (r: ExtremelyFastDecisionTree)
        ensures
            r.blank(),
    {
        ExtremelyFastDecisionTree::new()
    }
}

impl ExtremelyFastDecisionTree {
    /// The state before any row.
    pub open spec fn blank(&self) -> bool {
        &&& self.tree.wf()
        &&& self.tree@ == blank_grove::<HtLeaf>(SplitRule { min_samples: 5, tau: decimal_15(), ..default_rule() })
    }

    /// A tree without rows.
    pub fn new() -> (r: ExtremelyFastDecisionTree)
        ensures
            r.blank(),
    {
        let mut tree: HoeffdingTree = HoeffdingTree::new();
        tree.min_samples = 5;
        tree.tau = decimal_15();
        ExtremelyFastDecisionTree { tree }
    }

    /// Takes in a batch. A batch that the tree turns away is answered by the tree;
    /// any other comes with the advice that old splits are not revised.
    pub fn partial_fit<F: Fn(Double) -> Double, G: Fn(Double) -> Double>(
        &mut self,
        x: &Matrix,
        y: Option<&Vec<Double>>,
        ln: &F,
        cdf: &G,
    ) -> (r: Update)
        requires
            x.wf(),
            grove_refusal(old(self).tree@, x@, target(y)) is None ==> x.height() <= y->0@.len(),
            old(self).tree.wf(),
            old(self).tree.room(x.height()),
            is_function(*ln),
            is_function(*cdf),
        ensures
            final(self).tree.wf(),
            if grove_refusal(old(self).tree@, x@, target(y)) is Some {
                grove_answers::<HtLeaf>(
                    old(self).tree@,
                    final(self).tree@,
                    x,
                    target(y),
                    curve(*ln),
                    curve(*cdf),
                    &r,
                )
            } else {
                &&& final(self).tree@ == grove_after::<HtLeaf>(old(self).tree@, x@, y->0@, curve(*ln), curve(*cdf))
                &&& reports(
                    &r,
                    grove_figures(
                        final(self).tree@,
                        grove_growth::<HtLeaf>(old(self).tree@, x@, y->0@, curve(*ln), curve(*cdf)).note is Some,
                        x.height() as usize,
                    ),
                    seq![advisory(IssueCode::JitterInjected)],
                    false,
                )
            },
    {
        let refused: bool = y.is_none() || (!self.tree.initialized && x.ncols() == 0) || (self.tree.initialized
            && self.tree.n_features != x.ncols());
        assert(refused == (grove_refusal(self.tree@, x@, target(y)) is Some));
        let base: Update = self.tree.partial_fit(x, y, ln, cdf);
        if refused {
            return base;
        }
        let mut issues: Vec<Issue> = Vec::new();
        issues.push(advisory(IssueCode::JitterInjected));
        assert(issues@ =~= seq![advisory(IssueCode::JitterInjected)]);
        plain_report(base.quality, issues)
    }

    /// What the tree predicts, or zeros before the first batch.
    pub fn predict(&self, x: &Matrix) -> (out: Qualified<Vec<Double>>)
        requires
            self.tree.wf(),
        ensures
            if !self.tree.initialized {
                &&& out.value@ == zero_seq(x.height())
                &&& out.report@ == seq![issue(IssueCode::PartialFitBeforeInit)]
            } else {
                &&& out.value@ == grove_predictions::<HtLeaf>(self.tree@, x@)
                &&& out.report@.len() == 0
            },
    {
        self.tree.predict(x)
    }
}

} // verus!
