//! Forest of stumps that split on the widest column.

use crate::constants::ten_to_minus_12;
use crate::data::{filled, zero_seq, Batch, Matrix};
use crate::double::{infinity, neg_infinity, one, zero, Double};
use crate::online::common::{inspect_online_xy, shape_issues, target};
use crate::quality::{issue, IncrementalQuality, Issue, IssueCode, Qualified, Update};
use crate::streaming::columns::{copy_columns, rejection, reports, screened_report};
use crate::streaming::committee::at_least_one_member;
use crate::streaming::linear::unready;
use crate::streaming::votes::{elect, elected, vote, voted};
use vstd::prelude::*;

verus! {

/// A stump: a leaf that splits once.
#[derive(Clone, Debug)]
pub struct AmfTree {
    /// Columns.
    pub p: usize,
    /// Rows.
    pub n: u64,
    /// Smallest value of each column.
    pub lo: Vec<Double>,
    /// Largest value of each column.
    pub hi: Vec<Double>,
    /// Column and threshold of the split.
    pub split: Option<(usize, Double)>,
    /// Votes before the split.
    pub leaf: Vec<(i64, Double)>,
    /// Votes up to the threshold.
    pub left: Vec<(i64, Double)>,
    /// Votes above it.
    pub right: Vec<(i64, Double)>,
}

/// The state of a stump.
pub struct AmfState {
    /// Columns.
    pub p: usize,
    /// Rows.
    pub n: nat,
    /// Smallest value of each column.
    pub lo: Seq<Double>,
    /// Largest value of each column.
    pub hi: Seq<Double>,
    /// Column and threshold of the split.
    pub split: Option<(usize, Double)>,
    /// Votes before the split.
    pub leaf: Seq<(i64, Double)>,
    /// Votes up to the threshold.
    pub left: Seq<(i64, Double)>,
    /// Votes above it.
    pub right: Seq<(i64, Double)>,
}

impl View for AmfTree {
    type V = AmfState;

    open spec fn view(&self) -> AmfState {
        AmfState {
            p: self.p,
            n: self.n as nat,
            lo: self.lo@,
            hi: self.hi@,
            split: self.split,
            leaf: self.leaf@,
            left: self.left@,
            right: self.right@,
        }
    }
}

/// The widest of the first `k` columns and its width; a width must be above zero to
/// count.
pub open spec fn widest(lo: Seq<Double>, hi: Seq<Double>, k: nat) -> (usize, Double)
    decreases k,
{
    if k == 0 {
        (0, zero())
    } else {
        let before = widest(lo, hi, (k - 1) as nat);
        let width = hi[k - 1].minus(lo[k - 1]);
        if width.gt(before.1) {
            ((k - 1) as usize, width)
        } else {
            before
        }
    }
}

/// Smaller bounds after a row.
pub open spec fn lowered(lo: Seq<Double>, row: Seq<Double>) -> Seq<Double> {
    Seq::new(
        lo.len(),
        |j: int|
            if row[j].lt(lo[j]) {
                row[j]
            } else {
                lo[j]
            },
    )
}

/// Larger bounds after a row.
pub open spec fn raised(hi: Seq<Double>, row: Seq<Double>) -> Seq<Double> {
    Seq::new(
        hi.len(),
        |j: int|
            if row[j].gt(hi[j]) {
                row[j]
            } else {
                hi[j]
            },
    )
}

/// The value that a split looks at; a column that the row lacks reads as zero.
pub open spec fn cell(row: Seq<Double>, j: usize) -> Double {
    if j < row.len() {
        row[j as int]
    } else {
        zero()
    }
}

/// The value that a split looks at; a column that the row lacks reads as zero.
pub fn cell_of(row: &Vec<Double>, j: usize) -> (r: Double)
    ensures
        r == cell(row@, j),
{
    if j < row.len() {
        row[j]
    } else {
        zero()
    }
}

impl AmfState {
    /// A stump without rows.
    pub open spec fn blank(p: usize) -> AmfState {
        AmfState {
            p,
            n: 0,
            lo: Seq::new(p as nat, |j: int| infinity()),
            hi: Seq::new(p as nat, |j: int| neg_infinity()),
            split: None,
            leaf: Seq::empty(),
            left: Seq::empty(),
            right: Seq::empty(),
        }
    }

    /// Bounds and count after a row.
    pub open spec fn stretched(self, row: Seq<Double>) -> AmfState {
        AmfState { n: self.n + 1, lo: lowered(self.lo, row), hi: raised(self.hi, row), ..self }
    }

    /// The widest column and its width.
    pub open spec fn broadest(self) -> (usize, Double) {
        widest(self.lo, self.hi, self.lo.len())
    }

    /// Whether the next row splits the stump: it has not split yet, the row is at
    /// least the second, and a column has some width.
    pub open spec fn splits_on(self, row: Seq<Double>) -> bool {
        let s = self.stretched(row);
        s.split is None && s.n >= 2 && s.broadest().1.gt(ten_to_minus_12())
    }

    /// The stump after one more row. `draw` places a threshold between the bounds of
    /// the widest column.
    pub open spec fn shown(self, row: Seq<Double>, label: i64, draw: Double) -> AmfState {
        let s = self.stretched(row);
        match s.split {
            Some((j, t)) => if cell(row, j).le(t) {
                AmfState { left: voted(s.left, label, one()), ..s }
            } else {
                AmfState { right: voted(s.right, label, one()), ..s }
            },
            None => {
                let leaf = voted(s.leaf, label, one());
                if self.splits_on(row) {
                    let (j, width) = s.broadest();
                    AmfState {
                        leaf,
                        split: Some((j, s.lo[j as int].plus(draw.times(width)))),
                        left: leaf,
                        right: Seq::empty(),
                        ..s
                    }
                } else {
                    AmfState { leaf, ..s }
                }
            },
        }
    }

    /// The label that the stump votes for.
    pub open spec fn ballot(self, row: Seq<Double>) -> Double {
        match self.split {
            Some((j, t)) => if cell(row, j).le(t) {
                elected(self.left)
            } else {
                elected(self.right)
            },
            None => elected(self.leaf),
        }
    }
}

proof fn lemma_widest(lo: Seq<Double>, hi: Seq<Double>, k: nat)
    requires
        k <= usize::MAX,
    ensures
        k > 0 ==> widest(lo, hi, k).0 < k,
        k == 0 ==> widest(lo, hi, k).0 == 0 && widest(lo, hi, k).1 == zero(),
    decreases k,
{
    if k > 0 {
        lemma_widest(lo, hi, (k - 1) as nat);
    }
}

impl AmfTree {
    /// Bounds for every column.
    pub open spec fn wf(&self) -> bool {
        &&& self.lo@.len() == self.p
        &&& self.hi@.len() == self.p
    }

    fn sprout(p: usize) -> (r: AmfTree)
        ensures
            r.wf(),
            r@ == AmfState::blank(p),
    {
        let r = AmfTree {
            p,
            n: 0,
            lo: filled(p, infinity()),
            hi: filled(p, neg_infinity()),
            split: None,
            leaf: Vec::new(),
            left: Vec::new(),
            right: Vec::new(),
        };
        assert(r.lo@ =~= AmfState::blank(p).lo);
        assert(r.hi@ =~= AmfState::blank(p).hi);
        assert(r.leaf@ =~= Seq::empty());
        assert(r.left@ =~= Seq::empty());
        assert(r.right@ =~= Seq::empty());
        r
    }

    fn stretch(&mut self, row: &Vec<Double>)
        requires
            old(self).wf(),
            old(self).n < u64::MAX,
            row@.len() == old(self).p,
        ensures
            final(self).wf(),
            final(self)@ == old(self)@.stretched(row@),
    {
        let ghost s = self@;
        let mut j: usize = 0;
        while j < self.p
            invariant
                j <= self.p,
                self.wf(),
                row@.len() == self.p,
                self@ == (AmfState { lo: self.lo@, hi: self.hi@, ..s }),
                forall|k: int| 0 <= k < j ==> #[trigger] self.lo@[k] == lowered(s.lo, row@)[k],
                forall|k: int| 0 <= k < j ==> #[trigger] self.hi@[k] == raised(s.hi, row@)[k],
                forall|k: int| j <= k < self.p ==> #[trigger] self.lo@[k] == s.lo[k],
                forall|k: int| j <= k < self.p ==> #[trigger] self.hi@[k] == s.hi[k],
                s.lo.len() == self.p,
                s.hi.len() == self.p,
                s.n < u64::MAX,
            decreases self.p - j,
        {
            let v: Double = row[j];
            assert(self.lo@[j as int] == s.lo[j as int]);
            assert(self.hi@[j as int] == s.hi[j as int]);
            if v.lt(self.lo[j]) {
                self.lo.set(j, v);
            }
            if v.gt(self.hi[j]) {
                self.hi.set(j, v);
            }
            j = j + 1;
        }
        self.n = self.n + 1;
        assert(self.lo@ =~= lowered(s.lo, row@));
        assert(self.hi@ =~= raised(s.hi, row@));
    }

    fn broadest(&self) -> (r: (usize, Double))
        requires
            self.wf(),
        ensures
            r == self@.broadest(),
            self.p > 0 ==> r.0 < self.p,
            self.p == 0 ==> r.1 == zero(),
    {
        let mut best: usize = 0;
        let mut top: Double = zero();
        let mut j: usize = 0;
        while j < self.p
            invariant
                j <= self.p,
                self.wf(),
                (best, top) == widest(self.lo@, self.hi@, j as nat),
            decreases self.p - j,
        {
            let width: Double = self.hi[j].minus(self.lo[j]);
            if width.gt(top) {
                top = width;
                best = j;
            }
            j = j + 1;
        }
        proof {
            lemma_widest(self.lo@, self.hi@, self.p as nat);
        }
        (best, top)
    }

    /// Whether the next row takes a draw.
    fn show(&mut self, row: &Vec<Double>, label: i64, draws: &Vec<Double>, used: usize) -> (split: bool)
        requires
            old(self).wf(),
            old(self).n < u64::MAX,
            row@.len() == old(self).p,
            old(self)@.splits_on(row@) ==> used < draws@.len(),
        ensures
            final(self).wf(),
            final(self)@ == old(self)@.shown(row@, label, draws@[used as int]),
            split == old(self)@.splits_on(row@),
    {
        let ghost start = self@;
        self.stretch(row);
        let ghost s = self@;
        match self.split {
            Some((j, t)) => {
                if cell_of(row, j).le(t) {
                    vote(&mut self.left, label, one());
                } else {
                    vote(&mut self.right, label, one());
                }
                false
            },
            None => {
                vote(&mut self.leaf, label, one());
                let (j, width) = self.broadest();
                assert((j, width) == s.broadest());
                if self.n >= 2 && width.gt(ten_to_minus_12()) {
                    assert(start.splits_on(row@));
                    proof {
                        if self.p == 0 {
                            lemma_zero_is_small();
                        }
                    }
                    self.split = Some((j, self.lo[j].plus(draws[used].times(width))));
                    self.left = copy_columns(&self.leaf);
                    self.right = Vec::new();
                    assert(self.right@ =~= Seq::empty());
                    true
                } else {
                    false
                }
            },
        }
    }

    fn ballot(&self, row: &Vec<Double>) -> (r: Double)
        ensures
            r == self@.ballot(row@),
    {
        match self.split {
            Some((j, t)) => if cell_of(row, j).le(t) {
                elect(&self.left)
            } else {
                elect(&self.right)
            },
            None => elect(&self.leaf),
        }
    }
}

proof fn lemma_zero_is_small()
    ensures
        !zero().gt(ten_to_minus_12()),
{
}

/// Stumps in the middle of a batch, with the draws used so far.
pub struct Stand {
    /// The stumps.
    pub trees: Seq<AmfState>,
    /// Draws used, one for each split.
    pub used: nat,
    /// Rows taken in.
    pub rows: nat,
}

impl Stand {
    /// After the first `t` stumps took in a row.
    pub open spec fn passed(self, row: Seq<Double>, label: i64, draws: Seq<Double>, t: nat) -> Stand
        decreases t,
    {
        if t == 0 {
            self
        } else {
            let b = self.passed(row, label, draws, (t - 1) as nat);
            let tree = b.trees[t - 1];
            Stand {
                trees: b.trees.update(t - 1, tree.shown(row, label, draws[b.used as int])),
                used: if tree.splits_on(row) {
                    b.used + 1
                } else {
                    b.used
                },
                ..b
            }
        }
    }

    /// After the first `k` rows; a row without a finite label is skipped.
    pub open spec fn after(self, x: Batch, y: Seq<Double>, draws: Seq<Double>, k: nat) -> Stand
        decreases k,
    {
        if k == 0 {
            self
        } else {
            let b = self.after(x, y, draws, (k - 1) as nat);
            if y[k - 1].is_finite() {
                let p = b.passed(x.rows[k - 1], y[k - 1].round_to_i64(), draws, b.trees.len());
                Stand { rows: p.rows + 1, ..p }
            } else {
                b
            }
        }
    }
}

/// Stumps among the first `k` that have not split.
pub open spec fn whole(trees: Seq<AmfState>, k: nat) -> nat
    decreases k,
{
    if k == 0 {
        0
    } else {
        whole(trees, (k - 1) as nat) + if trees[k - 1].split is None {
            1nat
        } else {
            0nat
        }
    }
}

proof fn lemma_whole_update(trees: Seq<AmfState>, t: int, s: AmfState, k: nat)
    requires
        0 <= t < trees.len(),
        k <= trees.len(),
    ensures
        whole(trees.update(t, s), k) == whole(trees, k) + (if t < k {
            (if s.split is None {
                1int
            } else {
                0int
            }) - (if trees[t].split is None {
                1int
            } else {
                0int
            })
        } else {
            0int
        }),
        whole(trees, k) <= k,
        0 <= t < k && trees[t].split is None ==> whole(trees, k) >= 1,
    decreases k,
{
    if k > 0 {
        lemma_whole_update(trees, t, s, (k - 1) as nat);
    }
}

/// Every stump has the bounds of `p` columns, and none counts more than `cap` rows.
pub open spec fn stand_wf(trees: Seq<AmfState>, p: usize, cap: nat) -> bool {
    forall|t: int|
        0 <= t < trees.len() ==> {
            &&& (#[trigger] trees[t]).p == p
            &&& trees[t].lo.len() == p
            &&& trees[t].hi.len() == p
            &&& trees[t].n <= cap
        }
}

/// A row splits a stump at most once: each split uses one draw and leaves one stump
/// fewer to split.
pub proof fn law_one_split_per_stump(s: Stand, row: Seq<Double>, label: i64, draws: Seq<Double>, t: nat, p: usize, cap: nat)
    requires
        t <= s.trees.len(),
        stand_wf(s.trees, p, cap),
    ensures
        ({
            let a = s.passed(row, label, draws, t);
            &&& a.trees.len() == s.trees.len()
            &&& a.rows == s.rows
            &&& a.used >= s.used
            &&& a.used + whole(a.trees, s.trees.len()) == s.used + whole(s.trees, s.trees.len())
            &&& stand_wf(a.trees, p, cap + 1)
            &&& forall|k: int| t <= k < s.trees.len() ==> #[trigger] a.trees[k] == s.trees[k]
        }),
    decreases t,
{
    if t > 0 {
        law_one_split_per_stump(s, row, label, draws, (t - 1) as nat, p, cap);
        let b = s.passed(row, label, draws, (t - 1) as nat);
        let tree = b.trees[t - 1];
        assert(tree == s.trees[t - 1]);
        let next = tree.shown(row, label, draws[b.used as int]);
        lemma_whole_update(b.trees, t - 1, next, s.trees.len());
    }
}

proof fn lemma_stand_after(s: Stand, x: Batch, y: Seq<Double>, draws: Seq<Double>, k: nat, p: usize, cap: nat)
    requires
        stand_wf(s.trees, p, cap),
    ensures
        ({
            let a = s.after(x, y, draws, k);
            &&& a.trees.len() == s.trees.len()
            &&& a.used + whole(a.trees, s.trees.len()) == s.used + whole(s.trees, s.trees.len())
            &&& stand_wf(a.trees, p, cap + k)
            &&& s.rows <= a.rows <= s.rows + k
        }),
    decreases k,
{
    if k > 0 {
        lemma_stand_after(s, x, y, draws, (k - 1) as nat, p, cap);
        let b = s.after(x, y, draws, (k - 1) as nat);
        let cap1: nat = (cap + (k - 1)) as nat;
        law_one_split_per_stump(b, x.rows[k - 1], y[k - 1].round_to_i64(), draws, b.trees.len(), p, cap1);
        assert(stand_wf(b.trees, p, cap + k));
    }
}

/// Forest of stumps, each of which splits its widest column at a random threshold
/// once it has seen two rows.
#[derive(Clone, Debug)]
pub struct AmfClassifier {
    /// Number of stumps.
    pub n_trees: usize,
    /// The stumps.
    pub trees: Vec<AmfTree>,
    /// Rows with a finite label.
    pub n_seen: u64,
    /// Batches taken in.
    pub updates: u64,
}

impl Default for AmfClassifier {
    fn default() -> (r: AmfClassifier)
        ensures
            r.blank(4),
    {
        AmfClassifier::new(4)
    }
}

impl AmfClassifier {
    /// The state before any row.
    pub open spec fn blank(&self, n_trees: usize) -> bool {
        &&& self.n_trees == n_trees
        &&& self.trees@.len() == 0
        &&& self.n_seen == 0
        &&& self.updates == 0
    }

    /// The stumps.
    pub open spec fn stumps(&self) -> Seq<AmfState> {
        Seq::new(self.trees@.len(), |t: int| self.trees@[t]@)
    }

    /// All stumps know the same columns and count no more rows than the forest.
    pub open spec fn wf(&self) -> bool {
        &&& forall|t: int|
            0 <= t < self.trees@.len() ==> (#[trigger] self.trees@[t]).wf() && self.trees@[t].p == self.trees@[0].p
        &&& forall|t: int| 0 <= t < self.trees@.len() ==> (#[trigger] self.trees@[t]).n <= self.n_seen
    }

    /// A forest of `n_trees` stumps.
    pub fn new(n_trees: usize) -> (r: AmfClassifier)
        ensures
            r.blank(at_least_one_member(n_trees)),
    {
        AmfClassifier {
            n_trees: if n_trees < 1 {
                1
            } else {
                n_trees
            },
            trees: Vec::new(),
            n_seen: 0,
            updates: 0,
        }
    }

    /// The stumps that a batch starts with.
    pub open spec fn start(&self, width: usize) -> Stand {
        Stand {
            trees: if self.trees@.len() == 0 {
                Seq::new(at_least_one_member(self.n_trees) as nat, |t: int| AmfState::blank(width))
            } else {
                self.stumps()
            },
            used: 0,
            rows: self.n_seen as nat,
        }
    }

    /// Rows that have a target.
    pub open spec fn paired(x: Batch, y: Seq<Double>) -> nat {
        if x.height() < y.len() {
            x.height()
        } else {
            y.len()
        }
    }

    /// The stumps that a batch ends with.
    pub open spec fn end(&self, x: Batch, y: Seq<Double>, draws: Seq<Double>) -> Stand {
        self.start(x.width).after(x, y, draws, AmfClassifier::paired(x, y))
    }

    /// Whether a batch has the wrong number of columns.
    pub open spec fn misfits(&self, x: Batch) -> bool {
        self.trees@.len() > 0 && self.trees@[0].p != x.width
    }

    /// What a batch does.
    pub open spec fn answers(&self, after: &AmfClassifier, x: &Matrix, y: Option<Seq<Double>>, draws: Seq<Double>, r: &Update) -> bool {
        let refused = IncrementalQuality::new(self.updates, x.height() as usize, self.n_seen);
        if y is None {
            &&& *after == *self
            &&& reports(r, refused, shape_issues(x, y).push(issue(IssueCode::MissingTarget)), false)
        } else if self.misfits(x@) {
            &&& *after == *self
            &&& reports(r, refused, shape_issues(x, y).push(issue(IssueCode::FeatureSpaceChangedOnline)), false)
        } else {
            let end = self.end(x@, y->0, draws);
            &&& after.n_trees == self.n_trees
            &&& after.stumps() == end.trees
            &&& after.n_seen == end.rows
            &&& after.updates == self.updates + 1
            &&& reports(
                r,
                IncrementalQuality {
                    effective_sample_size: Double::from_u64(after.n_seen),
                    parameter_delta_norm: Some(Double::from_u64(end.used as u64)),
                    information_gain: Some(Double::from_usize(x.height() as usize)),
                    still_identified: after.n_seen >= 2,
                    warmup: after.n_seen < 4,
                    ..IncrementalQuality::new(self.updates, x.height() as usize, after.n_seen)
                },
                shape_issues(x, y),
                true,
            )
        }
    }

    fn plant(&mut self, p: usize)
        requires
            old(self).trees@.len() == 0,
        ensures
            final(self).wf(),
            final(self).stumps() == old(self).start(p).trees,
            final(self).trees@.len() > 0,
            final(self).trees@[0].p == p,
            final(self).n_trees == old(self).n_trees,
            final(self).n_seen == old(self).n_seen,
            final(self).updates == old(self).updates,
    {
        let n: usize = if self.n_trees < 1 {
            1
        } else {
            self.n_trees
        };
        let mut trees: Vec<AmfTree> = Vec::new();
        let mut t: usize = 0;
        while t < n
            invariant
                t <= n,
                trees@.len() == t,
                forall|k: int|
                    0 <= k < t ==> (#[trigger] trees@[k]).wf() && trees@[k]@ == AmfState::blank(p) && trees@[k].p == p
                        && trees@[k].n == 0,
            decreases n - t,
        {
            let tree: AmfTree = AmfTree::sprout(p);
            assert(tree.p == tree@.p && tree.n == tree@.n);
            trees.push(tree);
            t = t + 1;
        }
        let ghost want = self.start(p).trees;
        self.trees = trees;
        assert(self.stumps() =~= want);
    }

    /// One row through all stumps.
    fn show(&mut self, row: &Vec<Double>, label: i64, draws: &Vec<Double>, used: usize) -> (r: usize)
        requires
            old(self).wf(),
            old(self).trees@.len() > 0,
            old(self).trees@[0].p == row@.len(),
            old(self).n_seen < u64::MAX,
            used + whole(old(self).stumps(), old(self).trees@.len()) <= draws@.len(),
        ensures
            final(self).wf(),
            final(self).n_trees == old(self).n_trees,
            final(self).updates == old(self).updates,
            final(self).trees@.len() == old(self).trees@.len(),
            final(self).trees@[0].p == old(self).trees@[0].p,
            ({
                let s = Stand { trees: old(self).stumps(), used: used as nat, rows: old(self).n_seen as nat };
                let a = s.passed(row@, label, draws@, s.trees.len());
                &&& final(self).stumps() == a.trees
                &&& r == a.used
                &&& final(self).n_seen == a.rows + 1
            }),
    {
        let ghost s = Stand { trees: self.stumps(), used: used as nat, rows: self.n_seen as nat };
        let n: usize = self.trees.len();
        let p: usize = row.len();
        let stock: usize = draws.len();
        let mut spent: usize = used;
        let mut t: usize = 0;
        while t < n
            invariant
                t <= n,
                stock == draws@.len(),
                n == self.trees@.len(),
                n == s.trees.len(),
                p == row@.len(),
                stand_wf(s.trees, p, self.n_seen as nat),
                self.n_seen < u64::MAX,
                self.n_seen == old(self).n_seen,
                self.n_trees == old(self).n_trees,
                self.updates == old(self).updates,
                forall|k: int| 0 <= k < n ==> (#[trigger] self.trees@[k]).wf() && self.trees@[k].p == p,
                self.stumps() == s.passed(row@, label, draws@, t as nat).trees,
                spent == s.passed(row@, label, draws@, t as nat).used,
                s.used + whole(s.trees, n as nat) <= draws@.len(),
            decreases n - t,
        {
            let ghost b = s.passed(row@, label, draws@, t as nat);
            proof {
                law_one_split_per_stump(s, row@, label, draws@, t as nat, p, self.n_seen as nat);
                lemma_whole_update(b.trees, t as int, b.trees[t as int], n as nat);
                assert(self.stumps()[t as int] == self.trees@[t as int]@);
                assert(b.trees[t as int] == s.trees[t as int]);
                assert(self.trees@[t as int].n <= self.n_seen);
            }
            let ghost before = self.stumps();
            let split: bool = self.trees[t].show(row, label, draws, spent);
            if split {
                spent = spent + 1;
            }
            assert(self.trees@[t as int].p == self.trees@[t as int]@.p);
            assert(self.stumps() =~= before.update(
                t as int,
                before[t as int].shown(row@, label, draws@[b.used as int]),
            ));
            t = t + 1;
        }
        proof {
            law_one_split_per_stump(s, row@, label, draws@, n as nat, p, self.n_seen as nat);
            assert forall|k: int| 0 <= k < n implies (#[trigger] self.trees@[k]).n <= self.n_seen + 1 by {
                assert(self.stumps()[k] == self.trees@[k]@);
            }
        }
        self.n_seen = self.n_seen + 1;
        spent
    }

    /// Takes in a batch, unless it has no target or its column count does not fit.
    /// `draws` holds a uniform draw for each stump that may still split; the splits
    /// use them in order.
    pub fn partial_fit(&mut self, x: &Matrix, y: Option<&Vec<Double>>, draws: &Vec<Double>) -> (r: Update)
        requires
            x.wf(),
            old(self).wf(),
            old(self).n_seen + x.height() <= u64::MAX,
            old(self).updates < u64::MAX,
            y is Some ==> old(self).start(x.width).trees.len() <= draws@.len() <= u64::MAX,
        ensures
            final(self).wf(),
            old(self).answers(final(self), x, target(y), draws@, &r),
    {
        let n: usize = x.nrows();
        let mut issues: Vec<Issue> = Vec::new();
        inspect_online_xy(&mut issues, x, y);
        assert(issues@ =~= shape_issues(x, target(y)));
        let t: &Vec<Double> = match y {
            None => {
                issues.push(issue(IssueCode::MissingTarget));
                return rejection(self.updates, n, self.n_seen, issues);
            },
            Some(t) => t,
        };
        if self.trees.len() == 0 {
            self.plant(x.ncols());
        } else if self.trees[0].p != x.ncols() {
            issues.push(issue(IssueCode::FeatureSpaceChangedOnline));
            return rejection(self.updates, n, self.n_seen, issues);
        }
        let ghost s = old(self).start(x.width);
        assert(self.stumps() == s.trees);
        proof {
            assert forall|k: int| 0 <= k < s.trees.len() implies {
                &&& (#[trigger] s.trees[k]).p == x.width
                &&& s.trees[k].lo.len() == x.width
                &&& s.trees[k].hi.len() == x.width
                &&& s.trees[k].n <= self.n_seen
            } by {
                assert(self.stumps()[k] == self.trees@[k]@);
                assert(self.trees@[k].wf());
            }
            assert(stand_wf(s.trees, x.width, s.rows));
            lemma_whole_update(s.trees, 0, s.trees[0], s.trees.len());
        }
        let pairs: usize = if n < t.len() {
            n
        } else {
            t.len()
        };
        let mut used: usize = 0;
        let mut i: usize = 0;
        while i < pairs
            invariant
                i <= pairs,
                pairs <= x.height(),
                pairs <= t@.len(),
                x.wf(),
                self.wf(),
                self.trees@.len() == s.trees.len(),
                s.trees.len() > 0,
                self.trees@[0].p == x.width,
                stand_wf(s.trees, x.width, s.rows),
                s.rows + x.height() <= u64::MAX,
                s.used == 0,
                whole(s.trees, s.trees.len()) <= s.trees.len(),
                s.trees.len() <= draws@.len(),
                self.n_trees == old(self).n_trees,
                self.updates == old(self).updates,
                self.stumps() == s.after(x@, t@, draws@, i as nat).trees,
                used == s.after(x@, t@, draws@, i as nat).used,
                self.n_seen == s.after(x@, t@, draws@, i as nat).rows,
            decreases pairs - i,
        {
            proof {
                lemma_stand_after(s, x@, t@, draws@, i as nat, x.width, s.rows);
            }
            assert(x@.rows[i as int] == x.rows@[i as int]@);
            assert(x.rows[i as int]@.len() == x.width);
            if t[i].is_finite() {
                used = self.show(&x.rows[i], t[i].round_to_i64(), draws, used);
            }
            i = i + 1;
        }
        proof {
            lemma_stand_after(s, x@, t@, draws@, pairs as nat, x.width, s.rows);
        }
        self.updates = self.updates + 1;
        let quality = IncrementalQuality {
            effective_sample_size: Double::from_u64(self.n_seen),
            parameter_delta_norm: Some(Double::from_u64(used as u64)),
            information_gain: Some(Double::from_usize(n)),
            still_identified: self.n_seen >= 2,
            warmup: self.n_seen < 4,
            ..IncrementalQuality::new(self.updates - 1, n, self.n_seen)
        };
        screened_report(quality, issues)
    }

    /// Votes of the first `k` stumps for a row.
    pub open spec fn votes(&self, row: Seq<Double>, k: nat) -> Seq<(i64, Double)>
        decreases k,
    {
        if k == 0 {
            Seq::empty()
        } else {
            voted(self.votes(row, (k - 1) as nat), self.stumps()[k - 1].ballot(row).round_to_i64(), one())
        }
    }

    /// The label with the most votes, row by row.
    pub open spec fn predictions(&self, x: Batch) -> Seq<Double> {
        Seq::new(x.height(), |i: int| elected(self.votes(x.rows[i], self.trees@.len())))
    }

    /// The label with the most votes, or zeros before the first batch.
    pub fn predict(&self, x: &Matrix) -> (out: Qualified<Vec<Double>>)
        ensures
            if self.trees@.len() == 0 {
                &&& out.value@ == zero_seq(x.height())
                &&& out.report@ == seq![issue(IssueCode::PartialFitBeforeInit)]
            } else {
                &&& out.value@ == self.predictions(x@)
                &&& out.report@.len() == 0
            },
    {
        if self.trees.len() == 0 {
            return unready(x.nrows());
        }
        let ghost want = self.predictions(x@);
        let mut value: Vec<Double> = Vec::new();
        let mut i: usize = 0;
        while i < x.nrows()
            invariant
                i <= x.height(),
                want == self.predictions(x@),
                value@ == want.take(i as int),
            decreases x.height() - i,
        {
            assert(x@.rows[i as int] == x.rows@[i as int]@);
            let mut votes: Vec<(i64, Double)> = Vec::new();
            assert(votes@ =~= Seq::empty());
            let mut k: usize = 0;
            while k < self.trees.len()
                invariant
                    k <= self.trees@.len(),
                    i < x.height(),
                    votes@ == self.votes(x.rows@[i as int]@, k as nat),
                decreases self.trees@.len() - k,
            {
                assert(self.stumps()[k as int] == self.trees@[k as int]@);
                let label: i64 = self.trees[k].ballot(&x.rows[i]).round_to_i64();
                vote(&mut votes, label, one());
                k = k + 1;
            }
            value.push(elect(&votes));
            i = i + 1;
            assert(value@ =~= want.take(i as int));
        }
        assert(value@ =~= want);
        Qualified { value, report: Vec::new() }
    }
}

} // verus!
