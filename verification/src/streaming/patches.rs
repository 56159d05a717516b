//! Forests that replay rows or look at random columns.

use crate::constants::{half, six};
use crate::data::{zero_seq, Batch, Matrix};
use crate::double::{one, zero, Double};
use crate::functions::{curve, is_function, Curve};
use crate::online::common::{inspect_online_xy, shape_issues, target};
use crate::quality::{given, issue, raise, IncrementalQuality, Issue, IssueCode, Qualified, Update};
use crate::streaming::bagging::count_grid;
use crate::streaming::columns::{plain_report, rejection, reports};
use crate::streaming::committee::at_least_one_member;
use crate::streaming::forest::ForestState;
use crate::streaming::hoeffding::{grove_after, grove_refusal, reached, Grove, TreeLeaf};
use crate::streaming::linear::unready;
use crate::streaming::trees::{HoeffdingTree, HtLeaf, HtState};
use vstd::prelude::*;

verus! {

/// The states of a list of trees.
pub open spec fn groves(trees: Seq<HoeffdingTree>) -> Seq<Grove<HtState>> {
    Seq::new(trees.len(), |t: int| trees[t]@)
}

/// `n` new trees for `p` columns.
pub fn plant(n: usize, p: usize) -> (trees: Vec<HoeffdingTree>)
    ensures
        trees@.len() == n,
        forall|t: int|
            0 <= t < n ==> (#[trigger] trees@[t]).wf() && trees@[t]@ == ForestState::seedling(p) && trees@[t].n_seen == 0
                && trees@[t].updates == 0,
{
    let mut trees: Vec<HoeffdingTree> = Vec::new();
    let mut t: usize = 0;
    while t < n
        invariant
            t <= n,
            trees@.len() == t,
            forall|k: int|
                0 <= k < t ==> (#[trigger] trees@[k]).wf() && trees@[k]@ == ForestState::seedling(p)
                    && trees@[k].n_seen == 0 && trees@[k].updates == 0,
        decreases n - t,
    {
        let tree: HoeffdingTree = HoeffdingTree::planted(p, 15);
        assert(tree.n_seen == tree@.n_seen && tree.updates == tree@.updates);
        trees.push(tree);
        t = t + 1;
    }
    trees
}

/// Trees among the first `k` that vote for one.
pub open spec fn ayes(trees: Seq<Grove<HtState>>, rows: Seq<Seq<Double>>, k: nat) -> nat
    decreases k,
{
    if k == 0 {
        0
    } else {
        ayes(trees, rows, (k - 1) as nat) + if HtLeaf::answer(reached(trees[k - 1].root, rows[k - 1])).ge(half()) {
            1nat
        } else {
            0nat
        }
    }
}

/// One if the trees that vote for it are not outnumbered.
pub open spec fn carried(trees: Seq<Grove<HtState>>, rows: Seq<Seq<Double>>) -> Double {
    let c = ayes(trees, rows, trees.len());
    if c >= trees.len() - c {
        one()
    } else {
        zero()
    }
}

/// A batch of one row.
pub open spec fn single(row: Seq<Double>, width: usize) -> Batch {
    Batch { rows: seq![row], width }
}

/// A tree after it was shown the same row `c` times.
pub open spec fn replayed(tree: Grove<HtState>, row: Seq<Double>, width: usize, y: Double, ln: Curve, cdf: Curve, c: nat) -> Grove<HtState>
    decreases c,
{
    if c == 0 {
        tree
    } else {
        grove_after::<HtLeaf>(
            replayed(tree, row, width, y, ln, cdf, (c - 1) as nat),
            single(row, width),
            seq![y],
            ln,
            cdf,
        )
    }
}

/// Tree `t` after the first `k` rows, each shown as often as its count says.
pub open spec fn leveraged(
    tree: Grove<HtState>,
    t: int,
    x: Batch,
    y: Seq<Double>,
    counts: Seq<Seq<u64>>,
    ln: Curve,
    cdf: Curve,
    k: nat,
) -> Grove<HtState>
    decreases k,
{
    if k == 0 {
        tree
    } else {
        replayed(
            leveraged(tree, t, x, y, counts, ln, cdf, (k - 1) as nat),
            x.rows[k - 1],
            x.width,
            y[k - 1],
            ln,
            cdf,
            counts[k - 1][t] as nat,
        )
    }
}

/// Sum of the first `t` counts of a row.
pub open spec fn row_total(counts: Seq<u64>, t: nat) -> nat
    decreases t,
{
    if t == 0 {
        0
    } else {
        row_total(counts, (t - 1) as nat) + counts[t - 1] as nat
    }
}

/// Sum of the counts of the first `k` rows over `n` trees.
pub open spec fn grand_total(counts: Seq<Seq<u64>>, n: nat, k: nat) -> nat
    decreases k,
{
    if k == 0 {
        0
    } else {
        grand_total(counts, n, (k - 1) as nat) + row_total(counts[k - 1], n)
    }
}

proof fn lemma_row_total(counts: Seq<u64>, t: nat, n: nat)
    requires
        t <= n,
    ensures
        row_total(counts, t) <= row_total(counts, n),
        t < n ==> row_total(counts, t) + counts[t as int] <= row_total(counts, n),
    decreases n - t,
{
    if t < n {
        lemma_row_total(counts, t + 1, n);
    }
}

proof fn lemma_grand_total(counts: Seq<Seq<u64>>, n: nat, k: nat, m: nat)
    requires
        k <= m,
    ensures
        grand_total(counts, n, k) <= grand_total(counts, n, m),
        k < m ==> grand_total(counts, n, k) + row_total(counts[k as int], n) <= grand_total(counts, n, m),
    decreases m - k,
{
    if k < m {
        lemma_grand_total(counts, n, k + 1, m);
    }
}

fn replay<F: Fn(Double) -> Double, G: Fn(Double) -> Double>(
    tree: &mut HoeffdingTree,
    x: &Matrix,
    i: usize,
    y: Double,
    c: u64,
    ln: &F,
    cdf: &G,
)
    requires
        x.wf(),
        i < x.height(),
        old(tree).wf(),
        old(tree).n_seen + c + 19 <= u64::MAX,
        old(tree).updates + c <= u64::MAX,
        is_function(*ln),
        is_function(*cdf),
    ensures
        final(tree).wf(),
        final(tree)@ == replayed(old(tree)@, x@.rows[i as int], x.width, y, curve(*ln), curve(*cdf), c as nat),
        final(tree).n_seen <= old(tree).n_seen + c,
        final(tree).updates <= old(tree).updates + c,
{
    let ghost start = tree@;
    assert(x@.rows[i as int] == x.rows@[i as int]@);
    let mut rows: Vec<Vec<Double>> = Vec::new();
    rows.push(x.row(i));
    let xi = Matrix { rows, width: x.ncols() };
    assert(x.rows[i as int]@.len() == x.width);
    assert(xi@.rows =~= single(x@.rows[i as int], x.width).rows);
    let mut yi: Vec<Double> = Vec::new();
    yi.push(y);
    assert(yi@ =~= seq![y]);
    let mut k: u64 = 0;
    while k < c
        invariant
            k <= c,
            xi.wf(),
            xi@ == single(x@.rows[i as int], x.width),
            xi.height() == 1,
            yi@ == seq![y],
            tree.wf(),
            start.n_seen + c + 19 <= u64::MAX,
            start.updates + c <= u64::MAX,
            tree.n_seen <= start.n_seen + k,
            tree.updates <= start.updates + k,
            is_function(*ln),
            is_function(*cdf),
            tree@ == replayed(start, x@.rows[i as int], x.width, y, curve(*ln), curve(*cdf), k as nat),
        decreases c - k,
    {
        let ghost before = tree@;
        let _ = tree.partial_fit(&xi, Some(&yi), ln, cdf);
        assert(tree@ == grove_after::<HtLeaf>(before, xi@, yi@, curve(*ln), curve(*cdf)));
        assert(tree.n_seen == tree@.n_seen && tree.updates == tree@.updates);
        k = k + 1;
    }
}

/// Trees that see each row as often as a Poisson draw says.
#[derive(Debug)]
pub struct LeveragingBagging {
    /// Number of trees.
    pub n_estimators: usize,
    /// Mean of the draws.
    pub w: Double,
    /// The trees.
    pub trees: Vec<HoeffdingTree>,
    /// Rows taken in.
    pub n_seen: u64,
    /// Batches taken in.
    pub updates: u64,
    /// Whether the trees are planted.
    pub initialized: bool,
}

impl Default for LeveragingBagging {
    fn default() -> (r: LeveragingBagging)
        ensures
            r.blank(3),
    {
        LeveragingBagging::new(3)
    }
}

impl LeveragingBagging {
    /// The state before any row.
    pub open spec fn blank(&self, n_estimators: usize) -> bool {
        &&& self.n_estimators == n_estimators
        &&& self.w == six()
        &&& self.trees@.len() == 0
        &&& self.n_seen == 0
        &&& self.updates == 0
        &&& !self.initialized
    }

    /// Every tree is well formed.
    pub open spec fn wf(&self) -> bool {
        forall|t: int| 0 <= t < self.trees@.len() ==> (#[trigger] self.trees@[t]).wf()
    }

    /// A forest of `n_estimators` trees.
    pub fn new(n_estimators: usize) -> (r: LeveragingBagging)
        ensures
            r.blank(at_least_one_member(n_estimators)),
    {
        LeveragingBagging {
            n_estimators: if n_estimators < 1 {
                1
            } else {
                n_estimators
            },
            w: six(),
            trees: Vec::new(),
            n_seen: 0,
            updates: 0,
            initialized: false,
        }
    }

    /// The mean of the draws that a batch needs.
    pub fn draw_mean(&self) -> (r: Double)
        ensures
            r == self.w.max(zero()),
    {
        self.w.max(zero())
    }

    /// The trees that a batch starts with.
    pub open spec fn start(&self, width: usize) -> Seq<Grove<HtState>> {
        if self.initialized {
            groves(self.trees@)
        } else {
            Seq::new(self.n_estimators as nat, |t: int| ForestState::seedling(width))
        }
    }

    /// Rows that have a target.
    pub open spec fn paired(x: Batch, y: Seq<Double>) -> nat {
        if x.height() < y.len() {
            x.height()
        } else {
            y.len()
        }
    }

    /// Counters that leave room for a batch of `rows` rows in which every tree is
    /// shown `total` rows or fewer.
    pub open spec fn room(&self, rows: nat, total: nat) -> bool {
        &&& self.n_seen + rows <= u64::MAX
        &&& self.updates < u64::MAX
        &&& total + 19 <= u64::MAX
        &&& self.initialized ==> forall|t: int|
            0 <= t < self.trees@.len() ==> (#[trigger] self.trees@[t]).n_seen + total + 19 <= u64::MAX
        &&& self.initialized ==> forall|t: int|
            0 <= t < self.trees@.len() ==> (#[trigger] self.trees@[t]).updates + total <= u64::MAX
    }

    /// What a batch does.
    pub open spec fn answers(
        &self,
        after: &LeveragingBagging,
        x: &Matrix,
        y: Option<Seq<Double>>,
        counts: Seq<Seq<u64>>,
        ln: Curve,
        cdf: Curve,
        r: &Update,
    ) -> bool {
        match y {
            None => {
                &&& *after == *self
                &&& reports(
                    r,
                    IncrementalQuality::new(self.updates, x.height() as usize, self.n_seen),
                    seq![issue(IssueCode::MissingTarget)],
                    false,
                )
            },
            Some(t) => {
                let start = self.start(x.width);
                let k = LeveragingBagging::paired(x@, t);
                let total = Double::from_u64(grand_total(counts, start.len(), k) as u64);
                &&& after.n_estimators == self.n_estimators
                &&& after.w == self.w
                &&& groves(after.trees@) == Seq::new(
                    start.len(),
                    |m: int| leveraged(start[m], m, x@, t, counts, ln, cdf, k),
                )
                &&& after.n_seen == self.n_seen + k
                &&& after.updates == self.updates + 1
                &&& after.initialized
                &&& reports(
                    r,
                    IncrementalQuality {
                        effective_sample_size: Double::from_u64(after.n_seen),
                        parameter_delta_norm: Some(total),
                        information_gain: Some(total),
                        still_identified: after.n_seen >= 15,
                        warmup: after.n_seen < 15,
                        ..IncrementalQuality::new(self.updates, x.height() as usize, after.n_seen)
                    },
                    given(after.n_seen < 15, IssueCode::WarmupIncomplete),
                    false,
                )
            },
        }
    }

    fn lever<F: Fn(Double) -> Double, G: Fn(Double) -> Double>(
        &mut self,
        x: &Matrix,
        i: usize,
        y: Double,
        counts: &Vec<u64>,
        ln: &F,
        cdf: &G,
        Ghost(used): Ghost<nat>,
        Ghost(bases): Ghost<Seq<(nat, nat)>>,
    ) -> (shown: u64)
        requires
            x.wf(),
            i < x.height(),
            old(self).wf(),
            counts@.len() == old(self).trees@.len(),
            bases.len() == counts@.len(),
            forall|t: int|
                0 <= t < bases.len() ==> (#[trigger] old(self).trees@[t]).n_seen <= bases[t].0 + used
                    && old(self).trees@[t].updates <= bases[t].1 + used,
            forall|t: int|
                0 <= t < bases.len() ==> (#[trigger] bases[t]).0 + used + row_total(counts@, counts@.len()) + 19
                    <= u64::MAX && bases[t].1 + used + row_total(counts@, counts@.len()) <= u64::MAX,
            row_total(counts@, counts@.len()) <= u64::MAX,
            is_function(*ln),
            is_function(*cdf),
        ensures
            final(self).wf(),
            final(self).trees@.len() == old(self).trees@.len(),
            final(self).n_estimators == old(self).n_estimators,
            final(self).w == old(self).w,
            final(self).n_seen == old(self).n_seen,
            final(self).updates == old(self).updates,
            final(self).initialized == old(self).initialized,
            shown == row_total(counts@, counts@.len()),
            forall|t: int|
                0 <= t < bases.len() ==> (#[trigger] final(self).trees@[t])@ == replayed(
                    old(self).trees@[t]@,
                    x@.rows[i as int],
                    x.width,
                    y,
                    curve(*ln),
                    curve(*cdf),
                    counts@[t] as nat,
                ),
            forall|t: int|
                0 <= t < bases.len() ==> (#[trigger] final(self).trees@[t]).n_seen <= bases[t].0 + used + shown
                    && final(self).trees@[t].updates <= bases[t].1 + used + shown,
    {
        let n: usize = self.trees.len();
        let ghost start = self.trees@;
        let ghost total = row_total(counts@, n as nat);
        let mut shown: u64 = 0;
        let mut t: usize = 0;
        while t < n
            invariant
                t <= n,
                n == self.trees@.len(),
                n == counts@.len(),
                n == bases.len(),
                n == start.len(),
                x.wf(),
                i < x.height(),
                self.wf(),
                start == old(self).trees@,
                total == row_total(counts@, n as nat),
                total <= u64::MAX,
                self.n_estimators == old(self).n_estimators,
                self.w == old(self).w,
                self.n_seen == old(self).n_seen,
                self.updates == old(self).updates,
                self.initialized == old(self).initialized,
                is_function(*ln),
                is_function(*cdf),
                shown == row_total(counts@, t as nat),
                forall|k: int|
                    0 <= k < n ==> (#[trigger] bases[k]).0 + used + total + 19 <= u64::MAX && bases[k].1 + used + total
                        <= u64::MAX,
                forall|k: int|
                    0 <= k < n ==> (#[trigger] start[k]).n_seen <= bases[k].0 + used && start[k].updates <= bases[k].1
                        + used,
                forall|k: int| t <= k < n ==> #[trigger] self.trees@[k] == start[k],
                forall|k: int|
                    0 <= k < t ==> (#[trigger] self.trees@[k])@ == replayed(
                        start[k]@,
                        x@.rows[i as int],
                        x.width,
                        y,
                        curve(*ln),
                        curve(*cdf),
                        counts@[k] as nat,
                    ),
                forall|k: int|
                    0 <= k < t ==> (#[trigger] self.trees@[k]).n_seen <= bases[k].0 + used + total
                        && self.trees@[k].updates <= bases[k].1 + used + total,
            decreases n - t,
        {
            proof {
                lemma_row_total(counts@, t as nat, n as nat);
            }
            assert(bases[t as int].0 + used + total + 19 <= u64::MAX);
            assert(start[t as int].n_seen <= bases[t as int].0 + used);
            let c: u64 = counts[t];
            replay(&mut self.trees[t], x, i, y, c, ln, cdf);
            shown = shown + c;
            t = t + 1;
        }
        shown
    }

    /// Takes in a batch, unless it has no target. `counts[i][t]` says how often tree
    /// `t` sees row `i`; they are draws of a Poisson law with mean `draw_mean`.
    pub fn partial_fit<F: Fn(Double) -> Double, G: Fn(Double) -> Double>(
        &mut self,
        x: &Matrix,
        y: Option<&Vec<Double>>,
        counts: &Vec<Vec<u64>>,
        ln: &F,
        cdf: &G,
    ) -> (r: Update)
        requires
            x.wf(),
            old(self).wf(),
            y is Some ==> {
                &&& counts@.len() == x.height()
                &&& forall|i: int|
                    0 <= i < counts@.len() ==> (#[trigger] counts@[i])@.len() == old(self).start(x.width).len()
                &&& old(self).room(
                    x.height(),
                    grand_total(count_grid(counts), old(self).start(x.width).len(), x.height()),
                )
            },
            is_function(*ln),
            is_function(*cdf),
        ensures
            final(self).wf(),
            old(self).answers(
                final(self),
                x,
                target(y),
                count_grid(counts),
                curve(*ln),
                curve(*cdf),
                &r,
            ),
    {
        let n: usize = x.nrows();
        let mut issues: Vec<Issue> = Vec::new();
        let t: &Vec<Double> = match y {
            None => {
                issues.push(issue(IssueCode::MissingTarget));
                assert(issues@ =~= seq![issue(IssueCode::MissingTarget)]);
                return rejection(self.updates, n, self.n_seen, issues);
            },
            Some(t) => t,
        };
        let ghost start = self.start(x.width);
        let ghost grid = count_grid(counts);
        let ghost size = start.len();
        let ghost all = grand_total(grid, size, x.height());
        if !self.initialized {
            self.trees = plant(self.n_estimators, x.ncols());
            self.initialized = true;
        }
        assert(groves(self.trees@) =~= start);
        let ghost first = self.trees@;
        let ghost bases = Seq::new(size, |m: int| (first[m].n_seen as nat, first[m].updates as nat));
        let k: usize = if n < t.len() {
            n
        } else {
            t.len()
        };
        let mut shown: u64 = 0;
        let mut i: usize = 0;
        while i < k
            invariant
                i <= k,
                k <= n,
                n == x.height(),
                k <= t@.len(),
                x.wf(),
                self.wf(),
                self.initialized,
                self.trees@.len() == size,
                size == start.len(),
                grid == count_grid(counts),
                counts@.len() == n,
                forall|a: int| 0 <= a < n ==> (#[trigger] counts@[a])@.len() == size,
                all == grand_total(grid, size, n as nat),
                all + 19 <= u64::MAX,
                bases.len() == size,
                forall|m: int|
                    0 <= m < size ==> (#[trigger] bases[m]).0 + all + 19 <= u64::MAX && bases[m].1 + all <= u64::MAX,
                self.n_estimators == old(self).n_estimators,
                self.w == old(self).w,
                self.n_seen == old(self).n_seen,
                self.updates == old(self).updates,
                is_function(*ln),
                is_function(*cdf),
                shown == grand_total(grid, size, i as nat),
                forall|m: int|
                    0 <= m < size ==> (#[trigger] self.trees@[m])@ == leveraged(
                        start[m],
                        m,
                        x@,
                        t@,
                        grid,
                        curve(*ln),
                        curve(*cdf),
                        i as nat,
                    ),
                forall|m: int|
                    0 <= m < size ==> (#[trigger] self.trees@[m]).n_seen <= bases[m].0 + shown && self.trees@[m].updates
                        <= bases[m].1 + shown,
            decreases k - i,
        {
            proof {
                lemma_grand_total(grid, size, i as nat, n as nat);
            }
            assert(grid[i as int] == counts@[i as int]@);
            let c: u64 = self.lever(x, i, t[i], &counts[i], ln, cdf, Ghost(shown as nat), Ghost(bases));
            shown = shown + c;
            i = i + 1;
        }
        assert(groves(self.trees@) =~= Seq::new(
            size,
            |m: int| leveraged(start[m], m, x@, t@, grid, curve(*ln), curve(*cdf), k as nat),
        ));
        self.n_seen = self.n_seen + k as u64;
        self.updates = self.updates + 1;
        let total: Double = Double::from_u64(shown);
        raise(&mut issues, self.n_seen < 15, IssueCode::WarmupIncomplete);
        assert(issues@ =~= given(self.n_seen < 15, IssueCode::WarmupIncomplete));
        let quality = IncrementalQuality {
            effective_sample_size: Double::from_u64(self.n_seen),
            parameter_delta_norm: Some(total),
            information_gain: Some(total),
            still_identified: self.n_seen >= 15,
            warmup: self.n_seen < 15,
            ..IncrementalQuality::new(self.updates - 1, n, self.n_seen)
        };
        plain_report(quality, issues)
    }

    /// The same row for every tree.
    pub open spec fn shown_to_all(&self, row: Seq<Double>) -> Seq<Seq<Double>> {
        Seq::new(self.trees@.len(), |t: int| row)
    }

    /// Majority vote of the trees, or zeros before the first batch.
    pub fn predict(&self, x: &Matrix) -> (out: Qualified<Vec<Double>>)
        requires
            self.wf(),
        ensures
            if !self.initialized {
                &&& out.value@ == zero_seq(x.height())
                &&& out.report@ == seq![issue(IssueCode::PartialFitBeforeInit)]
            } else {
                &&& out.value@ == Seq::new(
                    x.height(),
                    |i: int| carried(groves(self.trees@), self.shown_to_all(x@.rows[i])),
                )
                &&& out.report@.len() == 0
            },
    {
        if !self.initialized {
            return unready(x.nrows());
        }
        let n: usize = self.trees.len();
        let ghost trees = groves(self.trees@);
        let mut value: Vec<Double> = Vec::new();
        let mut i: usize = 0;
        while i < x.nrows()
            invariant
                i <= x.height(),
                self.wf(),
                n == self.trees@.len(),
                trees == groves(self.trees@),
                value@ == Seq::new(i as nat, |i: int| carried(trees, self.shown_to_all(x@.rows[i]))),
            decreases x.height() - i,
        {
            assert(x@.rows[i as int] == x.rows@[i as int]@);
            let ghost rows = self.shown_to_all(x@.rows[i as int]);
            let mut c1: usize = 0;
            let mut t: usize = 0;
            while t < n
                invariant
                    t <= n,
                    n == self.trees@.len(),
                    i < x.height(),
                    self.wf(),
                    trees == groves(self.trees@),
                    rows == self.shown_to_all(x.rows@[i as int]@),
                    c1 == ayes(trees, rows, t as nat),
                    c1 <= t,
                decreases n - t,
            {
                assert(trees[t as int] == self.trees@[t as int]@);
                if self.trees[t].predict_one(&x.rows[i]).ge(half()) {
                    c1 = c1 + 1;
                }
                t = t + 1;
            }
            value.push(
                if c1 >= n - c1 {
                    one()
                } else {
                    zero()
                },
            );
            i = i + 1;
            assert(value@ =~= Seq::new(i as nat, |i: int| carried(trees, self.shown_to_all(x@.rows[i]))));
        }
        Qualified { value, report: Vec::new() }
    }
}

/// The columns of a row that a patch looks at; a column that the row lacks reads as
/// zero.
pub open spec fn patch(row: Seq<Double>, mask: Seq<usize>) -> Seq<Double> {
    Seq::new(
        mask.len(),
        |j: int|
            if mask[j] < row.len() {
                row[mask[j] as int]
            } else {
                zero()
            },
    )
}

/// The columns of a batch that a patch looks at.
pub open spec fn patched(x: Batch, mask: Seq<usize>) -> Batch {
    Batch { rows: Seq::new(x.height(), |i: int| patch(x.rows[i], mask)), width: mask.len() as usize }
}

fn cut_patch(row: &Vec<Double>, mask: &Vec<usize>) -> (r: Vec<Double>)
    ensures
        r@ == patch(row@, mask@),
{
    let mut r: Vec<Double> = Vec::new();
    let mut j: usize = 0;
    while j < mask.len()
        invariant
            j <= mask@.len(),
            r@ == patch(row@, mask@).take(j as int),
        decreases mask@.len() - j,
    {
        let c: usize = mask[j];
        r.push(
            if c < row.len() {
                row[c]
            } else {
                zero()
            },
        );
        j = j + 1;
        assert(r@ =~= patch(row@, mask@).take(j as int));
    }
    assert(r@ =~= patch(row@, mask@));
    r
}

fn cut_patches(x: &Matrix, mask: &Vec<usize>) -> (m: Matrix)
    ensures
        m.wf(),
        m@ == patched(x@, mask@),
        m.height() == x.height(),
        m.width == mask@.len(),
{
    let mut rows: Vec<Vec<Double>> = Vec::new();
    let mut i: usize = 0;
    while i < x.nrows()
        invariant
            i <= x.height(),
            rows@.len() == i,
            forall|a: int| 0 <= a < i ==> (#[trigger] rows@[a])@ == patch(x@.rows[a], mask@),
        decreases x.height() - i,
    {
        assert(x@.rows[i as int] == x.rows@[i as int]@);
        rows.push(cut_patch(&x.rows[i], mask));
        i = i + 1;
    }
    let width: usize = mask.len();
    let m = Matrix { rows, width };
    assert(m@.rows =~= patched(x@, mask@).rows);
    m
}

/// Columns in a patch: the square root of their number, rounded up.
pub open spec fn patch_width(p: usize) -> usize {
    let k = Double::from_usize(p).sqrt().ceil_to_u64();
    if k < 1 {
        1
    } else if k > p {
        p
    } else {
        k as usize
    }
}

fn patch_width_of(p: usize) -> (k: usize)
    requires
        p > 0,
    ensures
        k == patch_width(p),
        1 <= k <= p,
{
    let k: u64 = Double::from_usize(p).sqrt().ceil_to_u64();
    if k < 1 {
        1
    } else if k > p as u64 {
        p
    } else {
        k as usize
    }
}

/// The first `k` entries of each list.
pub open spec fn heads(shuffles: &Vec<Vec<usize>>, n: nat, k: nat) -> Seq<Seq<usize>> {
    Seq::new(n, |t: int| shuffles@[t]@.take(k as int))
}

/// Trees that each look at some of the columns.
#[derive(Debug)]
pub struct StreamingRandomPatches {
    /// Number of trees.
    pub n_estimators: usize,
    /// The trees.
    pub trees: Vec<HoeffdingTree>,
    /// The columns that each tree looks at.
    pub masks: Vec<Vec<usize>>,
    /// Rows taken in.
    pub n_seen: u64,
    /// Batches taken in.
    pub updates: u64,
    /// Whether the trees are planted.
    pub initialized: bool,
}

impl Default for StreamingRandomPatches {
    fn default() -> (r: StreamingRandomPatches)
        ensures
            r.blank(3),
    {
        StreamingRandomPatches::new(3)
    }
}

impl StreamingRandomPatches {
    /// The state before any row.
    pub open spec fn blank(&self, n_estimators: usize) -> bool {
        &&& self.n_estimators == n_estimators
        &&& self.trees@.len() == 0
        &&& self.masks@.len() == 0
        &&& self.n_seen == 0
        &&& self.updates == 0
        &&& !self.initialized
    }

    /// Every tree has a patch and fits it.
    pub open spec fn wf(&self) -> bool {
        &&& self.masks@.len() == self.trees@.len()
        &&& forall|t: int|
            0 <= t < self.trees@.len() ==> {
                &&& (#[trigger] self.trees@[t]).wf()
                &&& self.trees@[t].initialized
                &&& self.trees@[t].n_features == self.masks@[t]@.len()
            }
    }

    /// The columns that each tree looks at.
    pub open spec fn mask_seqs(&self) -> Seq<Seq<usize>> {
        Seq::new(self.masks@.len(), |t: int| self.masks@[t]@)
    }

    /// A forest of `n_estimators` trees.
    pub fn new(n_estimators: usize) -> (r: StreamingRandomPatches)
        ensures
            r.blank(at_least_one_member(n_estimators)),
    {
        StreamingRandomPatches {
            n_estimators: if n_estimators < 1 {
                1
            } else {
                n_estimators
            },
            trees: Vec::new(),
            masks: Vec::new(),
            n_seen: 0,
            updates: 0,
            initialized: false,
        }
    }

    /// The patches that a batch starts with.
    pub open spec fn start_masks(&self, width: usize, shuffles: &Vec<Vec<usize>>) -> Seq<Seq<usize>> {
        if self.initialized {
            self.mask_seqs()
        } else {
            heads(shuffles, self.n_estimators as nat, patch_width(width) as nat)
        }
    }

    /// The trees that a batch starts with.
    pub open spec fn start(&self, width: usize) -> Seq<Grove<HtState>> {
        if self.initialized {
            groves(self.trees@)
        } else {
            Seq::new(self.n_estimators as nat, |t: int| ForestState::seedling(patch_width(width)))
        }
    }

    /// Counters that leave room for a batch.
    pub open spec fn room(&self, rows: nat) -> bool {
        &&& self.n_seen + rows <= u64::MAX
        &&& self.updates < u64::MAX
        &&& rows + 18 <= u64::MAX
        &&& self.initialized ==> forall|t: int| 0 <= t < self.trees@.len() ==> (#[trigger] self.trees@[t]).room(rows)
    }

    /// Why a batch is turned away.
    pub open spec fn refusal(x: Batch, y: Option<Seq<Double>>) -> Option<IssueCode> {
        if y is None {
            Some(IssueCode::MissingTarget)
        } else if x.width == 0 {
            Some(IssueCode::PartialFitBeforeInit)
        } else {
            None
        }
    }

    /// What a batch does.
    pub open spec fn answers(
        &self,
        after: &StreamingRandomPatches,
        x: &Matrix,
        y: Option<Seq<Double>>,
        shuffles: &Vec<Vec<usize>>,
        ln: Curve,
        cdf: Curve,
        r: &Update,
    ) -> bool {
        match StreamingRandomPatches::refusal(x@, y) {
            Some(code) => {
                &&& *after == *self
                &&& reports(
                    r,
                    IncrementalQuality::new(self.updates, x.height() as usize, self.n_seen),
                    seq![issue(code)],
                    false,
                )
            },
            None => {
                let start = self.start(x.width);
                let masks = self.start_masks(x.width, shuffles);
                let shown = Double::from_u64(start.len() as u64);
                &&& after.n_estimators == self.n_estimators
                &&& after.mask_seqs() == masks
                &&& groves(after.trees@) == Seq::new(
                    start.len(),
                    |t: int| grove_after::<HtLeaf>(start[t], patched(x@, masks[t]), y->0, ln, cdf),
                )
                &&& after.n_seen == self.n_seen + x.height()
                &&& after.updates == self.updates + 1
                &&& after.initialized
                &&& reports(
                    r,
                    IncrementalQuality {
                        effective_sample_size: Double::from_u64(after.n_seen),
                        parameter_delta_norm: Some(shown),
                        information_gain: Some(shown),
                        still_identified: after.n_seen >= 15,
                        warmup: after.n_seen < 15,
                        ..IncrementalQuality::new(self.updates, x.height() as usize, after.n_seen)
                    },
                    shape_issues(x, y) + given(after.n_seen < 15, IssueCode::WarmupIncomplete),
                    false,
                )
            },
        }
    }

    fn ensure(&mut self, p: usize, shuffles: &Vec<Vec<usize>>)
        requires
            p > 0,
            old(self).wf(),
            !old(self).initialized ==> shuffles@.len() == old(self).n_estimators && forall|t: int|
                0 <= t < shuffles@.len() ==> (#[trigger] shuffles@[t])@.len() == p,
        ensures
            final(self).wf(),
            final(self).initialized,
            final(self).mask_seqs() == old(self).start_masks(p, shuffles),
            groves(final(self).trees@) == old(self).start(p),
            final(self).n_estimators == old(self).n_estimators,
            final(self).n_seen == old(self).n_seen,
            final(self).updates == old(self).updates,
            old(self).initialized ==> *final(self) == *old(self),
            !old(self).initialized ==> forall|t: int|
                0 <= t < final(self).trees@.len() ==> (#[trigger] final(self).trees@[t]).n_seen == 0
                    && final(self).trees@[t].updates == 0,
    {
        if self.initialized {
            return ;
        }
        let k: usize = patch_width_of(p);
        let n: usize = self.n_estimators;
        let mut masks: Vec<Vec<usize>> = Vec::new();
        let mut t: usize = 0;
        while t < n
            invariant
                t <= n,
                n == shuffles@.len(),
                k <= p,
                forall|a: int| 0 <= a < shuffles@.len() ==> (#[trigger] shuffles@[a])@.len() == p,
                masks@.len() == t,
                forall|a: int| 0 <= a < t ==> (#[trigger] masks@[a])@ == shuffles@[a]@.take(k as int),
            decreases n - t,
        {
            assert(shuffles@[t as int]@.len() == p);
            let mut mask: Vec<usize> = Vec::new();
            let mut j: usize = 0;
            while j < k
                invariant
                    j <= k,
                    t < shuffles@.len(),
                    k <= shuffles@[t as int]@.len(),
                    mask@ == shuffles@[t as int]@.take(j as int),
                decreases k - j,
            {
                mask.push(shuffles[t][j]);
                j = j + 1;
                assert(mask@ =~= shuffles@[t as int]@.take(j as int));
            }
            masks.push(mask);
            t = t + 1;
        }
        self.masks = masks;
        self.trees = plant(n, k);
        self.initialized = true;
        assert forall|t: int| 0 <= t < self.trees@.len() implies {
            &&& (#[trigger] self.trees@[t]).wf()
            &&& self.trees@[t].initialized
            &&& self.trees@[t].n_features == self.masks@[t]@.len()
        } by {
            assert(self.trees@[t]@.initialized && self.trees@[t]@.n_features == k);
            assert(self.masks@[t]@ == shuffles@[t]@.take(k as int));
            assert(shuffles@[t]@.len() == p);
        }
        assert(self.mask_seqs() =~= old(self).start_masks(p, shuffles));
        assert(groves(self.trees@) =~= old(self).start(p));
    }

    /// Takes in a batch, unless it has no target or no columns. For the first batch
    /// `shuffles` holds a random order of the columns for each tree.
    pub fn partial_fit<F: Fn(Double) -> Double, G: Fn(Double) -> Double>(
        &mut self,
        x: &Matrix,
        y: Option<&Vec<Double>>,
        shuffles: &Vec<Vec<usize>>,
        ln: &F,
        cdf: &G,
    ) -> (r: Update)
        requires
            x.wf(),
            StreamingRandomPatches::refusal(x@, target(y)) is None ==> x.height() <= y->0@.len(),
            old(self).wf(),
            old(self).room(x.height()),
            !old(self).initialized && StreamingRandomPatches::refusal(x@, target(y)) is None ==> shuffles@.len()
                == old(self).n_estimators && forall|t: int|
                0 <= t < shuffles@.len() ==> (#[trigger] shuffles@[t])@.len() == x.width,
            is_function(*ln),
            is_function(*cdf),
        ensures
            final(self).wf(),
            old(self).answers(final(self), x, target(y), shuffles, curve(*ln), curve(*cdf), &r),
    {
        let n: usize = x.nrows();
        let mut issues: Vec<Issue> = Vec::new();
        let t: &Vec<Double> = match y {
            None => {
                issues.push(issue(IssueCode::MissingTarget));
                assert(issues@ =~= seq![issue(IssueCode::MissingTarget)]);
                return rejection(self.updates, n, self.n_seen, issues);
            },
            Some(t) => t,
        };
        if x.ncols() == 0 {
            issues.push(issue(IssueCode::PartialFitBeforeInit));
            assert(issues@ =~= seq![issue(IssueCode::PartialFitBeforeInit)]);
            return rejection(self.updates, n, self.n_seen, issues);
        }
        inspect_online_xy(&mut issues, x, Some(t));
        assert(issues@ =~= shape_issues(x, Some(t@)));
        let ghost start = self.start(x.width);
        let ghost masks = self.start_masks(x.width, shuffles);
        self.ensure(x.ncols(), shuffles);
        let k: usize = self.trees.len();
        let mut m: usize = 0;
        while m < k
            invariant
                m <= k,
                k == self.trees@.len(),
                k == start.len(),
                n == x.height(),
                x.wf(),
                n <= t@.len(),
                self.wf(),
                self.initialized,
                self.mask_seqs() == masks,
                self.n_estimators == old(self).n_estimators,
                self.n_seen == old(self).n_seen,
                self.updates == old(self).updates,
                is_function(*ln),
                is_function(*cdf),
                forall|a: int| m <= a < k ==> (#[trigger] self.trees@[a]).room(n as nat),
                forall|a: int| m <= a < k ==> (#[trigger] self.trees@[a])@ == start[a],
                forall|a: int|
                    0 <= a < m ==> (#[trigger] self.trees@[a])@ == grove_after::<HtLeaf>(
                        start[a],
                        patched(x@, masks[a]),
                        t@,
                        curve(*ln),
                        curve(*cdf),
                    ),
            decreases k - m,
        {
            assert(masks[m as int] == self.masks@[m as int]@);
            assert(self.trees@[m as int].room(n as nat));
            let xs = cut_patches(x, &self.masks[m]);
            let ghost before = self.trees@[m as int]@;
            let _ = self.trees[m].partial_fit(&xs, Some(t), ln, cdf);
            assert(grove_refusal(before, xs@, Some(t@)) is None ==> self.trees@[m as int]@.n_features
                == before.n_features && self.trees@[m as int]@.initialized);
            m = m + 1;
        }
        assert(groves(self.trees@) =~= Seq::new(
            start.len(),
            |a: int| grove_after::<HtLeaf>(start[a], patched(x@, masks[a]), t@, curve(*ln), curve(*cdf)),
        ));
        self.n_seen = self.n_seen + n as u64;
        self.updates = self.updates + 1;
        raise(&mut issues, self.n_seen < 15, IssueCode::WarmupIncomplete);
        let shown: Double = Double::from_u64(k as u64);
        let quality = IncrementalQuality {
            effective_sample_size: Double::from_u64(self.n_seen),
            parameter_delta_norm: Some(shown),
            information_gain: Some(shown),
            still_identified: self.n_seen >= 15,
            warmup: self.n_seen < 15,
            ..IncrementalQuality::new(self.updates - 1, n, self.n_seen)
        };
        plain_report(quality, issues)
    }

    /// The patch of a row for every tree.
    pub open spec fn patches(&self, row: Seq<Double>) -> Seq<Seq<Double>> {
        Seq::new(self.trees@.len(), |t: int| patch(row, self.masks@[t]@))
    }

    /// Majority vote of the trees, or zeros before the first batch.
    pub fn predict(&self, x: &Matrix) -> (out: Qualified<Vec<Double>>)
        requires
            self.wf(),
        ensures
            if !self.initialized {
                &&& out.value@ == zero_seq(x.height())
                &&& out.report@ == seq![issue(IssueCode::PartialFitBeforeInit)]
            } else {
                &&& out.value@ == Seq::new(
                    x.height(),
                    |i: int| carried(groves(self.trees@), self.patches(x@.rows[i])),
                )
                &&& out.report@.len() == 0
            },
    {
        if !self.initialized {
            return unready(x.nrows());
        }
        let n: usize = self.trees.len();
        let ghost trees = groves(self.trees@);
        let mut value: Vec<Double> = Vec::new();
        let mut i: usize = 0;
        while i < x.nrows()
            invariant
                i <= x.height(),
                self.wf(),
                n == self.trees@.len(),
                trees == groves(self.trees@),
                value@ == Seq::new(i as nat, |i: int| carried(trees, self.patches(x@.rows[i]))),
            decreases x.height() - i,
        {
            assert(x@.rows[i as int] == x.rows@[i as int]@);
            let ghost rows = self.patches(x@.rows[i as int]);
            let mut c1: usize = 0;
            let mut t: usize = 0;
            while t < n
                invariant
                    t <= n,
                    n == self.trees@.len(),
                    i < x.height(),
                    self.wf(),
                    trees == groves(self.trees@),
                    rows == self.patches(x.rows@[i as int]@),
                    c1 == ayes(trees, rows, t as nat),
                    c1 <= t,
                decreases n - t,
            {
                assert(trees[t as int] == self.trees@[t as int]@);
                let seen = cut_patch(&x.rows[i], &self.masks[t]);
                if self.trees[t].predict_one(&seen).ge(half()) {
                    c1 = c1 + 1;
                }
                t = t + 1;
            }
            value.push(
                if c1 >= n - c1 {
                    one()
                } else {
                    zero()
                },
            );
            i = i + 1;
            assert(value@ =~= Seq::new(i as nat, |i: int| carried(trees, self.patches(x@.rows[i]))));
        }
        Qualified { value, report: Vec::new() }
    }
}

} // verus!
