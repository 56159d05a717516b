//! Anomaly scores from random partitions.

use crate::constants::{half, tenth, two};
use crate::data::{zero_seq, Batch, Matrix};
use crate::double::{
    infinity, lemma_mean_is_at_most_one, lemma_one, lemma_over_is_monotone, lemma_plus_is_monotone, lemma_positive_whole,
    lemma_whole_is_exact, lemma_wholes_add, lemma_zero, neg_infinity, one, zero, Double,
};
use crate::functions::{apply, apply_two, curve, is_function, is_function_of_two, surface, Curve, Surface};
use crate::online::common::{inspect_online_xy, shape_issues};
use crate::quality::{given, issue, raise, IncrementalQuality, Issue, IssueCode, Qualified, Update};
use crate::streaming::columns::{plain_report, rejection, reports, screened_report};
use crate::streaming::committee::at_least_one_member;
use crate::streaming::linear::unready;
use crate::streaming::mondrian::{cell, cell_of};
use crate::streaming::table::Table;
use vstd::prelude::*;

verus! {

/// Smallest value of column `j` in the first `k` rows.
pub open spec fn column_low(x: Batch, j: int, k: nat) -> Double
    decreases k,
{
    if k == 0 {
        infinity()
    } else {
        column_low(x, j, (k - 1) as nat).min(x.rows[k - 1][j])
    }
}

/// Largest value of column `j` in the first `k` rows.
pub open spec fn column_high(x: Batch, j: int, k: nat) -> Double
    decreases k,
{
    if k == 0 {
        neg_infinity()
    } else {
        column_high(x, j, (k - 1) as nat).max(x.rows[k - 1][j])
    }
}

/// Smallest values of all columns.
pub open spec fn lows(x: Batch) -> Seq<Double> {
    Seq::new(x.width as nat, |j: int| column_low(x, j, x.height()))
}

/// Largest values of all columns.
pub open spec fn highs(x: Batch) -> Seq<Double> {
    Seq::new(x.width as nat, |j: int| column_high(x, j, x.height()))
}

fn find_bounds(x: &Matrix) -> (r: (Vec<Double>, Vec<Double>))
    requires
        x.wf(),
    ensures
        r.0@ == lows(x@),
        r.1@ == highs(x@),
{
    let mut low: Vec<Double> = Vec::new();
    let mut high: Vec<Double> = Vec::new();
    let mut j: usize = 0;
    while j < x.ncols()
        invariant
            j <= x.width,
            x.wf(),
            low@ == lows(x@).take(j as int),
            high@ == highs(x@).take(j as int),
        decreases x.width - j,
    {
        let mut a: Double = infinity();
        let mut b: Double = neg_infinity();
        let mut i: usize = 0;
        while i < x.nrows()
            invariant
                i <= x.height(),
                j < x.width,
                x.wf(),
                a == column_low(x@, j as int, i as nat),
                b == column_high(x@, j as int, i as nat),
            decreases x.height() - i,
        {
            assert(x@.rows[i as int] == x.rows@[i as int]@);
            let v: Double = x.get(i, j);
            a = a.min(v);
            b = b.max(v);
            i = i + 1;
        }
        low.push(a);
        high.push(b);
        j = j + 1;
        assert(low@ =~= lows(x@).take(j as int));
        assert(high@ =~= highs(x@).take(j as int));
    }
    assert(low@ =~= lows(x@));
    assert(high@ =~= highs(x@));
    (low, high)
}

/// A place between two bounds; the lower one where they leave no room.
#[verifier::allow_in_spec]
pub fn between(lo: Double, hi: Double, draw: Double) -> (r: Double)
    returns
        (if hi.gt(lo) {
            lo.plus(draw.times(hi.minus(lo)))
        } else {
            lo
        }),
{
    if hi.gt(lo) {
        lo.plus(draw.times(hi.minus(lo)))
    } else {
        lo
    }
}

/// A bound with some room to spare. Columns without a usable extent get the unit
/// interval.
#[verifier::allow_in_spec]
pub fn padded(lo: Double, hi: Double) -> (r: (Double, Double))
    returns
        (if !lo.is_finite() || !hi.is_finite() || lo.same(hi) {
            (zero(), one())
        } else {
            (lo.minus(tenth().times(hi.minus(lo))), hi.plus(tenth().times(hi.minus(lo))))
        }),
{
    if !lo.is_finite() || !hi.is_finite() || lo.same(hi) {
        (zero(), one())
    } else {
        let pad: Double = tenth().times(hi.minus(lo));
        (lo.minus(pad), hi.plus(pad))
    }
}

/// A half space that counts the rows in it.
#[derive(Debug)]
pub struct HsNode {
    /// Column that the cut looks at.
    pub feature: usize,
    /// Values up to the threshold go to the left.
    pub threshold: Double,
    /// Rows in the half space.
    pub mass: u64,
    /// Cuts above this one.
    pub depth: usize,
    /// Both halves, or none in the smallest spaces.
    pub halves: Option<(Box<HsNode>, Box<HsNode>)>,
}

/// The partition under a half space.
pub enum Space {
    /// A space that is not cut.
    Whole {
        /// Rows in the space.
        mass: nat,
        /// Cuts above this space.
        depth: usize,
    },
    /// A space that is cut in two.
    Cut {
        /// Column that the cut looks at.
        feature: usize,
        /// Values up to the threshold go to the left.
        threshold: Double,
        /// Rows in the space.
        mass: nat,
        /// Cuts above this one.
        depth: usize,
        /// The half up to the threshold.
        left: Box<Space>,
        /// The other half.
        right: Box<Space>,
    },
}

impl HsNode {
    /// The partition under the half space.
    pub open spec fn space(&self) -> Space
        decreases self,
    {
        match self.halves {
            None => Space::Whole { mass: self.mass as nat, depth: self.depth },
            Some((l, r)) => Space::Cut {
                feature: self.feature,
                threshold: self.threshold,
                mass: self.mass as nat,
                depth: self.depth,
                left: Box::new(l.space()),
                right: Box::new(r.space()),
            },
        }
    }
}

/// Rows in a space.
pub open spec fn mass_of(s: Space) -> nat {
    match s {
        Space::Whole { mass, depth } => mass,
        Space::Cut { feature, threshold, mass, depth, left, right } => mass,
    }
}

/// No space counts more than `cap` rows.
pub open spec fn space_within(s: Space, cap: nat) -> bool
    decreases s,
{
    match s {
        Space::Whole { mass, depth } => mass <= cap,
        Space::Cut { feature, threshold, mass, depth, left, right } => {
            &&& mass <= cap
            &&& space_within(*left, cap)
            &&& space_within(*right, cap)
        },
    }
}

/// The rows of both halves together are those of the whole, all the way down.
pub open spec fn space_adds_up(s: Space) -> bool
    decreases s,
{
    match s {
        Space::Whole { mass, depth } => true,
        Space::Cut { feature, threshold, mass, depth, left, right } => {
            &&& mass == mass_of(*left) + mass_of(*right)
            &&& space_adds_up(*left)
            &&& space_adds_up(*right)
        },
    }
}

/// The partition after one more row.
pub open spec fn entered(s: Space, row: Seq<Double>) -> Space
    decreases s,
{
    match s {
        Space::Whole { mass, depth } => Space::Whole { mass: mass + 1, depth },
        Space::Cut { feature, threshold, mass, depth, left, right } => {
            if cell(row, feature).le(threshold) {
                Space::Cut {
                    feature,
                    threshold,
                    mass: mass + 1,
                    depth,
                    left: Box::new(entered(*left, row)),
                    right,
                }
            } else {
                Space::Cut {
                    feature,
                    threshold,
                    mass: mass + 1,
                    depth,
                    left,
                    right: Box::new(entered(*right, row)),
                }
            }
        },
    }
}

/// A row adds one to the whole, and the halves keep adding up.
pub proof fn law_masses_add_up(s: Space, row: Seq<Double>)
    requires
        space_adds_up(s),
    ensures
        space_adds_up(entered(s, row)),
        mass_of(entered(s, row)) == mass_of(s) + 1,
    decreases s,
{
    match s {
        Space::Whole { mass, depth } => {},
        Space::Cut { feature, threshold, mass, depth, left, right } => {
            if cell(row, feature).le(threshold) {
                law_masses_add_up(*left, row);
            } else {
                law_masses_add_up(*right, row);
            }
        },
    }
}

proof fn lemma_entered_within(s: Space, row: Seq<Double>, cap: nat)
    requires
        space_within(s, cap),
    ensures
        space_within(entered(s, row), cap + 1),
        space_within(s, cap + 1),
    decreases s,
{
    match s {
        Space::Whole { mass, depth } => {},
        Space::Cut { feature, threshold, mass, depth, left, right } => {
            lemma_entered_within(*left, row, cap);
            lemma_entered_within(*right, row, cap);
        },
    }
}

/// Score of a space at which the walk of a row ends: high where few of the rows are
/// and few cuts were needed.
pub open spec fn rarity(mass: nat, depth: usize, n_seen: u64) -> Double {
    one().minus(
        Double::from_u64(
            if mass < 1 {
                1
            } else {
                mass as u64
            },
        ).over(
            Double::from_u64(
                if n_seen < 1 {
                    1
                } else {
                    n_seen
                },
            ),
        ).times(one().over(one().plus(Double::from_usize(depth)))),
    )
}

/// The score of a row: the walk goes down until there is no cut or the next space is
/// uncut and empty.
pub open spec fn space_score(s: Space, row: Seq<Double>, n_seen: u64) -> Double
    decreases s,
{
    match s {
        Space::Whole { mass, depth } => rarity(mass, depth, n_seen),
        Space::Cut { feature, threshold, mass, depth, left, right } => {
            let half = if cell(row, feature).le(threshold) {
                *left
            } else {
                *right
            };
            if half is Whole && mass_of(half) == 0 {
                rarity(mass, depth, n_seen)
            } else if cell(row, feature).le(threshold) {
                space_score(*left, row, n_seen)
            } else {
                space_score(*right, row, n_seen)
            }
        },
    }
}

fn rarity_of(mass: u64, depth: usize, n_seen: u64) -> (r: Double)
    ensures
        r == rarity(mass as nat, depth, n_seen),
{
    let m: u64 = if mass < 1 {
        1
    } else {
        mass
    };
    let n: u64 = if n_seen < 1 {
        1
    } else {
        n_seen
    };
    one().minus(
        Double::from_u64(m).over(Double::from_u64(n)).times(one().over(one().plus(Double::from_usize(depth)))),
    )
}

/// Cuts in a partition with `levels` levels of cuts.
pub open spec fn cut_count(levels: nat) -> nat
    decreases levels,
{
    if levels == 0 {
        0
    } else {
        1 + 2 * cut_count((levels - 1) as nat)
    }
}

/// The partition with `levels` levels of cuts below depth `depth`. Cuts are taken in
/// order from position `at`, first the whole, then the left half, then the right.
pub open spec fn partition(
    cuts: Seq<(usize, Double)>,
    at: nat,
    depth: usize,
    levels: nat,
    mins: Seq<Double>,
    maxs: Seq<Double>,
) -> Space
    decreases levels,
{
    if levels == 0 {
        Space::Whole { mass: 0, depth }
    } else {
        let (feature, draw) = cuts[at as int];
        let below = (levels - 1) as nat;
        Space::Cut {
            feature,
            threshold: between(mins[feature as int], maxs[feature as int], draw),
            mass: 0,
            depth,
            left: Box::new(partition(cuts, at + 1, (depth + 1) as usize, below, mins, maxs)),
            right: Box::new(partition(cuts, at + 1 + cut_count(below), (depth + 1) as usize, below, mins, maxs)),
        }
    }
}

proof fn lemma_partition(cuts: Seq<(usize, Double)>, at: nat, depth: usize, levels: nat, mins: Seq<Double>, maxs: Seq<Double>)
    ensures
        space_within(partition(cuts, at, depth, levels, mins, maxs), 0),
        space_adds_up(partition(cuts, at, depth, levels, mins, maxs)),
        mass_of(partition(cuts, at, depth, levels, mins, maxs)) == 0,
    decreases levels,
{
    if levels > 0 {
        let below = (levels - 1) as nat;
        lemma_partition(cuts, at + 1, (depth + 1) as usize, below, mins, maxs);
        lemma_partition(cuts, at + 1 + cut_count(below), (depth + 1) as usize, below, mins, maxs);
    }
}

impl HsNode {
    fn grow(
        cuts: &Vec<(usize, Double)>,
        at: usize,
        depth: usize,
        max_depth: usize,
        mins: &Vec<Double>,
        maxs: &Vec<Double>,
    ) -> (r: (HsNode, usize))
        requires
            depth <= max_depth,
            at + cut_count((max_depth - depth) as nat) <= cuts@.len() <= usize::MAX,
            forall|k: int| 0 <= k < cuts@.len() ==> (#[trigger] cuts@[k]).0 < mins@.len(),
            mins@.len() == maxs@.len(),
        ensures
            r.0.space() == partition(cuts@, at as nat, depth, (max_depth - depth) as nat, mins@, maxs@),
            r.1 == at + cut_count((max_depth - depth) as nat),
        decreases max_depth - depth,
    {
        if depth >= max_depth {
            return (HsNode { feature: 0, threshold: zero(), mass: 0, depth, halves: None }, at);
        }
        let (feature, draw) = cuts[at];
        assert(cuts@[at as int].0 < mins@.len());
        let threshold: Double = between(mins[feature], maxs[feature], draw);
        let (left, next) = HsNode::grow(cuts, at + 1, depth + 1, max_depth, mins, maxs);
        let (right, end) = HsNode::grow(cuts, next, depth + 1, max_depth, mins, maxs);
        (HsNode { feature, threshold, mass: 0, depth, halves: Some((Box::new(left), Box::new(right))) }, end)
    }

    fn insert(&mut self, row: &Vec<Double>, Ghost(cap): Ghost<nat>)
        requires
            space_within(old(self).space(), cap),
            cap < u64::MAX,
        ensures
            final(self).space() == entered(old(self).space(), row@),
        decreases *old(self),
    {
        let ghost start = self.space();
        self.mass = self.mass + 1;
        let left: bool = cell_of(row, self.feature).le(self.threshold);
        match &mut self.halves {
            None => {},
            Some((l, r)) => {
                if left {
                    l.insert(row, Ghost(cap));
                } else {
                    r.insert(row, Ghost(cap));
                }
            },
        }
        assert(self.space() == entered(start, row@));
    }

    fn score(&self, row: &Vec<Double>, n_seen: u64) -> (r: Double)
        ensures
            r == space_score(self.space(), row@, n_seen),
        decreases self,
    {
        match &self.halves {
            None => rarity_of(self.mass, self.depth, n_seen),
            Some((l, r)) => {
                if cell_of(row, self.feature).le(self.threshold) {
                    if l.mass > 0 || l.halves.is_some() {
                        l.score(row, n_seen)
                    } else {
                        rarity_of(self.mass, self.depth, n_seen)
                    }
                } else {
                    if r.mass > 0 || r.halves.is_some() {
                        r.score(row, n_seen)
                    } else {
                        rarity_of(self.mass, self.depth, n_seen)
                    }
                }
            },
        }
    }
}

/// Random partitions that score how rare a row is.
#[derive(Debug)]
pub struct HalfSpaceTrees {
    /// Number of partitions.
    pub n_trees: usize,
    /// Levels of cuts.
    pub max_depth: usize,
    /// The partitions.
    pub trees: Vec<HsNode>,
    /// Lower bounds of the columns.
    pub mins: Vec<Double>,
    /// Upper bounds of the columns.
    pub maxs: Vec<Double>,
    /// Rows taken in.
    pub n_seen: u64,
    /// Batches taken in.
    pub updates: u64,
    /// Whether the partitions are made.
    pub initialized: bool,
}

/// Lower bounds with room to spare.
pub open spec fn padded_lows(x: Batch) -> Seq<Double> {
    Seq::new(x.width as nat, |j: int| padded(lows(x)[j], highs(x)[j]).0)
}

/// Upper bounds with room to spare.
pub open spec fn padded_highs(x: Batch) -> Seq<Double> {
    Seq::new(x.width as nat, |j: int| padded(lows(x)[j], highs(x)[j]).1)
}

/// The spaces of a list of partitions.
pub open spec fn spaces(trees: Seq<HsNode>) -> Seq<Space> {
    Seq::new(trees.len(), |t: int| trees[t].space())
}

/// A partition after the first `k` rows.
pub open spec fn space_after(s: Space, x: Batch, k: nat) -> Space
    decreases k,
{
    if k == 0 {
        s
    } else {
        entered(space_after(s, x, (k - 1) as nat), x.rows[k - 1])
    }
}

/// Every row of a batch is counted once in the whole, and halves keep adding up.
pub proof fn law_every_row_is_counted(s: Space, x: Batch, k: nat, cap: nat)
    requires
        space_adds_up(s),
        space_within(s, cap),
    ensures
        space_adds_up(space_after(s, x, k)),
        mass_of(space_after(s, x, k)) == mass_of(s) + k,
        space_within(space_after(s, x, k), cap + k),
    decreases k,
{
    if k > 0 {
        law_every_row_is_counted(s, x, (k - 1) as nat, cap);
        law_masses_add_up(space_after(s, x, (k - 1) as nat), x.rows[k - 1]);
        lemma_entered_within(space_after(s, x, (k - 1) as nat), x.rows[k - 1], (cap + (k - 1)) as nat);
    }
}

impl Default for HalfSpaceTrees {
    fn default() -> (r: HalfSpaceTrees)
        ensures
            r.blank(10, 8),
    {
        HalfSpaceTrees::new(10, 8)
    }
}

impl HalfSpaceTrees {
    /// The state before any row.
    pub open spec fn blank(&self, n_trees: usize, max_depth: usize) -> bool {
        &&& self.n_trees == n_trees
        &&& self.max_depth == max_depth
        &&& self.trees@.len() == 0
        &&& self.mins@.len() == 0
        &&& self.maxs@.len() == 0
        &&& self.n_seen == 0
        &&& self.updates == 0
        &&& !self.initialized
    }

    /// The masses add up, and the root of each partition counts every row.
    pub open spec fn wf(&self) -> bool {
        &&& self.mins@.len() == self.maxs@.len()
        &&& forall|t: int|
            0 <= t < self.trees@.len() ==> {
                &&& space_adds_up((#[trigger] self.trees@[t]).space())
                &&& space_within(self.trees@[t].space(), self.n_seen as nat)
                &&& mass_of(self.trees@[t].space()) == self.n_seen
            }
    }

    /// `n_trees` partitions with `max_depth` levels of cuts.
    pub fn new(n_trees: usize, max_depth: usize) -> (r: HalfSpaceTrees)
        ensures
            r.blank(at_least_one_member(n_trees), at_least_one_member(max_depth)),
            r.wf(),
    {
        HalfSpaceTrees {
            n_trees: if n_trees < 1 {
                1
            } else {
                n_trees
            },
            max_depth: if max_depth < 1 {
                1
            } else {
                max_depth
            },
            trees: Vec::new(),
            mins: Vec::new(),
            maxs: Vec::new(),
            n_seen: 0,
            updates: 0,
            initialized: false,
        }
    }

    /// Why a batch is turned away.
    pub open spec fn refusal(&self, x: Batch) -> Option<IssueCode> {
        if x.width == 0 || x.height() == 0 {
            Some(IssueCode::PartialFitBeforeInit)
        } else if self.initialized && self.mins@.len() != x.width {
            Some(IssueCode::FeatureSpaceChangedOnline)
        } else {
            None
        }
    }

    /// The partitions that a batch starts with. New ones take their cuts in order.
    pub open spec fn start(&self, x: Batch, cuts: Seq<(usize, Double)>) -> Seq<Space> {
        if self.initialized {
            spaces(self.trees@)
        } else {
            Seq::new(
                self.n_trees as nat,
                |t: int|
                    partition(
                        cuts,
                        (t * cut_count(self.max_depth as nat)) as nat,
                        0,
                        self.max_depth as nat,
                        padded_lows(x),
                        padded_highs(x),
                    ),
            )
        }
    }

    /// What a batch does.
    pub open spec fn answers(&self, after: &HalfSpaceTrees, x: &Matrix, cuts: Seq<(usize, Double)>, r: &Update) -> bool {
        match self.refusal(x@) {
            Some(code) => {
                &&& *after == *self
                &&& reports(
                    r,
                    IncrementalQuality::new(self.updates, x.height() as usize, self.n_seen),
                    seq![issue(code)],
                    false,
                )
            },
            None => {
                let start = self.start(x@, cuts);
                let rows = Double::from_usize(x.height() as usize);
                &&& after.n_trees == self.n_trees
                &&& after.max_depth == self.max_depth
                &&& after.mins@ == if self.initialized {
                    self.mins@
                } else {
                    padded_lows(x@)
                }
                &&& after.maxs@ == if self.initialized {
                    self.maxs@
                } else {
                    padded_highs(x@)
                }
                &&& spaces(after.trees@) == Seq::new(start.len(), |t: int| space_after(start[t], x@, x.height()))
                &&& after.n_seen == self.n_seen + x.height()
                &&& after.updates == self.updates + 1
                &&& after.initialized
                &&& reports(
                    r,
                    IncrementalQuality {
                        effective_sample_size: Double::from_u64(after.n_seen),
                        parameter_delta_norm: Some(rows),
                        information_gain: Some(rows),
                        still_identified: after.n_seen > 4,
                        warmup: after.n_seen < 4,
                        ..IncrementalQuality::new(self.updates, x.height() as usize, after.n_seen)
                    },
                    given(after.n_seen < 4, IssueCode::WarmupIncomplete),
                    false,
                )
            },
        }
    }

    fn plant(&mut self, x: &Matrix, cuts: &Vec<(usize, Double)>)
        requires
            x.wf(),
            old(self).wf(),
            !old(self).initialized,
            old(self).n_seen == 0,
            old(self).n_trees * cut_count(old(self).max_depth as nat) <= cuts@.len(),
            forall|k: int| 0 <= k < cuts@.len() ==> (#[trigger] cuts@[k]).0 < x.width,
        ensures
            final(self).wf(),
            final(self).initialized,
            final(self).mins@ == padded_lows(x@),
            final(self).maxs@ == padded_highs(x@),
            spaces(final(self).trees@) == old(self).start(x@, cuts@),
            final(self).n_trees == old(self).n_trees,
            final(self).max_depth == old(self).max_depth,
            final(self).n_seen == old(self).n_seen,
            final(self).updates == old(self).updates,
    {
        let (low, high) = find_bounds(x);
        let mut mins: Vec<Double> = Vec::new();
        let mut maxs: Vec<Double> = Vec::new();
        let mut j: usize = 0;
        while j < x.ncols()
            invariant
                j <= x.width,
                low@ == lows(x@),
                high@ == highs(x@),
                mins@ == padded_lows(x@).take(j as int),
                maxs@ == padded_highs(x@).take(j as int),
            decreases x.width - j,
        {
            let (a, b) = padded(low[j], high[j]);
            mins.push(a);
            maxs.push(b);
            j = j + 1;
            assert(mins@ =~= padded_lows(x@).take(j as int));
            assert(maxs@ =~= padded_highs(x@).take(j as int));
        }
        assert(mins@ =~= padded_lows(x@));
        assert(maxs@ =~= padded_highs(x@));
        let stock: usize = cuts.len();
        let ghost c = cut_count(self.max_depth as nat);
        let mut trees: Vec<HsNode> = Vec::new();
        let mut at: usize = 0;
        let mut t: usize = 0;
        while t < self.n_trees
            invariant
                t <= self.n_trees,
                self.n_trees == old(self).n_trees,
                self.max_depth == old(self).max_depth,
                c == cut_count(self.max_depth as nat),
                self.n_trees * c <= cuts@.len(),
                stock == cuts@.len(),
                at == t * c,
                mins@ == padded_lows(x@),
                maxs@ == padded_highs(x@),
                mins@.len() == x.width,
                forall|k: int| 0 <= k < cuts@.len() ==> (#[trigger] cuts@[k]).0 < x.width,
                trees@.len() == t,
                forall|k: int|
                    0 <= k < t ==> (#[trigger] trees@[k]).space() == partition(
                        cuts@,
                        (k * c) as nat,
                        0,
                        self.max_depth as nat,
                        padded_lows(x@),
                        padded_highs(x@),
                    ),
            decreases self.n_trees - t,
        {
            proof {
                assert((t + 1) * c <= self.n_trees * c) by (nonlinear_arith)
                    requires
                        t + 1 <= self.n_trees,
                        c >= 0,
                ;
                assert((t + 1) * c == t * c + c) by (nonlinear_arith);
            }
            let (node, next) = HsNode::grow(cuts, at, 0, self.max_depth, &mins, &maxs);
            trees.push(node);
            at = next;
            t = t + 1;
        }
        self.trees = trees;
        self.mins = mins;
        self.maxs = maxs;
        self.initialized = true;
        assert(spaces(self.trees@) =~= old(self).start(x@, cuts@));
        assert forall|t: int| 0 <= t < self.trees@.len() implies {
            &&& space_adds_up((#[trigger] self.trees@[t]).space())
            &&& space_within(self.trees@[t].space(), self.n_seen as nat)
            &&& mass_of(self.trees@[t].space()) == self.n_seen
        } by {
            lemma_partition(cuts@, (t * c) as nat, 0, self.max_depth as nat, padded_lows(x@), padded_highs(x@));
        }
    }

    /// Takes in a batch, unless it is empty or its column count does not fit. For the
    /// first batch `cuts` holds, for each cut, a random column and a uniform draw that
    /// places the threshold between the bounds of the column.
    pub fn partial_fit(&mut self, x: &Matrix, _y: Option<&Vec<Double>>, cuts: &Vec<(usize, Double)>) -> (r: Update)
        requires
            x.wf(),
            old(self).wf(),
            old(self).n_seen + x.height() <= u64::MAX,
            old(self).updates < u64::MAX,
            !old(self).initialized && old(self).refusal(x@) is None ==> {
                &&& old(self).n_seen == 0
                &&& old(self).n_trees * cut_count(old(self).max_depth as nat) <= cuts@.len()
                &&& forall|k: int| 0 <= k < cuts@.len() ==> (#[trigger] cuts@[k]).0 < x.width
            },
        ensures
            final(self).wf(),
            old(self).answers(final(self), x, cuts@, &r),
    {
        let n: usize = x.nrows();
        let mut issues: Vec<Issue> = Vec::new();
        if x.ncols() == 0 || n == 0 {
            issues.push(issue(IssueCode::PartialFitBeforeInit));
            assert(issues@ =~= seq![issue(IssueCode::PartialFitBeforeInit)]);
            return rejection(self.updates, n, self.n_seen, issues);
        }
        if self.initialized && self.mins.len() != x.ncols() {
            issues.push(issue(IssueCode::FeatureSpaceChangedOnline));
            assert(issues@ =~= seq![issue(IssueCode::FeatureSpaceChangedOnline)]);
            return rejection(self.updates, n, self.n_seen, issues);
        }
        let ghost start = self.start(x@, cuts@);
        if !self.initialized {
            self.plant(x, cuts);
        }
        assert(spaces(self.trees@) =~= start);
        let ghost ready = *self;
        let k: usize = self.trees.len();
        let mut i: usize = 0;
        while i < n
            invariant
                i <= n,
                n == x.height(),
                x.wf(),
                k == self.trees@.len(),
                k == start.len(),
                ready.wf(),
                spaces(ready.trees@) == start,
                ready.n_seen + n <= u64::MAX,
                *self == (HalfSpaceTrees { trees: self.trees, ..ready }),
                forall|t: int| 0 <= t < k ==> (#[trigger] self.trees@[t]).space() == space_after(start[t], x@, i as nat),
            decreases n - i,
        {
            assert(x@.rows[i as int] == x.rows@[i as int]@);
            let mut t: usize = 0;
            while t < k
                invariant
                    t <= k,
                    i < n,
                    n == x.height(),
                    x.wf(),
                    x@.rows[i as int] == x.rows@[i as int]@,
                    k == self.trees@.len(),
                    k == start.len(),
                    ready.wf(),
                    spaces(ready.trees@) == start,
                    ready.n_seen + n <= u64::MAX,
                    *self == (HalfSpaceTrees { trees: self.trees, ..ready }),
                    forall|a: int|
                        t <= a < k ==> (#[trigger] self.trees@[a]).space() == space_after(start[a], x@, i as nat),
                    forall|a: int|
                        0 <= a < t ==> (#[trigger] self.trees@[a]).space() == space_after(start[a], x@, (i + 1) as nat),
                decreases k - t,
            {
                proof {
                    assert(spaces(ready.trees@)[t as int] == ready.trees@[t as int].space());
                    law_every_row_is_counted(start[t as int], x@, i as nat, ready.n_seen as nat);
                    assert(self.trees@[t as int].space() == space_after(start[t as int], x@, i as nat));
                }
                self.trees[t].insert(&x.rows[i], Ghost((ready.n_seen + i) as nat));
                t = t + 1;
            }
            i = i + 1;
        }
        assert(spaces(self.trees@) =~= Seq::new(start.len(), |t: int| space_after(start[t], x@, x.height())));
        self.n_seen = self.n_seen + n as u64;
        self.updates = self.updates + 1;
        assert forall|t: int| 0 <= t < self.trees@.len() implies {
            &&& space_adds_up((#[trigger] self.trees@[t]).space())
            &&& space_within(self.trees@[t].space(), self.n_seen as nat)
            &&& mass_of(self.trees@[t].space()) == self.n_seen
        } by {
            assert(spaces(ready.trees@)[t] == ready.trees@[t].space());
            assert(space_adds_up(ready.trees@[t].space()));
            law_every_row_is_counted(start[t], x@, n as nat, ready.n_seen as nat);
        }
        raise(&mut issues, self.n_seen < 4, IssueCode::WarmupIncomplete);
        assert(issues@ =~= given(self.n_seen < 4, IssueCode::WarmupIncomplete));
        let rows: Double = Double::from_usize(n);
        let quality = IncrementalQuality {
            effective_sample_size: Double::from_u64(self.n_seen),
            parameter_delta_norm: Some(rows),
            information_gain: Some(rows),
            still_identified: self.n_seen > 4,
            warmup: self.n_seen < 4,
            ..IncrementalQuality::new(self.updates - 1, n, self.n_seen)
        };
        plain_report(quality, issues)
    }

    /// Sum of the scores of the first `k` partitions.
    pub open spec fn score_sum(&self, row: Seq<Double>, k: nat) -> Double
        decreases k,
    {
        if k == 0 {
            zero()
        } else {
            self.score_sum(row, (k - 1) as nat).plus(space_score(self.trees@[k - 1].space(), row, self.n_seen))
        }
    }

    /// Mean score of a row, zero before the first row.
    pub open spec fn score(&self, row: Seq<Double>) -> Double {
        if self.n_seen == 0 || self.trees@.len() == 0 {
            zero()
        } else {
            self.score_sum(row, self.trees@.len()).over(Double::from_usize(self.trees@.len() as usize))
        }
    }

    fn score_one(&self, row: &Vec<Double>) -> (r: Double)
        ensures
            r == self.score(row@),
    {
        if self.n_seen == 0 || self.trees.len() == 0 {
            return zero();
        }
        let mut s: Double = zero();
        let mut t: usize = 0;
        while t < self.trees.len()
            invariant
                t <= self.trees@.len(),
                s == self.score_sum(row@, t as nat),
            decreases self.trees@.len() - t,
        {
            s = s.plus(self.trees[t].score(row, self.n_seen));
            t = t + 1;
        }
        s.over(Double::from_usize(self.trees.len()))
    }

    /// The score of each row, or zeros before the first batch. A high score is rare.
    pub fn predict(&self, x: &Matrix) -> (out: Qualified<Vec<Double>>)
        ensures
            if !self.initialized {
                &&& out.value@ == zero_seq(x.height())
                &&& out.report@ == seq![issue(IssueCode::PartialFitBeforeInit)]
            } else {
                &&& out.value@ == Seq::new(x.height(), |i: int| self.score(x@.rows[i]))
                &&& out.report@.len() == 0
            },
    {
        if !self.initialized {
            return unready(x.nrows());
        }
        let mut value: Vec<Double> = Vec::new();
        let mut i: usize = 0;
        while i < x.nrows()
            invariant
                i <= x.height(),
                value@ == Seq::new(i as nat, |i: int| self.score(x@.rows[i])),
            decreases x.height() - i,
        {
            assert(x@.rows[i as int] == x.rows@[i as int]@);
            value.push(self.score_one(&x.rows[i]));
            i = i + 1;
            assert(value@ =~= Seq::new(i as nat, |i: int| self.score(x@.rows[i])));
        }
        Qualified { value, report: Vec::new() }
    }
}

/// Random cuts whose combined sides name a cell; rare cells score high.
#[derive(Clone, Debug)]
pub struct OnlineIsolationForest {
    /// Number of cut lists.
    pub n_trees: usize,
    /// Cuts in a list.
    pub max_depth: usize,
    /// The cut lists: column and threshold.
    pub trees: Vec<Vec<(usize, Double)>>,
    /// Rows in each cell, by list.
    pub masses: Vec<Table<u64>>,
    /// Lower bounds of the columns.
    pub mins: Vec<Double>,
    /// Upper bounds of the columns.
    pub maxs: Vec<Double>,
    /// Rows taken in.
    pub n_seen: u64,
    /// Batches taken in.
    pub updates: u64,
    /// Whether the cuts are made.
    pub initialized: bool,
}

/// The cell of a row over the first `k` cuts: bit `b` is set if the row lies above
/// cut `b`.
pub open spec fn cell_key(cuts: Seq<(usize, Double)>, row: Seq<Double>, k: nat) -> u32
    decreases k,
{
    if k == 0 {
        0
    } else {
        let before = cell_key(cuts, row, (k - 1) as nat);
        if cell(row, cuts[k - 1].0).gt(cuts[k - 1].1) {
            before | (1u32 << ((k - 1) as u32))
        } else {
            before
        }
    }
}

/// The cell of a row.
pub open spec fn cell_of_row(cuts: Seq<(usize, Double)>, row: Seq<Double>) -> u32 {
    cell_key(cuts, row, cuts.len())
}

fn path_key(cuts: &Vec<(usize, Double)>, row: &Vec<Double>) -> (key: u32)
    requires
        cuts@.len() <= 32,
    ensures
        key == cell_of_row(cuts@, row@),
{
    let mut key: u32 = 0;
    let mut bit: usize = 0;
    while bit < cuts.len()
        invariant
            bit <= cuts@.len(),
            cuts@.len() <= 32,
            key == cell_key(cuts@, row@, bit as nat),
        decreases cuts@.len() - bit,
    {
        let (j, threshold) = cuts[bit];
        if cell_of(row, j).gt(threshold) {
            key = key | (1u32 << (bit as u32));
        }
        bit = bit + 1;
    }
    key
}

/// Rows that a table holds for a cell.
pub open spec fn cell_mass(t: Table<u64>, key: u32) -> u64 {
    match t.find(key as i64) {
        Some(n) => n,
        None => 0,
    }
}

/// Rows among the first `k` that lie in a cell.
pub open spec fn rows_in_cell(cuts: Seq<(usize, Double)>, x: Batch, key: u32, k: nat) -> nat
    decreases k,
{
    if k == 0 {
        0
    } else {
        rows_in_cell(cuts, x, key, (k - 1) as nat) + if cell_of_row(cuts, x.rows[k - 1]) == key {
            1nat
        } else {
            0nat
        }
    }
}

/// The lower bound of a column, zero if there is no such column.
pub open spec fn low_at(mins: Seq<Double>, j: usize) -> Double {
    if j < mins.len() {
        mins[j as int]
    } else {
        zero()
    }
}

/// The upper bound of a column, one if there is no such column.
pub open spec fn high_at(maxs: Seq<Double>, j: usize) -> Double {
    if j < maxs.len() {
        maxs[j as int]
    } else {
        one()
    }
}

/// The cut lists made from random columns and draws.
pub open spec fn cut_lists(picks: &Vec<Vec<(usize, Double)>>, p: usize, mins: Seq<Double>, maxs: Seq<Double>) -> Seq<Seq<(usize, Double)>> {
    Seq::new(
        picks@.len(),
        |t: int|
            Seq::new(
                picks@[t]@.len(),
                |d: int|
                    {
                        let j: usize = if p == 0 {
                            0
                        } else {
                            picks@[t]@[d].0
                        };
                        (j, between(low_at(mins, j), high_at(maxs, j), picks@[t]@[d].1))
                    },
            ),
    )
}

impl Default for OnlineIsolationForest {
    fn default() -> (r: OnlineIsolationForest)
        ensures
            r.blank(4, 4),
    {
        OnlineIsolationForest::new(4, 4)
    }
}

impl OnlineIsolationForest {
    /// The state before any row.
    pub open spec fn blank(&self, n_trees: usize, max_depth: usize) -> bool {
        &&& self.n_trees == n_trees
        &&& self.max_depth == max_depth
        &&& self.trees@.len() == 0
        &&& self.masses@.len() == 0
        &&& self.mins@.len() == 0
        &&& self.maxs@.len() == 0
        &&& self.n_seen == 0
        &&& self.updates == 0
        &&& !self.initialized
    }

    /// Every list has its table, and no cell holds more than all rows.
    pub open spec fn wf(&self) -> bool {
        &&& self.masses@.len() == self.trees@.len()
        &&& forall|t: int| 0 <= t < self.trees@.len() ==> (#[trigger] self.trees@[t])@.len() <= 32
        &&& forall|t: int| 0 <= t < self.masses@.len() ==> (#[trigger] self.masses@[t]).wf()
        &&& forall|t: int, key: u32|
            0 <= t < self.masses@.len() ==> #[trigger] cell_mass(self.masses@[t], key) <= self.n_seen
    }

    /// The cut lists.
    pub open spec fn lists(&self) -> Seq<Seq<(usize, Double)>> {
        Seq::new(self.trees@.len(), |t: int| self.trees@[t]@)
    }

    /// `n_trees` lists of `max_depth` cuts.
    pub fn new(n_trees: usize, max_depth: usize) -> (r: OnlineIsolationForest)
        ensures
            r.blank(at_least_one_member(n_trees), at_least_one_member(max_depth)),
            r.wf(),
    {
        OnlineIsolationForest {
            n_trees: if n_trees < 1 {
                1
            } else {
                n_trees
            },
            max_depth: if max_depth < 1 {
                1
            } else {
                max_depth
            },
            trees: Vec::new(),
            masses: Vec::new(),
            mins: Vec::new(),
            maxs: Vec::new(),
            n_seen: 0,
            updates: 0,
            initialized: false,
        }
    }

    /// The cut lists that a batch starts with.
    pub open spec fn start(&self, x: Batch, picks: &Vec<Vec<(usize, Double)>>) -> Seq<Seq<(usize, Double)>> {
        if self.initialized {
            self.lists()
        } else {
            cut_lists(picks, x.width, lows(x), highs(x))
        }
    }

    /// Rows in a cell of list `t`; a new list has none.
    pub open spec fn mass(&self, t: int, key: u32) -> u64 {
        if self.initialized {
            cell_mass(self.masses@[t], key)
        } else {
            0
        }
    }

    /// What a batch does.
    pub open spec fn answers(&self, after: &OnlineIsolationForest, x: &Matrix, picks: &Vec<Vec<(usize, Double)>>, r: &Update) -> bool {
        let seen = shape_issues(x, None);
        if self.initialized && self.mins@.len() != x.width {
            &&& *after == *self
            &&& reports(
                r,
                IncrementalQuality::new(self.updates, x.height() as usize, self.n_seen),
                seen.push(issue(IssueCode::FeatureSpaceChangedOnline)),
                false,
            )
        } else {
            let lists = self.start(x@, picks);
            &&& after.n_trees == self.n_trees
            &&& after.max_depth == self.max_depth
            &&& after.mins@ == if self.initialized {
                self.mins@
            } else {
                lows(x@)
            }
            &&& after.maxs@ == if self.initialized {
                self.maxs@
            } else {
                highs(x@)
            }
            &&& after.lists() == lists
            &&& after.masses@.len() == lists.len()
            &&& forall|t: int, key: u32|
                0 <= t < lists.len() ==> #[trigger] cell_mass(after.masses@[t], key) == self.mass(t, key) + rows_in_cell(
                    lists[t],
                    x@,
                    key,
                    x.height(),
                )
            &&& after.n_seen == self.n_seen + x.height()
            &&& after.updates == self.updates + 1
            &&& after.initialized
            &&& reports(
                r,
                IncrementalQuality {
                    effective_sample_size: Double::from_u64(after.n_seen),
                    parameter_delta_norm: Some(zero()),
                    information_gain: Some(Double::from_usize(x.height() as usize)),
                    still_identified: after.n_seen >= 4,
                    warmup: after.n_seen < 4,
                    ..IncrementalQuality::new(self.updates, x.height() as usize, after.n_seen)
                },
                seen,
                true,
            )
        }
    }

    fn grow(&mut self, x: &Matrix, picks: &Vec<Vec<(usize, Double)>>)
        requires
            x.wf(),
            old(self).wf(),
            !old(self).initialized,
            forall|t: int| 0 <= t < picks@.len() ==> (#[trigger] picks@[t])@.len() <= 32,
        ensures
            final(self).wf(),
            final(self).initialized,
            final(self).lists() == old(self).start(x@, picks),
            forall|t: int, key: u32| 0 <= t < final(self).masses@.len() ==> #[trigger] cell_mass(final(self).masses@[t], key) == 0,
            final(self).n_trees == old(self).n_trees,
            final(self).max_depth == old(self).max_depth,
            final(self).n_seen == old(self).n_seen,
            final(self).updates == old(self).updates,
            final(self).mins@ == lows(x@),
            final(self).maxs@ == highs(x@),
    {
        let (mins, maxs) = find_bounds(x);
        let p: usize = x.ncols();
        let ghost want = cut_lists(picks, p, lows(x@), highs(x@));
        let mut trees: Vec<Vec<(usize, Double)>> = Vec::new();
        let mut masses: Vec<Table<u64>> = Vec::new();
        let mut t: usize = 0;
        while t < picks.len()
            invariant
                t <= picks@.len(),
                p == x.width,
                mins@ == lows(x@),
                maxs@ == highs(x@),
                want == cut_lists(picks, p, lows(x@), highs(x@)),
                forall|t: int| 0 <= t < picks@.len() ==> (#[trigger] picks@[t])@.len() <= 32,
                trees@.len() == t,
                masses@.len() == t,
                forall|a: int| 0 <= a < t ==> (#[trigger] trees@[a])@ == want[a],
                forall|a: int| 0 <= a < t ==> (#[trigger] masses@[a]).wf() && masses@[a].entries@.len() == 0,
            decreases picks@.len() - t,
        {
            let mut cuts: Vec<(usize, Double)> = Vec::new();
            let mut d: usize = 0;
            while d < picks[t].len()
                invariant
                    d <= picks@[t as int]@.len(),
                    t < picks@.len(),
                    p == x.width,
                    mins@ == lows(x@),
                    maxs@ == highs(x@),
                    want == cut_lists(picks, p, lows(x@), highs(x@)),
                    cuts@ == want[t as int].take(d as int),
                decreases picks@[t as int]@.len() - d,
            {
                let (column, draw) = picks[t][d];
                let j: usize = if p == 0 {
                    0
                } else {
                    column
                };
                let lo: Double = if j < mins.len() {
                    mins[j]
                } else {
                    zero()
                };
                let hi: Double = if j < maxs.len() {
                    maxs[j]
                } else {
                    one()
                };
                cuts.push((j, between(lo, hi, draw)));
                d = d + 1;
                assert(cuts@ =~= want[t as int].take(d as int));
            }
            assert(cuts@ =~= want[t as int]);
            trees.push(cuts);
            masses.push(Table::new());
            t = t + 1;
        }
        self.trees = trees;
        self.masses = masses;
        self.mins = mins;
        self.maxs = maxs;
        self.initialized = true;
        assert(self.lists() =~= want);
        assert forall|t: int| 0 <= t < self.trees@.len() implies (#[trigger] self.trees@[t])@.len() <= 32 by {
            assert(self.trees@[t]@ == want[t]);
            assert(picks@[t]@.len() <= 32);
        }
        assert forall|t: int, key: u32| 0 <= t < self.masses@.len() implies #[trigger] cell_mass(self.masses@[t], key)
            == 0 by {
            assert(self.masses@[t].entries@.len() == 0);
        }
    }

    fn count(&mut self, row: &Vec<Double>)
        requires
            old(self).wf(),
            old(self).n_seen < u64::MAX,
        ensures
            final(self).wf(),
            final(self).n_seen == old(self).n_seen + 1,
            final(self).masses@.len() == old(self).masses@.len(),
            *final(self) == (OnlineIsolationForest {
                masses: final(self).masses,
                n_seen: final(self).n_seen,
                ..*old(self)
            }),
            forall|t: int, key: u32|
                0 <= t < old(self).trees@.len() ==> #[trigger] cell_mass(final(self).masses@[t], key) == cell_mass(
                    old(self).masses@[t],
                    key,
                ) + if cell_of_row(old(self).trees@[t]@, row@) == key {
                    1nat
                } else {
                    0nat
                },
    {
        let ghost start = *self;
        let n: usize = self.trees.len();
        let mut t: usize = 0;
        while t < n
            invariant
                t <= n,
                n == self.trees@.len(),
                n == self.masses@.len(),
                start.wf(),
                start == *old(self),
                start.n_seen < u64::MAX,
                *self == (OnlineIsolationForest { masses: self.masses, ..start }),
                forall|a: int| 0 <= a < n ==> (#[trigger] self.trees@[a])@.len() <= 32,
                forall|a: int| 0 <= a < n ==> (#[trigger] self.masses@[a]).wf(),
                forall|a: int| t <= a < n ==> #[trigger] self.masses@[a] == start.masses@[a],
                forall|a: int, key: u32|
                    0 <= a < t ==> #[trigger] cell_mass(self.masses@[a], key) == cell_mass(start.masses@[a], key)
                        + if cell_of_row(start.trees@[a]@, row@) == key {
                        1nat
                    } else {
                        0nat
                    },
            decreases n - t,
        {
            let key: u32 = path_key(&self.trees[t], row);
            assert(self.masses@[t as int] == start.masses@[t as int]);
            assert(cell_mass(start.masses@[t as int], key) <= start.n_seen);
            let held: u64 = match self.masses[t].get(key as i64) {
                Some(m) => m,
                None => 0,
            };
            let ghost before = self.masses@;
            self.masses[t].put(key as i64, held + 1);
            assert forall|other: u32| #[trigger] cell_mass(self.masses@[t as int], other) == cell_mass(
                start.masses@[t as int],
                other,
            ) + if cell_of_row(start.trees@[t as int]@, row@) == other {
                1nat
            } else {
                0nat
            } by {
                if other != key {
                    assert(other as i64 != key as i64);
                    assert(self.masses@[t as int].find(other as i64) == before[t as int].find(other as i64));
                }
            }
            t = t + 1;
        }
        self.n_seen = self.n_seen + 1;
    }

    /// Takes in a batch, unless its column count does not fit. For the first batch
    /// `picks` holds, for each list and cut, a random column and a uniform draw that
    /// places the threshold between the bounds of the column.
    pub fn partial_fit(&mut self, x: &Matrix, _y: Option<&Vec<Double>>, picks: &Vec<Vec<(usize, Double)>>) -> (r: Update)
        requires
            x.wf(),
            old(self).wf(),
            old(self).n_seen + x.height() <= u64::MAX,
            old(self).updates < u64::MAX,
            !old(self).initialized ==> {
                &&& picks@.len() == at_least_one_member(old(self).n_trees)
                &&& at_least_one_member(old(self).max_depth) <= 32
                &&& forall|t: int|
                    0 <= t < picks@.len() ==> (#[trigger] picks@[t])@.len() == at_least_one_member(old(self).max_depth)
            },
        ensures
            final(self).wf(),
            old(self).answers(final(self), x, picks, &r),
    {
        let n: usize = x.nrows();
        let mut issues: Vec<Issue> = Vec::new();
        inspect_online_xy(&mut issues, x, None);
        assert(issues@ =~= shape_issues(x, None));
        if self.initialized && self.mins.len() != x.ncols() {
            issues.push(issue(IssueCode::FeatureSpaceChangedOnline));
            return rejection(self.updates, n, self.n_seen, issues);
        }
        let ghost lists = self.start(x@, picks);
        if !self.initialized {
            self.grow(x, picks);
        }
        let ghost ready = *self;
        assert(ready.lists() == lists);
        let mut i: usize = 0;
        while i < n
            invariant
                i <= n,
                n == x.height(),
                x.wf(),
                self.wf(),
                ready.lists() == lists,
                ready.masses@.len() == lists.len(),
                self.masses@.len() == lists.len(),
                self.n_seen == ready.n_seen + i,
                ready.n_seen + n <= u64::MAX,
                *self == (OnlineIsolationForest { masses: self.masses, n_seen: self.n_seen, ..ready }),
                forall|t: int, key: u32|
                    0 <= t < lists.len() ==> #[trigger] cell_mass(self.masses@[t], key) == cell_mass(
                        ready.masses@[t],
                        key,
                    ) + rows_in_cell(lists[t], x@, key, i as nat),
            decreases n - i,
        {
            assert(x@.rows[i as int] == x.rows@[i as int]@);
            let ghost before = *self;
            self.count(&x.rows[i]);
            assert forall|t: int, key: u32| 0 <= t < lists.len() implies #[trigger] cell_mass(self.masses@[t], key)
                == cell_mass(ready.masses@[t], key) + rows_in_cell(lists[t], x@, key, (i + 1) as nat) by {
                assert(ready.lists()[t] == ready.trees@[t]@);
                assert(cell_mass(before.masses@[t], key) == cell_mass(ready.masses@[t], key) + rows_in_cell(
                    lists[t],
                    x@,
                    key,
                    i as nat,
                ));
            }
            i = i + 1;
        }
        self.updates = self.updates + 1;
        let quality = IncrementalQuality {
            effective_sample_size: Double::from_u64(self.n_seen),
            parameter_delta_norm: Some(zero()),
            information_gain: Some(Double::from_usize(n)),
            still_identified: self.n_seen >= 4,
            warmup: self.n_seen < 4,
            ..IncrementalQuality::new(self.updates - 1, n, self.n_seen)
        };
        screened_report(quality, issues)
    }

    /// What list `t` says of a row: two to the power of minus the path length over its
    /// typical value.
    pub open spec fn list_score(&self, t: int, row: Seq<Double>, ln: Curve, pow: Surface) -> Double {
        let m = cell_mass(self.masses@[t], cell_of_row(self.trees@[t]@, row));
        let typical = ln(Double::from_u64(self.n_seen)).max(one());
        let path = Double::from_usize(self.trees@[t]@.len() as usize).plus(
            if m > 1 {
                ln(Double::from_u64(m))
            } else {
                zero()
            },
        );
        pow(two(), path.neg().over(typical))
    }

    /// Sum over the first `k` lists.
    pub open spec fn score_sum(&self, row: Seq<Double>, ln: Curve, pow: Surface, k: nat) -> Double
        decreases k,
    {
        if k == 0 {
            zero()
        } else {
            self.score_sum(row, ln, pow, (k - 1) as nat).plus(self.list_score(k - 1, row, ln, pow))
        }
    }

    /// Mean score of a row, one half before the first row.
    pub open spec fn score(&self, row: Seq<Double>, ln: Curve, pow: Surface) -> Double {
        if self.trees@.len() == 0 || self.n_seen == 0 {
            half()
        } else {
            self.score_sum(row, ln, pow, self.trees@.len()).over(Double::from_usize(self.trees@.len() as usize))
        }
    }

    /// Mean score of row `i`; higher is rarer. `ln` is the natural logarithm and `pow`
    /// raises its first argument to its second.
    pub fn score_row<F: Fn(Double) -> Double, P: Fn(Double, Double) -> Double>(
        &self,
        x: &Matrix,
        i: usize,
        ln: &F,
        pow: &P,
    ) -> (r: Double)
        requires
            i < x.height(),
            self.wf(),
            is_function(*ln),
            is_function_of_two(*pow),
        ensures
            r == self.score(x@.rows[i as int], curve(*ln), surface(*pow)),
    {
        assert(x@.rows[i as int] == x.rows@[i as int]@);
        if self.trees.len() == 0 || self.n_seen == 0 {
            return half();
        }
        let mut s: Double = zero();
        let mut t: usize = 0;
        while t < self.trees.len()
            invariant
                t <= self.trees@.len(),
                i < x.height(),
                self.wf(),
                is_function(*ln),
                is_function_of_two(*pow),
                s == self.score_sum(x.rows@[i as int]@, curve(*ln), surface(*pow), t as nat),
            decreases self.trees@.len() - t,
        {
            let key: u32 = path_key(&self.trees[t], &x.rows[i]);
            let m: u64 = match self.masses[t].get(key as i64) {
                Some(m) => m,
                None => 0,
            };
            let typical: Double = apply(ln, Double::from_u64(self.n_seen)).max(one());
            let path: Double = Double::from_usize(self.trees[t].len()).plus(
                if m > 1 {
                    apply(ln, Double::from_u64(m))
                } else {
                    zero()
                },
            );
            s = s.plus(apply_two(pow, two(), path.neg().over(typical)));
            t = t + 1;
        }
        s.over(Double::from_usize(self.trees.len()))
    }

    /// The score of each row.
    pub fn predict<F: Fn(Double) -> Double, P: Fn(Double, Double) -> Double>(&self, x: &Matrix, ln: &F, pow: &P) -> (out: Qualified<
        Vec<Double>,
    >)
        requires
            x.wf(),
            self.wf(),
            is_function(*ln),
            is_function_of_two(*pow),
        ensures
            out.value@ == Seq::new(x.height(), |i: int| self.score(x@.rows[i], curve(*ln), surface(*pow))),
            out.report@ == shape_issues(x, None),
    {
        let mut report: Vec<Issue> = Vec::new();
        inspect_online_xy(&mut report, x, None);
        assert(report@ =~= shape_issues(x, None));
        let mut value: Vec<Double> = Vec::new();
        let mut i: usize = 0;
        while i < x.nrows()
            invariant
                i <= x.height(),
                self.wf(),
                is_function(*ln),
                is_function_of_two(*pow),
                value@ == Seq::new(i as nat, |i: int| self.score(x@.rows[i], curve(*ln), surface(*pow))),
            decreases x.height() - i,
        {
            value.push(self.score_row(x, i, ln, pow));
            i = i + 1;
            assert(value@ =~= Seq::new(i as nat, |i: int| self.score(x@.rows[i], curve(*ln), surface(*pow))));
        }
        Qualified { value, report }
    }
}

/// What is known of a logarithm: finite, not negative and ascending on positive whole
/// numbers.
pub open spec fn is_log(ln: Curve) -> bool {
    &&& forall|n: u64|
        n > 0 ==> (#[trigger] ln(Double::from_u64(n))).is_finite() && zero().le(ln(Double::from_u64(n)))
    &&& forall|m: u64, n: u64|
        0 < m <= n ==> (#[trigger] ln(Double::from_u64(m))).le(#[trigger] ln(Double::from_u64(n)))
}

/// What is known of powers of two with exponents that are not positive: they lie
/// between zero and one and ascend.
pub open spec fn halves_down(pow: Surface) -> bool {
    &&& forall|z: Double| z.le(zero()) ==> zero().le(#[trigger] pow(two(), z)) && pow(two(), z).le(one())
    &&& forall|y: Double, z: Double|
        y.le(z) && z.le(zero()) ==> (#[trigger] pow(two(), y)).le(#[trigger] pow(two(), z))
}

/// The rows that share the cell of a row in list `t`.
pub open spec fn mass_at(f: &OnlineIsolationForest, t: int, row: Seq<Double>) -> u64 {
    cell_mass(f.masses@[t], cell_of_row(f.trees@[t]@, row))
}

/// The path length of a row in list `t`.
pub open spec fn path_at(f: &OnlineIsolationForest, t: int, row: Seq<Double>, ln: Curve) -> Double {
    let m = mass_at(f, t, row);
    Double::from_usize(f.trees@[t]@.len() as usize).plus(
        if m > 1 {
            ln(Double::from_u64(m))
        } else {
            zero()
        },
    )
}

proof fn lemma_paths_ascend(
    f: &OnlineIsolationForest,
    t: int,
    rare: Seq<Double>,
    common: Seq<Double>,
    ln: Curve,
)
    requires
        f.wf(),
        0 <= t < f.trees@.len(),
        is_log(ln),
        mass_at(f, t, rare) <= mass_at(f, t, common),
    ensures
        zero().le(path_at(f, t, rare, ln)),
        path_at(f, t, rare, ln).le(path_at(f, t, common, ln)),
{
    let depth = Double::from_usize(f.trees@[t]@.len() as usize);
    let z = zero();
    assert(f.trees@[t]@.len() <= 32);
    lemma_whole_is_exact(f.trees@[t]@.len() as u64);
    lemma_zero();
    let a = if mass_at(f, t, rare) > 1 {
        ln(Double::from_u64(mass_at(f, t, rare)))
    } else {
        zero()
    };
    let b = if mass_at(f, t, common) > 1 {
        ln(Double::from_u64(mass_at(f, t, common)))
    } else {
        zero()
    };
    lemma_plus_is_monotone(depth, a, depth, b);
}

proof fn lemma_list_scores(
    f: &OnlineIsolationForest,
    t: int,
    rare: Seq<Double>,
    common: Seq<Double>,
    ln: Curve,
    pow: Surface,
)
    requires
        f.wf(),
        0 <= t < f.trees@.len(),
        f.n_seen > 0,
        is_log(ln),
        halves_down(pow),
        mass_at(f, t, rare) <= mass_at(f, t, common),
    ensures
        zero().le(f.list_score(t, common, ln, pow)),
        f.list_score(t, common, ln, pow).le(f.list_score(t, rare, ln, pow)),
        f.list_score(t, rare, ln, pow).le(one()),
{
    let typical = ln(Double::from_u64(f.n_seen)).max(one());
    let z = zero();
    lemma_zero();
    lemma_one();
    assert(one().code() == 0x3ff0_0000_0000_0000);
    lemma_paths_ascend(f, t, rare, common, ln);
    let a = path_at(f, t, rare, ln);
    let b = path_at(f, t, common, ln);
    lemma_over_is_monotone(a, b, typical);
    lemma_over_is_monotone(b, b, typical);
    assert(f.list_score(t, rare, ln, pow) == pow(two(), a.neg().over(typical)));
    assert(f.list_score(t, common, ln, pow) == pow(two(), b.neg().over(typical)));
}

proof fn lemma_score_sums(
    f: &OnlineIsolationForest,
    rare: Seq<Double>,
    common: Seq<Double>,
    ln: Curve,
    pow: Surface,
    k: nat,
)
    requires
        f.wf(),
        k <= f.trees@.len() <= 0x20_0000_0000_0000,
        f.n_seen > 0,
        is_log(ln),
        halves_down(pow),
        forall|t: int| 0 <= t < f.trees@.len() ==> #[trigger] mass_at(f, t, rare) <= mass_at(f, t, common),
    ensures
        zero().le(f.score_sum(common, ln, pow, k)),
        f.score_sum(common, ln, pow, k).le(f.score_sum(rare, ln, pow, k)),
        f.score_sum(rare, ln, pow, k).le(Double::from_u64(k as u64)),
    decreases k,
{
    lemma_zero();
    lemma_one();
    assert(one().code() == 0x3ff0_0000_0000_0000);
    lemma_whole_is_exact(k as u64);
    if k > 0 {
        lemma_score_sums(f, rare, common, ln, pow, (k - 1) as nat);
        assert(mass_at(f, k - 1, rare) <= mass_at(f, k - 1, common));
        lemma_list_scores(f, k - 1, rare, common, ln, pow);
        lemma_whole_is_exact((k - 1) as u64);
        let (a, b) = (f.score_sum(rare, ln, pow, (k - 1) as nat), f.list_score(k - 1, rare, ln, pow));
        let (c, d) = (f.score_sum(common, ln, pow, (k - 1) as nat), f.list_score(k - 1, common, ln, pow));
        lemma_plus_is_monotone(c, d, a, b);
        lemma_plus_is_monotone(a, b, Double::from_u64((k - 1) as u64), one());
        lemma_wholes_add((k - 1) as u64, 1);
    }
}

/// Before any row is taken in, every row scores one half.
pub proof fn law_score_before_any_row(f: &OnlineIsolationForest, row: Seq<Double>, ln: Curve, pow: Surface)
    requires
        f.n_seen == 0,
    ensures
        f.score(row, ln, pow) == half(),
{
}

/// A score lies between zero and one, and a row whose cells hold no more rows than those
/// of another one in every list scores at least as high.
pub proof fn law_rarer_rows_score_higher(
    f: &OnlineIsolationForest,
    rare: Seq<Double>,
    common: Seq<Double>,
    ln: Curve,
    pow: Surface,
)
    requires
        f.wf(),
        f.trees@.len() <= 0x20_0000_0000_0000,
        is_log(ln),
        halves_down(pow),
        forall|t: int| 0 <= t < f.trees@.len() ==> #[trigger] mass_at(f, t, rare) <= mass_at(f, t, common),
    ensures
        zero().le(f.score(common, ln, pow)),
        f.score(common, ln, pow).le(f.score(rare, ln, pow)),
        f.score(rare, ln, pow).le(one()),
{
    lemma_zero();
    lemma_one();
    let n = f.trees@.len();
    assert(n == f.trees.len());
    if n > 0 && f.n_seen > 0 {
        lemma_score_sums(f, rare, common, ln, pow, n);
        lemma_whole_is_exact(n as u64);
        let d = Double::from_u64(n as u64);
        let (a, c) = (f.score_sum(rare, ln, pow, n), f.score_sum(common, ln, pow, n));
        lemma_mean_is_at_most_one(a, n as u64);
        lemma_positive_whole(n as u64);
        lemma_over_is_monotone(c, a, d);
        assert(f.score(common, ln, pow) == c.over(d));
        assert(f.score(rare, ln, pow) == a.over(d));
    } else {
        assert(f.score(common, ln, pow) == half());
        assert(half().code() == 0x3fe0_0000_0000_0000);
        assert(!half().negative());
        assert(one().code() == 0x3ff0_0000_0000_0000);
    }
}

} // verus!
