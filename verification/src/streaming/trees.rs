//! Leaves for classification and regression, and the trees built on them.

use crate::constants::{half, neg_one, ten_to_minus_18, two};
use crate::double::{one, zero, Double};
use crate::functions::{apply, curve, is_function, Curve};
use crate::streaming::columns::copy_columns;
use crate::streaming::hoeffding::{
    bound_for, gini_counts, hoeffding_bound, Gauss, Grower, Race, SplitNote, SplitRule, TreeLeaf,
};
use vstd::prelude::*;

verus! {

/// Class counts of a leaf with the spread of each column within each class.
#[derive(Clone, Debug)]
pub struct HtLeaf {
    /// Identifier.
    pub id: u64,
    /// Rows.
    pub n: u64,
    /// Rows of the positive class.
    pub n_pos: u64,
    /// Rows of the negative class.
    pub n_neg: u64,
    /// Columns within the negative class.
    pub feat_neg: Vec<Gauss>,
    /// Columns within the positive class.
    pub feat_pos: Vec<Gauss>,
}

/// The state of a classifying leaf.
pub struct HtState {
    /// Identifier.
    pub id: u64,
    /// Rows.
    pub n: nat,
    /// Rows of the positive class.
    pub n_pos: nat,
    /// Rows of the negative class.
    pub n_neg: nat,
    /// Columns within the negative class.
    pub neg: Seq<Gauss>,
    /// Columns within the positive class.
    pub pos: Seq<Gauss>,
}

/// Each column after one more row.
pub open spec fn pushed_all(s: Seq<Gauss>, row: Seq<Double>) -> Seq<Gauss> {
    Seq::new(s.len(), |j: int| s[j].pushed(row[j]))
}

fn push_all(s: &mut Vec<Gauss>, row: &Vec<Double>)
    requires
        old(s)@.len() == row@.len(),
    ensures
        final(s)@ == pushed_all(old(s)@, row@),
{
    let ghost start = s@;
    let mut j: usize = 0;
    while j < s.len()
        invariant
            j <= s@.len(),
            s@.len() == row@.len(),
            s@.len() == start.len(),
            forall|k: int| 0 <= k < j ==> #[trigger] s@[k] == start[k].pushed(row@[k]),
            forall|k: int| j <= k < s@.len() ==> #[trigger] s@[k] == start[k],
        decreases s@.len() - j,
    {
        let g: Gauss = s[j].pushed(row[j]);
        s.set(j, g);
        j = j + 1;
    }
    assert(s@ =~= pushed_all(start, row@));
}

/// `n` times an empty spread.
pub open spec fn fresh_all(n: nat) -> Seq<Gauss> {
    Seq::new(n, |j: int| Gauss::fresh())
}

fn sprout_all(n: usize) -> (r: Vec<Gauss>)
    ensures
        r@ == fresh_all(n as nat),
{
    let mut r: Vec<Gauss> = Vec::new();
    let mut j: usize = 0;
    while j < n
        invariant
            j <= n,
            r@ == fresh_all(j as nat),
        decreases n - j,
    {
        r.push(Gauss::fresh());
        j = j + 1;
        assert(r@ =~= fresh_all(j as nat));
    }
    r
}

impl HtState {
    /// Gini gain of a test on column `j` at `t`, with each class spread as a normal
    /// law. Minus one where a side would hold at most one row.
    pub open spec fn gain_at(self, j: int, t: Double, cdf: Curve) -> Double {
        let n_neg = Double::from_u64(self.n_neg as u64);
        let n_pos = Double::from_u64(self.n_pos as u64);
        let left_neg = n_neg.times(cdf(t.minus(self.neg[j].mean).over(self.neg[j].deviation())));
        let left_pos = n_pos.times(cdf(t.minus(self.pos[j].mean).over(self.pos[j].deviation())));
        let right_neg = n_neg.minus(left_neg);
        let right_pos = n_pos.minus(left_pos);
        let n_l = left_neg.plus(left_pos);
        let n_r = right_neg.plus(right_pos);
        if n_l.le(one()) || n_r.le(one()) {
            neg_one()
        } else {
            gini_counts(n_neg, n_pos).minus(
                n_l.times(gini_counts(left_neg, left_pos)).plus(n_r.times(gini_counts(right_neg, right_pos))).over(
                    Double::from_u64(self.n as u64).max(one()),
                ),
            )
        }
    }

    /// The race with the candidate `t` of column `j`.
    pub open spec fn tried(self, race: Race, j: int, t: Double, cdf: Curve) -> Race {
        race.joined(j as usize, t, self.gain_at(j, t, cdf))
    }

    /// The race over the first `k` columns. Each brings the two class means and
    /// their midpoint.
    pub open spec fn race(self, cdf: Curve, k: nat) -> Race
        decreases k,
    {
        if k == 0 {
            Race::open()
        } else {
            let before = self.race(cdf, (k - 1) as nat);
            let a = self.neg[k - 1].mean;
            let b = self.pos[k - 1].mean;
            let first = self.tried(before, k - 1, a, cdf);
            let second = self.tried(first, k - 1, b, cdf);
            self.tried(second, k - 1, half().times(a.plus(b)), cdf)
        }
    }
}

proof fn lemma_race_feature(s: HtState, cdf: Curve, k: nat)
    requires
        k <= usize::MAX,
    ensures
        k > 0 ==> s.race(cdf, k).feature < k,
        k == 0 ==> s.race(cdf, k).feature == 0,
    decreases k,
{
    if k > 0 {
        lemma_race_feature(s, cdf, (k - 1) as nat);
    }
}

impl View for HtLeaf {
    type V = HtState;

    open spec fn view(&self) -> HtState {
        HtState {
            id: self.id,
            n: self.n as nat,
            n_pos: self.n_pos as nat,
            n_neg: self.n_neg as nat,
            neg: self.feat_neg@,
            pos: self.feat_pos@,
        }
    }
}

impl HtLeaf {
    fn gain_at<G: Fn(Double) -> Double>(&self, j: usize, t: Double, cdf: &G) -> (r: Double)
        requires
            j < self.feat_neg@.len(),
            j < self.feat_pos@.len(),
            is_function(*cdf),
        ensures
            r == self@.gain_at(j as int, t, curve(*cdf)),
    {
        let gn: Gauss = self.feat_neg[j];
        let gp: Gauss = self.feat_pos[j];
        let n_neg: Double = Double::from_u64(self.n_neg);
        let n_pos: Double = Double::from_u64(self.n_pos);
        let left_neg: Double = n_neg.times(apply(cdf, t.minus(gn.mean).over(gn.deviation())));
        let left_pos: Double = n_pos.times(apply(cdf, t.minus(gp.mean).over(gp.deviation())));
        let right_neg: Double = n_neg.minus(left_neg);
        let right_pos: Double = n_pos.minus(left_pos);
        let n_l: Double = left_neg.plus(left_pos);
        let n_r: Double = right_neg.plus(right_pos);
        if n_l.le(one()) || n_r.le(one()) {
            return neg_one();
        }
        gini_counts(n_neg, n_pos).minus(
            n_l.times(gini_counts(left_neg, left_pos)).plus(n_r.times(gini_counts(right_neg, right_pos))).over(
                Double::from_u64(self.n).max(one()),
            ),
        )
    }
}

impl TreeLeaf for HtLeaf {
    open spec fn fresh(id: u64, p: nat) -> HtState {
        HtState { id, n: 0, n_pos: 0, n_neg: 0, neg: fresh_all(p), pos: fresh_all(p) }
    }

    open spec fn width(s: HtState) -> nat {
        s.neg.len()
    }

    open spec fn within(s: HtState, cap: nat) -> bool {
        s.n <= cap && s.n_pos <= cap && s.n_neg <= cap
    }

    open spec fn fed(s: HtState, row: Seq<Double>, y: Double) -> HtState {
        if y.ge(half()) {
            HtState { n: s.n + 1, n_pos: s.n_pos + 1, pos: pushed_all(s.pos, row), ..s }
        } else {
            HtState { n: s.n + 1, n_neg: s.n_neg + 1, neg: pushed_all(s.neg, row), ..s }
        }
    }

    open spec fn verdict(
        s: HtState,
        rule: SplitRule,
        ln: Curve,
        cdf: Curve,
    ) -> Option<SplitNote> {
        let n = Double::from_u64(s.n as u64);
        let race = s.race(cdf, s.neg.len());
        let bound = hoeffding_bound(rule.delta, n, ln);
        if s.n < rule.min_samples || s.n_pos == 0 || s.n_neg == 0 || !race.decided(
            bound,
            rule.tau,
        ) {
            None
        } else {
            Some(SplitNote { leaf: s.id, feature: race.feature, threshold: race.threshold, gain: race.gain, bound, n })
        }
    }

    open spec fn answer(s: HtState) -> Double {
        if s.n_pos >= s.n_neg {
            one()
        } else {
            zero()
        }
    }

    open spec fn sound(&self) -> bool {
        self.feat_neg@.len() == self.feat_pos@.len()
    }

    proof fn lemma_fed(s: HtState, row: Seq<Double>, y: Double, cap: nat) {
    }

    proof fn lemma_fresh(id: u64, p: nat, cap: nat) {
    }

    proof fn lemma_verdict(
        s: HtState,
        rule: SplitRule,
        ln: Curve,
        cdf: Curve,
    ) {
        if s.neg.len() <= usize::MAX {
            lemma_race_feature(s, cdf, s.neg.len());
        }
    }

    fn sprout(id: u64, p: usize) -> (r: HtLeaf) {
        HtLeaf { id, n: 0, n_pos: 0, n_neg: 0, feat_neg: sprout_all(p), feat_pos: sprout_all(p) }
    }

    fn feed(&mut self, row: &Vec<Double>, y: Double, Ghost(cap): Ghost<nat>) {
        self.n = self.n + 1;
        if y.ge(half()) {
            self.n_pos = self.n_pos + 1;
            push_all(&mut self.feat_pos, row);
        } else {
            self.n_neg = self.n_neg + 1;
            push_all(&mut self.feat_neg, row);
        }
    }

    fn judge<F: Fn(Double) -> Double, G: Fn(Double) -> Double>(&self, rule: SplitRule, ln: &F, cdf: &G) -> (r: Option<
        SplitNote,
    >) {
        if self.n < rule.min_samples as u64 || self.n_pos == 0 || self.n_neg == 0 {
            return None;
        }
        let p: usize = self.feat_neg.len();
        let mut race: Race = Race::open();
        let mut j: usize = 0;
        while j < p
            invariant
                j <= p,
                p == self.feat_neg@.len(),
                p == self.feat_pos@.len(),
                is_function(*cdf),
                race == self@.race(curve(*cdf), j as nat),
            decreases p - j,
        {
            let a: Double = self.feat_neg[j].mean;
            let b: Double = self.feat_pos[j].mean;
            let c: Double = half().times(a.plus(b));
            race = race.joined(j, a, self.gain_at(j, a, cdf));
            race = race.joined(j, b, self.gain_at(j, b, cdf));
            race = race.joined(j, c, self.gain_at(j, c, cdf));
            j = j + 1;
        }
        let n: Double = Double::from_u64(self.n);
        let bound: Double = bound_for(rule.delta, n, ln);
        if race.decided(bound, rule.tau) {
            Some(SplitNote { leaf: self.id, feature: race.feature, threshold: race.threshold, gain: race.gain, bound, n })
        } else {
            None
        }
    }

    fn predict(&self) -> (r: Double) {
        if self.n_pos >= self.n_neg {
            one()
        } else {
            zero()
        }
    }

    fn columns(&self) -> (n: usize) {
        self.feat_neg.len()
    }

    fn duplicate(&self) -> (r: HtLeaf) {
        HtLeaf {
            id: self.id,
            n: self.n,
            n_pos: self.n_pos,
            n_neg: self.n_neg,
            feat_neg: copy_columns(&self.feat_neg),
            feat_pos: copy_columns(&self.feat_pos),
        }
    }
}

/// Targets on both sides of the running mean of a column.
#[derive(Clone, Copy, Debug, PartialEq, Eq, Structural)]
pub struct HrBin {
    /// The column.
    pub gx: Gauss,
    /// Targets of rows up to the mean.
    pub left: Gauss,
    /// Targets of rows above it.
    pub right: Gauss,
}

impl HrBin {
    /// No rows yet.
    #[verifier::allow_in_spec]
    pub fn fresh() -> (r: HrBin)
        returns
            (HrBin { gx: Gauss::fresh(), left: Gauss::fresh(), right: Gauss::fresh() }),
    {
        HrBin { gx: Gauss::fresh(), left: Gauss::fresh(), right: Gauss::fresh() }
    }

    /// After one more row.
    pub open spec fn spec_pushed(self, v: Double, y: Double) -> HrBin {
        let t = if self.gx.n.lt(one()) {
            v
        } else {
            self.gx.mean
        };
        if v.le(t) {
            HrBin { gx: self.gx.pushed(v), left: self.left.pushed(y), right: self.right }
        } else {
            HrBin { gx: self.gx.pushed(v), left: self.left, right: self.right.pushed(y) }
        }
    }

    /// After one more row.
    #[verifier::when_used_as_spec(spec_pushed)]
    pub fn pushed(self, v: Double, y: Double) -> (r: HrBin)
        ensures
            r == self.spec_pushed(v, y),
    {
        let t: Double = if self.gx.n.lt(one()) {
            v
        } else {
            self.gx.mean
        };
        if v.le(t) {
            HrBin { gx: self.gx.pushed(v), left: self.left.pushed(y), right: self.right }
        } else {
            HrBin { gx: self.gx.pushed(v), left: self.left, right: self.right.pushed(y) }
        }
    }
}

/// Spread of the targets in a leaf, and on both sides of each column's mean.
#[derive(Clone, Debug)]
pub struct HrLeaf {
    /// Identifier.
    pub id: u64,
    /// Targets.
    pub y: Gauss,
    /// One bin per column.
    pub bins: Vec<HrBin>,
}

/// The state of a regressing leaf.
pub struct HrState {
    /// Identifier.
    pub id: u64,
    /// Targets.
    pub y: Gauss,
    /// One bin per column.
    pub bins: Seq<HrBin>,
}

impl HrState {
    /// The race over the first `k` columns. A column takes part once both of its
    /// sides hold two targets.
    pub open spec fn race(self, k: nat) -> Race
        decreases k,
    {
        if k == 0 {
            Race::open()
        } else {
            let before = self.race((k - 1) as nat);
            let bin = self.bins[k - 1];
            if bin.left.n.lt(two()) || bin.right.n.lt(two()) {
                before
            } else {
                before.joined(
                    (k - 1) as usize,
                    bin.gx.mean,
                    self.y.var().minus(
                        bin.left.n.times(bin.left.var()).plus(bin.right.n.times(bin.right.var())).over(
                            self.y.n.max(one()),
                        ),
                    ),
                )
            }
        }
    }
}

proof fn lemma_bin_race_feature(s: HrState, k: nat)
    requires
        k <= usize::MAX,
    ensures
        k > 0 ==> s.race(k).feature < k,
        k == 0 ==> s.race(k).feature == 0,
    decreases k,
{
    if k > 0 {
        lemma_bin_race_feature(s, (k - 1) as nat);
    }
}

impl View for HrLeaf {
    type V = HrState;

    open spec fn view(&self) -> HrState {
        HrState { id: self.id, y: self.y, bins: self.bins@ }
    }
}

impl TreeLeaf for HrLeaf {
    open spec fn fresh(id: u64, p: nat) -> HrState {
        HrState { id, y: Gauss::fresh(), bins: Seq::new(p, |j: int| HrBin::fresh()) }
    }

    open spec fn width(s: HrState) -> nat {
        s.bins.len()
    }

    open spec fn within(s: HrState, cap: nat) -> bool {
        true
    }

    open spec fn fed(s: HrState, row: Seq<Double>, y: Double) -> HrState {
        HrState { y: s.y.pushed(y), bins: Seq::new(s.bins.len(), |j: int| s.bins[j].pushed(row[j], y)), ..s }
    }

    open spec fn verdict(
        s: HrState,
        rule: SplitRule,
        ln: Curve,
        cdf: Curve,
    ) -> Option<SplitNote> {
        let race = s.race(s.bins.len());
        let bound = hoeffding_bound(rule.delta, s.y.n.max(one()), ln);
        if s.y.n.truncate_to_u64() < rule.min_samples || s.y.var().le(ten_to_minus_18()) || !race.decided(bound, rule.tau) {
            None
        } else {
            Some(
                SplitNote {
                    leaf: s.id,
                    feature: race.feature,
                    threshold: race.threshold,
                    gain: race.gain,
                    bound,
                    n: s.y.n,
                },
            )
        }
    }

    open spec fn answer(s: HrState) -> Double {
        s.y.mean
    }

    open spec fn sound(&self) -> bool {
        true
    }

    proof fn lemma_fed(s: HrState, row: Seq<Double>, y: Double, cap: nat) {
    }

    proof fn lemma_fresh(id: u64, p: nat, cap: nat) {
    }

    proof fn lemma_verdict(
        s: HrState,
        rule: SplitRule,
        ln: Curve,
        cdf: Curve,
    ) {
        if s.bins.len() <= usize::MAX {
            lemma_bin_race_feature(s, s.bins.len());
        }
    }

    fn sprout(id: u64, p: usize) -> (r: HrLeaf) {
        let mut bins: Vec<HrBin> = Vec::new();
        let mut j: usize = 0;
        while j < p
            invariant
                j <= p,
                bins@ == Seq::new(j as nat, |k: int| HrBin::fresh()),
            decreases p - j,
        {
            bins.push(HrBin::fresh());
            j = j + 1;
            assert(bins@ =~= Seq::new(j as nat, |k: int| HrBin::fresh()));
        }
        let r = HrLeaf { id, y: Gauss::fresh(), bins };
        assert(r.bins@ =~= Self::fresh(id, p as nat).bins);
        r
    }

    fn feed(&mut self, row: &Vec<Double>, y: Double, Ghost(cap): Ghost<nat>) {
        let ghost start = self@;
        self.y = self.y.pushed(y);
        let mut j: usize = 0;
        while j < self.bins.len()
            invariant
                j <= self.bins@.len(),
                self.id == start.id,
                self.y == start.y.pushed(y),
                self.bins@.len() == row@.len(),
                self.bins@.len() == start.bins.len(),
                forall|k: int| 0 <= k < j ==> #[trigger] self.bins@[k] == start.bins[k].pushed(row@[k], y),
                forall|k: int| j <= k < self.bins@.len() ==> #[trigger] self.bins@[k] == start.bins[k],
            decreases self.bins@.len() - j,
        {
            let bin: HrBin = self.bins[j].pushed(row[j], y);
            self.bins.set(j, bin);
            j = j + 1;
        }
        assert(self.bins@ =~= Self::fed(start, row@, y).bins);
    }

    fn judge<F: Fn(Double) -> Double, G: Fn(Double) -> Double>(&self, rule: SplitRule, ln: &F, cdf: &G) -> (r: Option<
        SplitNote,
    >) {
        if self.y.n.truncate_to_u64() < rule.min_samples as u64 {
            return None;
        }
        let parent: Double = self.y.var();
        if parent.le(ten_to_minus_18()) {
            return None;
        }
        let p: usize = self.bins.len();
        let mut race: Race = Race::open();
        let mut j: usize = 0;
        while j < p
            invariant
                j <= p,
                p == self.bins@.len(),
                parent == self.y.var(),
                race == self@.race(j as nat),
            decreases p - j,
        {
            let bin: HrBin = self.bins[j];
            if !(bin.left.n.lt(two()) || bin.right.n.lt(two())) {
                let gain: Double = parent.minus(
                    bin.left.n.times(bin.left.var()).plus(bin.right.n.times(bin.right.var())).over(self.y.n.max(one())),
                );
                race = race.joined(j, bin.gx.mean, gain);
            }
            j = j + 1;
        }
        let bound: Double = bound_for(rule.delta, self.y.n.max(one()), ln);
        if race.decided(bound, rule.tau) {
            Some(
                SplitNote {
                    leaf: self.id,
                    feature: race.feature,
                    threshold: race.threshold,
                    gain: race.gain,
                    bound,
                    n: self.y.n,
                },
            )
        } else {
            None
        }
    }

    fn predict(&self) -> (r: Double) {
        self.y.mean
    }

    fn columns(&self) -> (n: usize) {
        self.bins.len()
    }

    fn duplicate(&self) -> (r: HrLeaf) {
        HrLeaf { id: self.id, y: self.y, bins: copy_columns(&self.bins) }
    }
}

/// Tree for two classes: a leaf holds class counts and predicts the majority.
pub type HoeffdingTree = Grower<HtLeaf>;

/// Tree for numbers: a leaf predicts the mean of its targets.
pub type HoeffdingRegressor = Grower<HrLeaf>;

} // verus!
