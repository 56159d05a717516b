//! Statistics of each column within each class, and the classifiers and rankings
//! built on them.

use crate::data::{Batch, Matrix};
use crate::double::{neg_infinity, one, zero, Double};
use crate::online::common::{inspect_online_xy, shape_issues, target};
use crate::quality::{issue, warning, IncrementalQuality, Issue, IssueCode, Update};
use crate::streaming::columns::{plain_report, rejection, reports, screened_report};
use crate::streaming::encoders::{find_slot, slot_of};
use vstd::prelude::*;

verus! {

/// Statistic of one column within one class.
pub trait ClassCell: Sized + Copy {
    /// No values yet.
    spec fn blank() -> Self;

    /// After the value `v` of the `n`-th row of the class.
    spec fn seen(self, n: Double, v: Double) -> Self;

    /// Whether the value is reported as unusable.
    spec fn objects(v: Double) -> bool;

    /// No values yet.
    fn start() -> (r: Self)
        ensures
            r == Self::blank(),
    ;

    /// After the value `v` of the `n`-th row of the class.
    fn see(self, n: Double, v: Double) -> (r: Self)
        ensures
            r == self.seen(n, v),
    ;

    /// Whether the value is reported as unusable.
    fn is_objected(v: Double) -> (r: bool)
        ensures
            r == Self::objects(v),
    ;
}

/// Classes in the order in which they were met, with their statistics.
#[derive(Clone, Debug)]
pub struct ClassBank<C> {
    /// Labels.
    pub classes: Vec<i64>,
    /// Rows of each class.
    pub n_per: Vec<Double>,
    /// One statistic per column for each class.
    pub cells: Vec<Vec<C>>,
    /// Columns that the statistics cover.
    pub width: usize,
    /// Labelled rows taken in.
    pub n_seen: u64,
    /// Batches taken in.
    pub updates: u64,
    /// Whether the column count is fixed.
    pub initialized: bool,
}

/// The state of a bank of classes.
pub struct ClassState<C> {
    /// Labels.
    pub classes: Seq<i64>,
    /// Rows of each class.
    pub n_per: Seq<Double>,
    /// One statistic per column for each class.
    pub cells: Seq<Seq<C>>,
    /// Columns that the statistics cover.
    pub width: usize,
    /// Labelled rows taken in.
    pub n_seen: nat,
    /// Batches taken in.
    pub updates: nat,
    /// Whether the column count is fixed.
    pub initialized: bool,
}

impl<C: ClassCell> View for ClassBank<C> {
    type V = ClassState<C>;

    open spec fn view(&self) -> ClassState<C> {
        ClassState {
            classes: self.classes@,
            n_per: self.n_per@,
            cells: Seq::new(self.cells@.len(), |c: int| self.cells@[c]@),
            width: self.width,
            n_seen: self.n_seen as nat,
            updates: self.updates as nat,
            initialized: self.initialized,
        }
    }
}

impl<C: ClassCell> ClassState<C> {
    /// No classes yet.
    pub open spec fn blank() -> ClassState<C> {
        ClassState {
            classes: Seq::empty(),
            n_per: Seq::empty(),
            cells: Seq::empty(),
            width: 0,
            n_seen: 0,
            updates: 0,
            initialized: false,
        }
    }

    /// The bank with a class for `label`, new ones at the end.
    pub open spec fn with_class(self, label: i64, width: usize) -> ClassState<C> {
        if slot_of(self.classes, label) < self.classes.len() {
            self
        } else {
            ClassState {
                classes: self.classes.push(label),
                n_per: self.n_per.push(zero()),
                cells: self.cells.push(Seq::new(width as nat, |j: int| C::blank())),
                width,
                initialized: true,
                ..self
            }
        }
    }

    /// The bank after one more row of class `c`.
    pub open spec fn counted(self, c: int, row: Seq<Double>) -> ClassState<C> {
        let n = self.n_per[c].plus(one());
        ClassState {
            n_per: self.n_per.update(c, n),
            cells: self.cells.update(c, Seq::new(row.len(), |j: int| self.cells[c][j].seen(n, row[j]))),
            n_seen: self.n_seen + 1,
            ..self
        }
    }

    /// The bank after one more row; one without a finite label is skipped.
    pub open spec fn shown(self, row: Seq<Double>, width: usize, y: Double) -> ClassState<C> {
        if !y.is_finite() {
            self
        } else {
            let label = y.round_to_i64();
            self.with_class(label, width).counted(slot_of(self.classes, label) as int, row)
        }
    }

    /// The bank after the first `k` rows.
    pub open spec fn after(self, x: Batch, y: Seq<Double>, k: nat) -> ClassState<C>
        decreases k,
    {
        if k == 0 {
            self
        } else {
            self.after(x, y, (k - 1) as nat).shown(x.rows[k - 1], x.width, y[k - 1])
        }
    }

    /// The bank after a batch that fits.
    pub open spec fn taught(self, x: Batch, y: Seq<Double>) -> ClassState<C> {
        ClassState { updates: self.updates + 1, ..self.after(x, y, x.height()) }
    }

    /// Whether a batch has the wrong number of columns.
    pub open spec fn misfits(self, x: Batch) -> bool {
        self.initialized && self.width != x.width
    }

    /// Quality figures after a batch.
    pub open spec fn figures(self, before: nat, batch: usize) -> IncrementalQuality {
        let added = Double::from_u64((self.n_seen - before) as u64);
        IncrementalQuality {
            effective_sample_size: Double::from_u64(self.n_seen as u64),
            parameter_delta_norm: Some(added),
            information_gain: Some(added),
            still_identified: self.classes.len() >= 2 && self.n_seen >= 2,
            warmup: self.n_seen < 4,
            ..IncrementalQuality::new((self.updates - 1) as u64, batch, self.n_seen as u64)
        }
    }
}

/// Unusable values in the first `k` columns of a row.
pub open spec fn objections_in<C: ClassCell>(row: Seq<Double>, k: nat) -> nat
    decreases k,
{
    if k == 0 {
        0
    } else {
        objections_in::<C>(row, (k - 1) as nat) + if C::objects(row[k - 1]) {
            1nat
        } else {
            0nat
        }
    }
}

/// Unusable values in the first `k` labelled rows.
pub open spec fn objections<C: ClassCell>(x: Batch, y: Seq<Double>, k: nat) -> nat
    decreases k,
{
    if k == 0 {
        0
    } else {
        objections::<C>(x, y, (k - 1) as nat) + if y[k - 1].is_finite() {
            objections_in::<C>(x.rows[k - 1], x.rows[k - 1].len())
        } else {
            0nat
        }
    }
}

/// `n` times the warning about an unusable value.
pub open spec fn objection_issues(n: nat) -> Seq<Issue> {
    Seq::new(n, |i: int| warning(IssueCode::InvalidWeight))
}

/// Every class has its counts, and every statistic its columns. Labels are distinct.
pub open spec fn class_wf<C: ClassCell>(s: ClassState<C>) -> bool {
    &&& s.n_per.len() == s.classes.len()
    &&& s.cells.len() == s.classes.len()
    &&& s.classes.len() <= s.n_seen
    &&& s.initialized <==> s.classes.len() > 0
    &&& forall|c: int| 0 <= c < s.cells.len() ==> (#[trigger] s.cells[c]).len() == s.width
    &&& forall|a: int, b: int| 0 <= a < b < s.classes.len() ==> s.classes[a] != s.classes[b]
}

proof fn lemma_slot_range(codes: Seq<i64>, key: i64)
    ensures
        slot_of(codes, key) <= codes.len(),
        slot_of(codes, key) < codes.len() ==> codes[slot_of(codes, key) as int] == key,
        slot_of(codes, key) == codes.len() ==> !codes.contains(key),
    decreases codes.len(),
{
    if codes.len() > 0 && codes[0] != key {
        let rest = codes.drop_first();
        lemma_slot_range(rest, key);
        if slot_of(rest, key) == rest.len() {
            assert forall|a: int| 0 <= a < codes.len() implies codes[a] != key by {
                if a > 0 {
                    assert(rest[a - 1] == codes[a]);
                    assert(rest.contains(rest[a - 1]));
                }
            }
        }
    }
}

/// A row keeps the classes distinct and the statistics complete, counts exactly the
/// labelled rows, and never loses a class.
pub proof fn law_classes_stay_sound<C: ClassCell>(s: ClassState<C>, x: Batch, y: Seq<Double>, k: nat)
    requires
        class_wf(s),
        x.wf(),
        k <= x.height(),
        !s.misfits(x),
    ensures
        class_wf(s.after(x, y, k)),
        !s.after(x, y, k).misfits(x),
        s.n_seen <= s.after(x, y, k).n_seen <= s.n_seen + k,
        s.after(x, y, k).updates == s.updates,
        s.classes.len() <= s.after(x, y, k).classes.len(),
        forall|c: int| 0 <= c < s.classes.len() ==> s.after(x, y, k).classes[c] == #[trigger] s.classes[c],
    decreases k,
{
    if k > 0 {
        law_classes_stay_sound(s, x, y, (k - 1) as nat);
        let b = s.after(x, y, (k - 1) as nat);
        if y[k - 1].is_finite() {
            let label = y[k - 1].round_to_i64();
            lemma_slot_range(b.classes, label);
            let w = b.with_class(label, x.width);
            assert(x.rows[k - 1].len() == x.width);
            if slot_of(b.classes, label) == b.classes.len() {
                assert forall|a: int, c: int| 0 <= a < c < w.classes.len() implies w.classes[a] != w.classes[c] by {
                    if c == b.classes.len() {
                        assert(b.classes.contains(b.classes[a]));
                    }
                }
            }
        }
    }
}

impl<C: ClassCell> ClassBank<C> {
    /// Counts and statistics are complete.
    pub open spec fn wf(&self) -> bool {
        class_wf(self@)
    }

    /// No classes yet.
    pub fn new() -> (r: ClassBank<C>)
        ensures
            r@ == ClassState::<C>::blank(),
            r.wf(),
    {
        let r = ClassBank {
            classes: Vec::new(),
            n_per: Vec::new(),
            cells: Vec::new(),
            width: 0,
            n_seen: 0,
            updates: 0,
            initialized: false,
        };
        assert(r@.classes =~= Seq::empty());
        assert(r@.n_per =~= Seq::empty());
        assert(r@.cells =~= Seq::empty());
        r
    }

    /// Counters that leave room for a batch.
    pub open spec fn room(&self, rows: nat) -> bool {
        &&& self.n_seen + rows <= u64::MAX
        &&& self.updates < u64::MAX
    }

    fn show(&mut self, row: &Vec<Double>, y: Double, issues: &mut Vec<Issue>)
        requires
            old(self).wf(),
            !old(self)@.initialized || old(self).width == row@.len(),
            y.is_finite(),
            old(self).n_seen < u64::MAX,
        ensures
            final(self)@ == old(self)@.shown(row@, row@.len() as usize, y),
            final(issues)@ == old(issues)@ + objection_issues(objections_in::<C>(row@, row@.len())),
    {
        let ghost before = self@;
        let ghost earlier = issues@;
        let label: i64 = y.round_to_i64();
        let p: usize = row.len();
        let c: usize = find_slot(&self.classes, label);
        proof {
            lemma_slot_range(before.classes, label);
        }
        if c == self.classes.len() {
            self.classes.push(label);
            self.n_per.push(zero());
            let mut blank: Vec<C> = Vec::new();
            let mut j: usize = 0;
            while j < p
                invariant
                    j <= p,
                    blank@ == Seq::new(j as nat, |k: int| C::blank()),
                decreases p - j,
            {
                blank.push(C::start());
                j = j + 1;
                assert(blank@ =~= Seq::new(j as nat, |k: int| C::blank()));
            }
            self.cells.push(blank);
            self.width = p;
            self.initialized = true;
            assert(self@.cells =~= before.with_class(label, p).cells);
        }
        let ghost w = before.with_class(label, p);
        assert(self@ == w);
        assert(self@.cells[c as int] == self.cells@[c as int]@);
        let n: Double = self.n_per[c].plus(one());
        self.n_per.set(c, n);
        let mut next: Vec<C> = Vec::new();
        let mut j: usize = 0;
        assert(issues@ =~= earlier + objection_issues(0));
        while j < p
            invariant
                j <= p,
                p == row@.len(),
                c < self.cells@.len(),
                self.cells@[c as int]@.len() == p,
                self.cells@[c as int]@ == w.cells[c as int],
                next@ == Seq::new(j as nat, |k: int| w.cells[c as int][k].seen(n, row@[k])),
                issues@ == earlier + objection_issues(objections_in::<C>(row@, j as nat)),
            decreases p - j,
        {
            let v: Double = row[j];
            next.push(self.cells[c][j].see(n, v));
            if C::is_objected(v) {
                issues.push(warning(IssueCode::InvalidWeight));
            }
            j = j + 1;
            assert(next@ =~= Seq::new(j as nat, |k: int| w.cells[c as int][k].seen(n, row@[k])));
            assert(issues@ =~= earlier + objection_issues(objections_in::<C>(row@, j as nat)));
        }
        self.cells.set(c, next);
        self.n_seen = self.n_seen + 1;
        let ghost want = w.counted(c as int, row@);
        assert(self@.n_per =~= want.n_per);
        assert(self@.cells =~= want.cells);
    }

    /// Takes in a batch that fits, with a warning for each unusable value.
    pub fn absorb(&mut self, x: &Matrix, y: &Vec<Double>, issues: &mut Vec<Issue>)
        requires
            x.wf(),
            x.height() <= y@.len(),
            old(self).wf(),
            old(self).room(x.height()),
            !old(self)@.misfits(x@),
        ensures
            final(self).wf(),
            final(self)@ == old(self)@.taught(x@, y@),
            old(self).n_seen <= final(self).n_seen,
            final(issues)@ == old(issues)@ + objection_issues(objections::<C>(x@, y@, x.height())),
    {
        let ghost start = self@;
        let ghost earlier = issues@;
        let mut i: usize = 0;
        assert(issues@ =~= earlier + objection_issues(0));
        while i < x.nrows()
            invariant
                i <= x.height(),
                x.wf(),
                x.height() <= y@.len(),
                class_wf(start),
                !start.misfits(x@),
                start.n_seen + x.height() <= u64::MAX,
                self@ == start.after(x@, y@, i as nat),
                issues@ == earlier + objection_issues(objections::<C>(x@, y@, i as nat)),
            decreases x.height() - i,
        {
            proof {
                law_classes_stay_sound(start, x@, y@, i as nat);
            }
            assert(x.rows[i as int]@.len() == x.width);
            assert(x@.rows[i as int] == x.rows@[i as int]@);
            if y[i].is_finite() {
                self.show(&x.rows[i], y[i], issues);
            }
            i = i + 1;
            assert(issues@ =~= earlier + objection_issues(objections::<C>(x@, y@, i as nat)));
        }
        proof {
            law_classes_stay_sound(start, x@, y@, x.height());
        }
        self.updates = self.updates + 1;
    }

    /// Quality figures after a batch.
    pub fn describe(&self, before: u64, batch: usize) -> (q: IncrementalQuality)
        requires
            self.updates > 0,
            before <= self.n_seen,
        ensures
            q == self@.figures(before as nat, batch),
    {
        let added: Double = Double::from_u64(self.n_seen - before);
        IncrementalQuality {
            effective_sample_size: Double::from_u64(self.n_seen),
            parameter_delta_norm: Some(added),
            information_gain: Some(added),
            still_identified: self.classes.len() >= 2 && self.n_seen >= 2,
            warmup: self.n_seen < 4,
            ..IncrementalQuality::new(self.updates - 1, batch, self.n_seen)
        }
    }

    /// What a batch does to a classifier.
    pub open spec fn answers(&self, after: &ClassBank<C>, x: &Matrix, y: Option<Seq<Double>>, screened: bool, r: &Update) -> bool {
        let seen = shape_issues(x, y);
        if y is None {
            &&& *after == *self
            &&& reports(
                r,
                IncrementalQuality::new(self.updates, x.height() as usize, self.n_seen),
                seen.push(issue(IssueCode::MissingTarget)),
                false,
            )
        } else if self@.misfits(x@) {
            &&& *after == *self
            &&& reports(
                r,
                IncrementalQuality::new(self.updates, x.height() as usize, self.n_seen),
                seen.push(issue(IssueCode::FeatureSpaceChangedOnline)),
                false,
            )
        } else {
            &&& after@ == self@.taught(x@, y->0)
            &&& reports(
                r,
                after@.figures(self.n_seen as nat, x.height() as usize),
                seen + objection_issues(objections::<C>(x@, y->0, x.height())),
                screened,
            )
        }
    }

    /// Takes in a batch, unless it has no target or its column count does not fit.
    pub fn partial_fit(&mut self, x: &Matrix, y: Option<&Vec<Double>>, screened: bool) -> (r: Update)
        requires
            x.wf(),
            y is Some && (!old(self).initialized || old(self).width == x.width) ==> x.height() <= y->0@.len(),
            old(self).wf(),
            old(self).room(x.height()),
        ensures
            final(self).wf(),
            old(self).answers(final(self), x, target(y), screened, &r),
    {
        let n: usize = x.nrows();
        let mut issues: Vec<Issue> = Vec::new();
        inspect_online_xy(&mut issues, x, y);
        assert(issues@ =~= shape_issues(x, target(y)));
        let t: &Vec<Double> = match y {
            None => {
                issues.push(issue(IssueCode::MissingTarget));
                return rejection(self.updates, n, self.n_seen, issues);
            },
            Some(t) => t,
        };
        if self.initialized && self.width != x.ncols() {
            issues.push(issue(IssueCode::FeatureSpaceChangedOnline));
            return rejection(self.updates, n, self.n_seen, issues);
        }
        let before: u64 = self.n_seen;
        self.absorb(x, t, &mut issues);
        let quality = self.describe(before, n);
        if screened {
            screened_report(quality, issues)
        } else {
            plain_report(quality, issues)
        }
    }
}

/// The first of the highest scores among the first `k`. Scores that are not above
/// minus infinity never win.
pub open spec fn winner(scores: Seq<Double>, k: nat) -> (nat, Double)
    decreases k,
{
    if k == 0 {
        (0, neg_infinity())
    } else {
        let before = winner(scores, (k - 1) as nat);
        if scores[k - 1].gt(before.1) {
            ((k - 1) as nat, scores[k - 1])
        } else {
            before
        }
    }
}

/// The winning class wins: no score is higher, and the earlier ones are lower.
pub proof fn law_winner_is_highest(scores: Seq<Double>, k: nat)
    requires
        forall|c: int| 0 <= c < k ==> !(#[trigger] scores[c]).is_nan(),
    ensures
        forall|c: int| 0 <= c < k ==> (#[trigger] scores[c]).le(winner(scores, k).1),
        forall|c: int| 0 <= c < winner(scores, k).0 ==> (#[trigger] scores[c]).lt(winner(scores, k).1),
        k > 0 ==> winner(scores, k).0 < k,
        !winner(scores, k).1.is_nan(),
        k == 0 ==> winner(scores, k).0 == 0,
    decreases k,
{
    if k > 0 {
        law_winner_is_highest(scores, (k - 1) as nat);
    }
}

proof fn lemma_winner_range(scores: Seq<Double>, k: nat)
    ensures
        k > 0 ==> winner(scores, k).0 < k,
        k == 0 ==> winner(scores, k).0 == 0,
    decreases k,
{
    if k > 0 {
        lemma_winner_range(scores, (k - 1) as nat);
    }
}

/// The first of the highest scores.
pub fn find_winner(scores: &Vec<Double>) -> (best: usize)
    ensures
        best == winner(scores@, scores@.len()).0,
        scores@.len() > 0 ==> best < scores@.len(),
{
    let mut best: usize = 0;
    let mut top: Double = neg_infinity();
    let mut c: usize = 0;
    while c < scores.len()
        invariant
            c <= scores@.len(),
            best == winner(scores@, c as nat).0,
            top == winner(scores@, c as nat).1,
        decreases scores@.len() - c,
    {
        if scores[c].gt(top) {
            top = scores[c];
            best = c;
        }
        c = c + 1;
    }
    proof {
        lemma_winner_range(scores@, scores@.len());
    }
    best
}

} // verus!
