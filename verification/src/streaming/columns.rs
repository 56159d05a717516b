//! Per-column state that is updated entry by entry.

use crate::data::{dot_of, norm_of, Matrix};
use crate::double::{zero, Double};
use crate::quality::{issue, IncrementalQuality, Issue, IssueCode, Qualified, Update};
use vstd::prelude::*;

verus! {

/// What an update reports: figures, issues, and whether it is screened.
pub open spec fn reports(update: &Update, quality: IncrementalQuality, issues: Seq<Issue>, screened: bool) -> bool {
    &&& update.quality == quality
    &&& update.issues@ == issues
    &&& update.screened == screened
    &&& !update.idle
    &&& update.trailing@ == Seq::<Issue>::empty()
}

/// The report of an update that changed nothing.
pub fn rejection(updates: u64, batch: usize, n_seen: u64, issues: Vec<Issue>) -> (u: Update)
    ensures
        reports(&u, IncrementalQuality::new(updates, batch, n_seen), issues@, false),
{
    Update {
        quality: IncrementalQuality::new(updates, batch, n_seen),
        issues,
        screened: false,
        idle: false,
        trailing: Vec::new(),
    }
}

/// The report of an update that is screened for information.
pub fn screened_report(quality: IncrementalQuality, issues: Vec<Issue>) -> (u: Update)
    ensures
        reports(&u, quality, issues@, true),
{
    Update { quality, issues, screened: true, idle: false, trailing: Vec::new() }
}

/// The report of an update that is not screened for information.
pub fn plain_report(quality: IncrementalQuality, issues: Vec<Issue>) -> (u: Update)
    ensures
        reports(&u, quality, issues@, false),
{
    Update { quality, issues, screened: false, idle: false, trailing: Vec::new() }
}

/// State of one column.
pub trait ColumnState: Sized + Copy {
    /// The state after one more entry, at the given rate.
    spec fn seen(self, rate: Double, v: Double) -> Self;

    /// The figure whose change measures an update.
    spec fn key(self) -> Double;

    /// Executable `seen`.
    fn see(&self, rate: Double, v: Double) -> (r: Self)
        ensures
            r == self.seen(rate, v),
    ;

    /// Executable `key`.
    fn get_key(&self) -> (r: Double)
        ensures
            r == self.key(),
    ;
}

/// The state after the first `k` entries of column `j`.
pub open spec fn column_after<T: ColumnState>(start: T, rate: Double, x: &Matrix, j: int, k: nat) -> T
    decreases k,
{
    if k == 0 {
        start
    } else {
        column_after(start, rate, x, j, (k - 1) as nat).seen(rate, x.at(k - 1, j))
    }
}

/// The states after all rows.
pub open spec fn columns_after<T: ColumnState>(start: Seq<T>, rate: Double, x: &Matrix) -> Seq<T> {
    Seq::new(start.len(), |j: int| column_after(start[j], rate, x, j, x.height()))
}

fn see_column<T: ColumnState>(start: T, rate: Double, x: &Matrix, j: usize) -> (r: T)
    requires
        x.wf(),
        j < x.width,
    ensures
        r == column_after(start, rate, x, j as int, x.height()),
{
    let mut state: T = start;
    let mut i: usize = 0;
    while i < x.nrows()
        invariant
            i <= x.height(),
            x.wf(),
            j < x.width,
            state == column_after(start, rate, x, j as int, i as nat),
        decreases x.height() - i,
    {
        state = state.see(rate, x.get(i, j));
        i = i + 1;
    }
    state
}

/// A copy of column states.
pub fn copy_columns<T: Copy>(v: &Vec<T>) -> (r: Vec<T>)
    ensures
        r@ == v@,
{
    let mut r: Vec<T> = Vec::new();
    let mut i: usize = 0;
    while i < v.len()
        invariant
            i <= v.len(),
            r@ == v@.take(i as int),
        decreases v.len() - i,
    {
        r.push(v[i]);
        i = i + 1;
        assert(r@ =~= v@.take(i as int));
    }
    assert(r@ =~= v@);
    r
}

/// Columns of one state each, with the counters of the estimator that owns them.
#[derive(Clone, Debug)]
pub struct ColumnBank<T> {
    /// State of each column.
    pub columns: Vec<T>,
    /// Rows taken in.
    pub n_seen: u64,
    /// Batches taken in.
    pub updates: u64,
    /// Whether the column count is fixed.
    pub initialized: bool,
}

impl<T: ColumnState> ColumnBank<T> {
    /// No columns yet.
    pub open spec fn blank(&self) -> bool {
        &&& self.columns@.len() == 0
        &&& self.n_seen == 0
        &&& self.updates == 0
        &&& !self.initialized
    }

    /// No columns yet.
    pub fn new() -> (r: ColumnBank<T>)
        ensures
            r.blank(),
    {
        ColumnBank { columns: Vec::new(), n_seen: 0, updates: 0, initialized: false }
    }

    /// Same state in every field.
    pub open spec fn agrees(&self, other: &ColumnBank<T>) -> bool {
        &&& self.columns@ == other.columns@
        &&& self.n_seen == other.n_seen
        &&& self.updates == other.updates
        &&& self.initialized == other.initialized
    }

    /// Why a batch of `width` columns is turned away.
    pub open spec fn refusal(&self, width: usize) -> Option<IssueCode> {
        if width == 0 {
            Some(IssueCode::PartialFitBeforeInit)
        } else if self.initialized && self.columns@.len() != width {
            Some(IssueCode::FeatureSpaceChangedOnline)
        } else {
            None
        }
    }

    /// The columns that a batch of `width` columns starts from.
    pub open spec fn start(&self, width: usize, fresh: T) -> Seq<T> {
        if self.initialized {
            self.columns@
        } else {
            Seq::new(width as nat, |j: int| fresh)
        }
    }

    /// The bank after a batch that was taken in.
    pub open spec fn is_after(&self, before: &ColumnBank<T>, x: &Matrix, rate: Double, fresh: T) -> bool {
        &&& self.columns@ == columns_after(before.start(x.width, fresh), rate, x)
        &&& self.n_seen == before.n_seen + x.height()
        &&& self.updates == before.updates + 1
        &&& self.initialized
    }

    /// Counters that leave room for a batch.
    pub open spec fn room(&self, x: &Matrix) -> bool {
        self.n_seen + x.height() <= u64::MAX && self.updates < u64::MAX
    }

    /// The columns before the batch, or why it is turned away.
    pub fn enter(&self, x: &Matrix, fresh: T) -> (r: Result<Vec<T>, IssueCode>)
        ensures
            match r {
                Ok(columns) => {
                    &&& self.refusal(x.width) is None
                    &&& columns@ == self.start(x.width, fresh)
                    &&& columns@.len() == x.width
                },
                Err(code) => self.refusal(x.width) == Some(code),
            },
    {
        let p: usize = x.ncols();
        if p == 0 {
            return Err(IssueCode::PartialFitBeforeInit);
        }
        if self.initialized {
            if self.columns.len() != p {
                return Err(IssueCode::FeatureSpaceChangedOnline);
            }
            return Ok(copy_columns(&self.columns));
        }
        let mut columns: Vec<T> = Vec::new();
        let mut j: usize = 0;
        while j < p
            invariant
                j <= p,
                columns@ == Seq::new(j as nat, |k: int| fresh),
            decreases p - j,
        {
            columns.push(fresh);
            j = j + 1;
            assert(columns@ =~= Seq::new(j as nat, |k: int| fresh));
        }
        Ok(columns)
    }

    /// Takes in a batch, given the columns that it starts from.
    pub fn absorb(&mut self, x: &Matrix, rate: Double, start: &Vec<T>, fresh: T)
        requires
            x.wf(),
            old(self).room(x),
            start@ == old(self).start(x.width, fresh),
            start@.len() == x.width,
        ensures
            final(self).is_after(old(self), x, rate, fresh),
            final(self).columns@.len() == x.width,
    {
        let mut columns: Vec<T> = Vec::new();
        let mut j: usize = 0;
        while j < start.len()
            invariant
                j <= start@.len(),
                start@.len() == x.width,
                x.wf(),
                columns@ == columns_after(start@, rate, x).take(j as int),
            decreases start@.len() - j,
        {
            columns.push(see_column(start[j], rate, x, j));
            j = j + 1;
            assert(columns@ =~= columns_after(start@, rate, x).take(j as int));
        }
        assert(columns@ =~= columns_after(start@, rate, x));
        self.columns = columns;
        self.n_seen = self.n_seen + x.nrows() as u64;
        self.updates = self.updates + 1;
        self.initialized = true;
    }
}

/// Changes of the keys.
pub open spec fn key_changes<T: ColumnState>(after: Seq<T>, before: Seq<T>) -> Seq<Double> {
    Seq::new(after.len(), |j: int| after[j].key().minus(before[j].key()))
}

/// Euclidean length of the changes of the keys.
pub open spec fn key_shift<T: ColumnState>(after: Seq<T>, before: Seq<T>) -> Double {
    norm_of(key_changes(after, before))
}

/// Euclidean length of the changes of the keys.
pub fn key_shift_of<T: ColumnState>(after: &Vec<T>, before: &Vec<T>) -> (r: Double)
    requires
        after@.len() == before@.len(),
    ensures
        r == key_shift(after@, before@),
{
    let ghost changes = key_changes(after@, before@);
    let mut s: Double = zero();
    let mut j: usize = 0;
    while j < after.len()
        invariant
            j <= after@.len(),
            after@.len() == before@.len(),
            changes == key_changes(after@, before@),
            s == dot_of(changes, changes, j as nat),
        decreases after@.len() - j,
    {
        let d: Double = after[j].get_key().minus(before[j].get_key());
        s = s.plus(d.times(d));
        j = j + 1;
    }
    s.sqrt()
}

/// Cell-by-cell transformation with one state per column.
pub trait CellMap<T> {
    /// The image of an entry of a known column, at the given limit.
    spec fn shown(column: T, limit: Double, v: Double) -> Double;

    /// The image of an entry of a column beyond the known ones.
    spec fn unknown(v: Double) -> Double;

    /// Executable `shown`.
    fn show(column: &T, limit: Double, v: Double) -> (r: Double)
        ensures
            r == Self::shown(*column, limit, v),
    ;

    /// Executable `unknown`.
    fn show_unknown(v: Double) -> (r: Double)
        ensures
            r == Self::unknown(v),
    ;
}

/// The image of a row.
pub open spec fn shown_row<S: CellMap<T>, T>(columns: Seq<T>, limit: Double, row: Seq<Double>) -> Seq<Double> {
    Seq::new(
        row.len(),
        |j: int|
            if j < columns.len() {
                S::shown(columns[j], limit, row[j])
            } else {
                S::unknown(row[j])
            },
    )
}

/// The image of a matrix.
pub open spec fn is_shown<S: CellMap<T>, T>(out: &Matrix, columns: Seq<T>, limit: Double, x: &Matrix) -> bool {
    &&& out.wf()
    &&& out.height() == x.height()
    &&& out.width == x.width
    &&& forall|i: int|
        0 <= i < x.height() ==> (#[trigger] out.rows@[i])@ == shown_row::<S, T>(columns, limit, x.rows@[i]@)
}

/// The image of a matrix.
pub fn show_matrix<S: CellMap<T>, T>(columns: &Vec<T>, limit: Double, x: &Matrix) -> (out: Matrix)
    requires
        x.wf(),
    ensures
        is_shown::<S, T>(&out, columns@, limit, x),
{
    let mut rows: Vec<Vec<Double>> = Vec::new();
    let mut i: usize = 0;
    while i < x.nrows()
        invariant
            i <= x.height(),
            x.wf(),
            rows@.len() == i,
            forall|a: int| 0 <= a < i ==> (#[trigger] rows@[a])@ == shown_row::<S, T>(columns@, limit, x.rows@[a]@),
        decreases x.height() - i,
    {
        let ghost target = shown_row::<S, T>(columns@, limit, x.rows@[i as int]@);
        let mut row: Vec<Double> = Vec::new();
        let mut j: usize = 0;
        while j < x.ncols()
            invariant
                i < x.height(),
                j <= x.width,
                x.wf(),
                target == shown_row::<S, T>(columns@, limit, x.rows@[i as int]@),
                row@ == target.take(j as int),
            decreases x.width - j,
        {
            let v: Double = x.get(i, j);
            if j < columns.len() {
                row.push(S::show(&columns[j], limit, v));
            } else {
                row.push(S::show_unknown(v));
            }
            j = j + 1;
            assert(row@ =~= target.take(j as int));
        }
        assert(row@ =~= target);
        rows.push(row);
        i = i + 1;
    }
    Matrix { rows, width: x.ncols() }
}

/// What a transform before the first batch gives back: the input, with an issue.
pub open spec fn passed_through(out: &Qualified<Matrix>, x: &Matrix) -> bool {
    &&& out.value.wf()
    &&& out.value.agrees(x)
    &&& out.report@ == seq![issue(IssueCode::PartialFitBeforeInit)]
}

/// What a transform before the first batch gives back.
pub fn pass_through(x: &Matrix) -> (out: Qualified<Matrix>)
    requires
        x.wf(),
    ensures
        passed_through(&out, x),
{
    let mut report: Vec<Issue> = Vec::new();
    report.push(issue(IssueCode::PartialFitBeforeInit));
    assert(report@ =~= seq![issue(IssueCode::PartialFitBeforeInit)]);
    Qualified { value: x.copy(), report }
}

/// Column states of two batches in a row are those of the joined batch.
pub proof fn law_columns_join<T: ColumnState>(start: T, rate: Double, x1: &Matrix, x2: &Matrix, x: &Matrix, j: int, k: nat)
    requires
        crate::online::common::stacked(x1, x2, x),
        0 <= j < x.width,
        k <= x2.height(),
    ensures
        column_after(start, rate, x, j, x1.height() + k) == column_after(
            column_after(start, rate, x1, j, x1.height()),
            rate,
            x2,
            j,
            k,
        ),
    decreases k,
{
    if k == 0 {
        lemma_same_prefix(start, rate, x1, x2, x, j, x1.height());
    } else {
        law_columns_join(start, rate, x1, x2, x, j, (k - 1) as nat);
        assert(x2.at(k - 1, j) == x.at(x1.height() + (k - 1), j));
    }
}

proof fn lemma_same_prefix<T: ColumnState>(start: T, rate: Double, x1: &Matrix, x2: &Matrix, x: &Matrix, j: int, k: nat)
    requires
        crate::online::common::stacked(x1, x2, x),
        0 <= j < x.width,
        k <= x1.height(),
    ensures
        column_after(start, rate, x, j, k) == column_after(start, rate, x1, j, k),
    decreases k,
{
    if k > 0 {
        lemma_same_prefix(start, rate, x1, x2, x, j, (k - 1) as nat);
        assert(x.at(k - 1, j) == x1.at(k - 1, j));
    }
}

} // verus!
