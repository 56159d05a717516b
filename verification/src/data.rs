//! Dense vectors and matrices of binary64 numbers.

use crate::double::{zero, Double};
use vstd::prelude::*;

verus! {

/// A dense matrix, held row by row.
#[derive(Clone, Debug)]
pub struct Matrix {
    /// The rows, each of length `width`.
    pub rows: Vec<Vec<Double>>,
    /// Number of columns.
    pub width: usize,
}

/// The contents of a matrix.
pub struct Batch {
    /// The rows.
    pub rows: Seq<Seq<Double>>,
    /// Number of columns.
    pub width: usize,
}

impl Batch {
    /// Number of rows.
    pub open spec fn height(self) -> nat {
        self.rows.len()
    }

    /// Every row has `width` entries.
    pub open spec fn wf(self) -> bool {
        forall|i: int| 0 <= i < self.rows.len() ==> (#[trigger] self.rows[i]).len() == self.width
    }
}

impl View for Matrix {
    type V = Batch;

    open spec fn view(&self) -> Batch {
        Batch { rows: self.grid(), width: self.width }
    }
}

impl Matrix {
    /// Every row has `width` entries.
    pub open spec fn wf(&self) -> bool {
        forall|i: int| 0 <= i < self.rows.len() ==> (#[trigger] self.rows[i])@.len() == self.width
    }

    /// Number of rows.
    pub open spec fn height(&self) -> nat {
        self.rows@.len()
    }

    /// Entry in row `i` and column `j`.
    pub open spec fn at(&self, i: int, j: int) -> Double {
        self.rows@[i]@[j]
    }

    /// The rows as sequences.
    pub open spec fn grid(&self) -> Seq<Seq<Double>> {
        Seq::new(self.height(), |i: int| self.rows@[i]@)
    }

    /// Both matrices have the same shape and entries.
    pub open spec fn agrees(&self, other: &Matrix) -> bool {
        &&& self.rows@.len() == other.rows@.len()
        &&& self.width == other.width
        &&& forall|i: int| 0 <= i < self.rows@.len() ==> (#[trigger] self.rows@[i])@ == other.rows@[i]@
    }

    /// Builds a matrix from its rows.
    pub fn from_rows(rows: Vec<Vec<Double>>, width: usize) -> (m: Matrix)
        requires
            forall|i: int| 0 <= i < rows.len() ==> (#[trigger] rows[i])@.len() == width,
        ensures
            m.wf(),
            m.rows == rows,
            m.width == width,
    {
        Matrix { rows, width }
    }

    /// A matrix of zeros.
    pub fn zeros(nrows: usize, ncols: usize) -> (m: Matrix)
        ensures
            m.wf(),
            m.height() == nrows,
            m.width == ncols,
            forall|i: int, j: int| 0 <= i < nrows && 0 <= j < ncols ==> #[trigger] m.at(i, j) == zero(),
    {
        let mut rows: Vec<Vec<Double>> = Vec::new();
        let mut i: usize = 0;
        while i < nrows
            invariant
                i <= nrows,
                rows.len() == i,
                forall|k: int| 0 <= k < i ==> (#[trigger] rows@[k])@ == zero_seq(ncols as nat),
            decreases nrows - i,
        {
            let row = zeros(ncols);
            rows.push(row);
            i = i + 1;
        }
        Matrix { rows, width: ncols }
    }

    /// Number of rows.
    pub fn nrows(&self) -> (n: usize)
        ensures
            n == self.height(),
    {
        self.rows.len()
    }

    /// Number of columns.
    pub fn ncols(&self) -> (p: usize)
        ensures
            p == self.width,
    {
        self.width
    }

    /// Entry in row `i` and column `j`.
    pub fn get(&self, i: usize, j: usize) -> (v: Double)
        requires
            self.wf(),
            i < self.height(),
            j < self.width,
        ensures
            v == self.at(i as int, j as int),
    {
        self.rows[i][j]
    }

    /// A copy of row `i`.
    pub fn row(&self, i: usize) -> (r: Vec<Double>)
        requires
            self.wf(),
            i < self.height(),
        ensures
            r@ == self.rows@[i as int]@,
            r.len() == self.width,
    {
        copy(&self.rows[i])
    }

    /// A copy of the whole matrix.
    pub fn copy(&self) -> (m: Matrix)
        requires
            self.wf(),
        ensures
            m.wf(),
            m.agrees(self),
    {
        let mut rows: Vec<Vec<Double>> = Vec::new();
        let mut i: usize = 0;
        while i < self.rows.len()
            invariant
                i <= self.rows@.len(),
                rows.len() == i,
                forall|k: int| 0 <= k < i ==> (#[trigger] rows@[k])@ == self.rows@[k]@,
            decreases self.rows@.len() - i,
        {
            let row = copy(&self.rows[i]);
            rows.push(row);
            i = i + 1;
        }
        Matrix { rows, width: self.width }
    }

    /// Replaces one entry.
    pub fn set(&mut self, i: usize, j: usize, v: Double)
        requires
            old(self).wf(),
            i < old(self).height(),
            j < old(self).width,
        ensures
            final(self).wf(),
            final(self).width == old(self).width,
            final(self).height() == old(self).height(),
            final(self).rows@[i as int]@ == old(self).rows@[i as int]@.update(j as int, v),
            forall|k: int| 0 <= k < old(self).height() && k != i ==> (#[trigger] final(self).rows@[k])@
                == old(self).rows@[k]@,
    {
        let ghost before = *self;
        let mut row = copy(&self.rows[i]);
        row.set(j, v);
        self.rows.set(i, row);
        assert forall|k: int| 0 <= k < self.rows.len() implies (#[trigger] self.rows[k])@.len() == self.width by {
            if k != i {
                assert(self.rows[k] == before.rows[k]);
            }
        }
    }
}

/// `n` zeros.
pub open spec fn zero_seq(n: nat) -> Seq<Double> {
    Seq::new(n, |i: int| zero())
}

/// A vector of `n` copies of `v`.
pub fn filled(n: usize, v: Double) -> (r: Vec<Double>)
    ensures
        r@ == Seq::new(n as nat, |i: int| v),
{
    let mut r: Vec<Double> = Vec::new();
    let mut i: usize = 0;
    while i < n
        invariant
            i <= n,
            r@ == Seq::new(i as nat, |k: int| v),
        decreases n - i,
    {
        r.push(v);
        i = i + 1;
        assert(r@ =~= Seq::new(i as nat, |k: int| v));
    }
    r
}

/// A vector of `n` zeros.
pub fn zeros(n: usize) -> (r: Vec<Double>)
    ensures
        r@ == zero_seq(n as nat),
{
    let r = filled(n, zero());
    assert(r@ =~= zero_seq(n as nat));
    r
}

/// A copy of `v`.
pub fn copy(v: &Vec<Double>) -> (r: Vec<Double>)
    ensures
        r@ == v@,
{
    let mut r: Vec<Double> = Vec::new();
    let mut i: usize = 0;
    while i < v.len()
        invariant
            i <= v.len(),
            r@ == v@.take(i as int),
        decreases v.len() - i,
    {
        r.push(v[i]);
        i = i + 1;
        assert(r@ =~= v@.take(i as int));
    }
    assert(r@ =~= v@);
    r
}

/// Sum of the products of the first `n` entries, added from left to right.
pub open spec fn dot_of(a: Seq<Double>, b: Seq<Double>, n: nat) -> Double
    decreases n,
{
    if n == 0 {
        zero()
    } else {
        dot_of(a, b, (n - 1) as nat).plus(a[n - 1].times(b[n - 1]))
    }
}

/// Inner product.
pub fn dot(a: &Vec<Double>, b: &Vec<Double>) -> (r: Double)
    requires
        a.len() == b.len(),
    ensures
        r == dot_of(a@, b@, a@.len()),
{
    let mut s: Double = zero();
    let mut i: usize = 0;
    while i < a.len()
        invariant
            i <= a.len(),
            a.len() == b.len(),
            s == dot_of(a@, b@, i as nat),
        decreases a.len() - i,
    {
        s = s.plus(a[i].times(b[i]));
        i = i + 1;
    }
    s
}

/// Euclidean length of the first `n` entries.
pub open spec fn norm_of(a: Seq<Double>) -> Double {
    dot_of(a, a, a.len()).sqrt()
}

/// Euclidean length.
pub fn norm(a: &Vec<Double>) -> (r: Double)
    ensures
        r == norm_of(a@),
{
    dot(a, a).sqrt()
}

/// Largest magnitude among the first `n` entries, or 0.
pub open spec fn max_abs_of(a: Seq<Double>, n: nat) -> Double
    decreases n,
{
    if n == 0 {
        zero()
    } else {
        max_abs_of(a, (n - 1) as nat).max(a[n - 1].abs())
    }
}

/// Largest magnitude among the entries, or 0.
pub fn max_abs(a: &Vec<Double>) -> (r: Double)
    ensures
        r == max_abs_of(a@, a@.len()),
{
    let mut m: Double = zero();
    let mut i: usize = 0;
    while i < a.len()
        invariant
            i <= a.len(),
            m == max_abs_of(a@, i as nat),
        decreases a.len() - i,
    {
        m = m.max(a[i].abs());
        i = i + 1;
    }
    m
}

/// Entrywise difference.
pub open spec fn difference(a: Seq<Double>, b: Seq<Double>) -> Seq<Double> {
    Seq::new(a.len(), |i: int| a[i].minus(b[i]))
}

/// Entrywise difference.
pub fn subtract(a: &Vec<Double>, b: &Vec<Double>) -> (r: Vec<Double>)
    requires
        a.len() == b.len(),
    ensures
        r@ == difference(a@, b@),
{
    let mut r: Vec<Double> = Vec::new();
    let mut i: usize = 0;
    while i < a.len()
        invariant
            i <= a.len(),
            a.len() == b.len(),
            r@ == difference(a@, b@).take(i as int),
        decreases a.len() - i,
    {
        r.push(a[i].minus(b[i]));
        i = i + 1;
        assert(r@ =~= difference(a@, b@).take(i as int));
    }
    assert(r@ =~= difference(a@, b@));
    r
}

/// The entries from `from` up to but not including `to`.
pub fn part(v: &Vec<Double>, from: usize, to: usize) -> (r: Vec<Double>)
    requires
        from <= to <= v@.len(),
    ensures
        r@ == v@.subrange(from as int, to as int),
{
    let mut r: Vec<Double> = Vec::new();
    let mut i: usize = from;
    while i < to
        invariant
            from <= i <= to,
            to <= v@.len(),
            r@ == v@.subrange(from as int, i as int),
        decreases to - i,
    {
        r.push(v[i]);
        i = i + 1;
        assert(r@ =~= v@.subrange(from as int, i as int));
    }
    r
}

/// The last `cap` entries, or all if there are no more than that.
pub open spec fn latest(v: Seq<Double>, cap: nat) -> Seq<Double> {
    if v.len() > cap {
        v.skip(v.len() - cap)
    } else {
        v
    }
}

/// Appends a value and drops the oldest ones beyond `cap`.
pub fn push_within(v: &mut Vec<Double>, x: Double, cap: usize)
    requires
        old(v)@.len() < usize::MAX,
    ensures
        final(v)@ == latest(old(v)@.push(x), cap as nat),
{
    v.push(x);
    trim_to(v, cap);
}

/// Drops the oldest values beyond `cap`.
pub fn trim_to(v: &mut Vec<Double>, cap: usize)
    ensures
        final(v)@ == latest(old(v)@, cap as nat),
{
    if v.len() > cap {
        let n: usize = v.len();
        let rest = part(v, n - cap, n);
        assert(rest@ =~= v@.skip(v@.len() - cap));
        *v = rest;
    }
}

} // verus!
