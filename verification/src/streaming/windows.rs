//! Statistics of the newest numbers in a stream.

use crate::constants::{decimal_95, half, quarter, three_quarters};
use crate::data::{latest, push_within, Matrix};
use crate::double::{nan, one, zero, Double};
use crate::online::common::{inspect_online_xy, shape_issues};
use crate::quality::{warning, IncrementalQuality, Issue, IssueCode, Qualified, Update};
use crate::streaming::columns::{passed_through, pass_through, reports, screened_report};
use crate::streaming::drift::{finite_window, running_sum};
use crate::streaming::ranking::{sorted, sorted_values};
use crate::streaming::statistics::{finite_shift, front};
use vstd::prelude::*;

verus! {

/// Numbers that a window keeps.
pub const WINDOW: usize = 256;

/// The newest finite numbers of a stream.
#[derive(Clone, Debug)]
pub struct Window {
    /// The numbers, oldest first.
    pub values: Vec<Double>,
    /// Finite numbers read.
    pub n_seen: u64,
    /// Batches read.
    pub updates: u64,
}

/// The state of a window.
pub struct WindowState {
    /// The numbers, oldest first.
    pub values: Seq<Double>,
    /// Finite numbers read.
    pub n_seen: nat,
    /// Batches read.
    pub updates: nat,
}

impl View for Window {
    type V = WindowState;

    open spec fn view(&self) -> WindowState {
        WindowState { values: self.values@, n_seen: self.n_seen as nat, updates: self.updates as nat }
    }
}

impl WindowState {
    /// An empty window.
    pub open spec fn blank() -> WindowState {
        WindowState { values: Seq::empty(), n_seen: 0, updates: 0 }
    }

    /// After one more number; one that is not finite is skipped.
    pub open spec fn shown(self, v: Double) -> WindowState {
        if v.is_finite() {
            WindowState { values: latest(self.values.push(v), WINDOW as nat), n_seen: self.n_seen + 1, ..self }
        } else {
            self
        }
    }

    /// After the first `k` numbers.
    pub open spec fn after(self, values: Seq<Double>, k: nat) -> WindowState
        decreases k,
    {
        if k == 0 {
            self
        } else {
            self.after(values, (k - 1) as nat).shown(values[k - 1])
        }
    }

    /// After a batch, read by its first column.
    pub open spec fn read(self, values: Seq<Double>) -> WindowState {
        WindowState { updates: self.updates + 1, ..self.after(values, values.len()) }
    }
}

/// A window holds finite numbers only, and no more than its size.
pub proof fn law_window_is_finite(w: WindowState, values: Seq<Double>, k: nat)
    requires
        finite_window(w.values),
        w.values.len() <= WINDOW,
    ensures
        finite_window(w.after(values, k).values),
        w.after(values, k).values.len() <= WINDOW,
        w.n_seen <= w.after(values, k).n_seen <= w.n_seen + k,
        w.after(values, k).updates == w.updates,
    decreases k,
{
    if k > 0 {
        law_window_is_finite(w, values, (k - 1) as nat);
        let b = w.after(values, (k - 1) as nat);
        let v = values[k - 1];
        if v.is_finite() {
            let p = b.values.push(v);
            assert forall|i: int| 0 <= i < latest(p, WINDOW as nat).len() implies (#[trigger] latest(
                p,
                WINDOW as nat,
            )[i]).is_finite() by {
                let j = if p.len() > WINDOW {
                    i + (p.len() - WINDOW)
                } else {
                    i
                };
                assert(latest(p, WINDOW as nat)[i] == p[j]);
                if j < b.values.len() {
                    assert(b.values[j].is_finite());
                }
            }
        }
    }
}

impl Window {
    /// Finite numbers, no more than the window keeps.
    pub open spec fn wf(&self) -> bool {
        finite_window(self.values@) && self.values@.len() <= WINDOW
    }

    /// An empty window.
    pub fn new() -> (r: Window)
        ensures
            r@ == WindowState::blank(),
            r.wf(),
    {
        let r = Window { values: Vec::new(), n_seen: 0, updates: 0 };
        assert(r.values@ =~= Seq::empty());
        r
    }

    /// Counters that leave room for `n` numbers.
    pub open spec fn room(&self, n: nat) -> bool {
        &&& self.n_seen + n <= u64::MAX
        &&& self.updates < u64::MAX
    }

    fn show(&mut self, v: Double)
        requires
            old(self).n_seen < u64::MAX,
            old(self).values@.len() <= WINDOW,
        ensures
            final(self)@ == old(self)@.shown(v),
    {
        if v.is_finite() {
            push_within(&mut self.values, v, WINDOW);
            self.n_seen = self.n_seen + 1;
        }
    }

    /// Reads the first column of a batch.
    fn read(&mut self, x: &Matrix)
        requires
            x.wf(),
            x.width > 0 || x.height() == 0,
            old(self).wf(),
            old(self).room(x.height()),
        ensures
            final(self).wf(),
            final(self)@ == old(self)@.read(front(x)),
    {
        let ghost start = self@;
        let mut i: usize = 0;
        while i < x.nrows()
            invariant
                i <= x.height(),
                x.wf(),
                x.width > 0 || x.height() == 0,
                start == old(self)@,
                finite_window(start.values),
                start.values.len() <= WINDOW,
                start.n_seen + x.height() <= u64::MAX,
                self@ == start.after(front(x), i as nat),
            decreases x.height() - i,
        {
            proof {
                law_window_is_finite(start, front(x), i as nat);
            }
            self.show(x.get(i, 0));
            i = i + 1;
        }
        proof {
            law_window_is_finite(start, front(x), x.height());
        }
        self.updates = self.updates + 1;
    }

    /// Quality figures after a batch: the statistic moved from `before` to `after`,
    /// and needs `enough` numbers.
    pub open spec fn figures(&self, before: Double, after: Double, enough: nat, batch: usize) -> IncrementalQuality {
        IncrementalQuality {
            effective_sample_size: Double::from_usize(self.values@.len() as usize),
            parameter_delta_norm: Some(finite_shift(before, after)),
            information_gain: Some(Double::from_usize(batch)),
            still_identified: self.values@.len() >= enough,
            warmup: self.values@.len() < enough,
            ..IncrementalQuality::new((self.updates - 1) as u64, batch, self.n_seen)
        }
    }

    fn describe(&self, before: Double, after: Double, enough: usize, batch: usize) -> (q: IncrementalQuality)
        requires
            self.updates > 0,
        ensures
            q == self.figures(before, after, enough as nat, batch),
    {
        IncrementalQuality {
            effective_sample_size: Double::from_usize(self.values.len()),
            parameter_delta_norm: Some(finite_shift(before, after)),
            information_gain: Some(Double::from_usize(batch)),
            still_identified: self.values.len() >= enough,
            warmup: self.values.len() < enough,
            ..IncrementalQuality::new(self.updates - 1, batch, self.n_seen)
        }
    }
}

/// Entry `at` of a list, or the last one.
pub open spec fn entry_or_last(v: Seq<Double>, at: u64) -> Double {
    if at < v.len() {
        v[at as int]
    } else {
        v[v.len() - 1]
    }
}

fn pick(v: &Vec<Double>, at: u64) -> (r: Double)
    requires
        v@.len() > 0,
    ensures
        r == entry_or_last(v@, at),
{
    if at < v.len() as u64 {
        v[at as usize]
    } else {
        v[v.len() - 1]
    }
}

/// The order statistic nearest to the share `q`; NaN without numbers.
pub open spec fn quantile_of(values: Seq<Double>, q: Double) -> Double {
    if values.len() == 0 {
        nan()
    } else {
        entry_or_last(
            sorted_values(values),
            q.times(Double::from_usize((values.len() - 1) as usize)).round().truncate_to_u64(),
        )
    }
}

fn find_quantile(values: &Vec<Double>, q: Double) -> (r: Double)
    ensures
        r == quantile_of(values@, q),
{
    if values.len() == 0 {
        return nan();
    }
    let xs = sorted(values);
    let at: u64 = q.times(Double::from_usize(xs.len() - 1)).round().truncate_to_u64();
    pick(&xs, at)
}

/// Smallest of the first `k` numbers, NaN without numbers.
pub open spec fn low_of(values: Seq<Double>, k: nat) -> Double
    decreases k,
{
    if k == 0 {
        nan()
    } else {
        let a = low_of(values, (k - 1) as nat);
        if a.is_nan() {
            values[k - 1]
        } else {
            a.min(values[k - 1])
        }
    }
}

/// Largest of the first `k` numbers, NaN without numbers.
pub open spec fn high_of(values: Seq<Double>, k: nat) -> Double
    decreases k,
{
    if k == 0 {
        nan()
    } else {
        let a = high_of(values, (k - 1) as nat);
        if a.is_nan() {
            values[k - 1]
        } else {
            a.max(values[k - 1])
        }
    }
}

/// The smallest number bounds all others from below, the largest from above.
pub proof fn law_extremes_bound(values: Seq<Double>, k: nat)
    requires
        forall|i: int| 0 <= i < k ==> (#[trigger] values[i]).is_finite(),
    ensures
        k > 0 ==> !low_of(values, k).is_nan() && !high_of(values, k).is_nan(),
        forall|i: int| 0 <= i < k ==> low_of(values, k).le(#[trigger] values[i]) && values[i].le(high_of(values, k)),
    decreases k,
{
    if k > 0 {
        law_extremes_bound(values, (k - 1) as nat);
    }
}

/// Mean of the numbers, NaN without numbers.
pub open spec fn mean_of(values: Seq<Double>) -> Double {
    if values.len() == 0 {
        nan()
    } else {
        running_sum(values, values.len()).over(Double::from_usize(values.len() as usize))
    }
}

/// Absolute deviations from the upper median, in the order of the sorted numbers.
pub open spec fn deviations(values: Seq<Double>) -> Seq<Double> {
    let xs = sorted_values(values);
    Seq::new(xs.len(), |i: int| xs[i].minus(xs[(xs.len() / 2) as int]).abs())
}

/// Upper median of the absolute deviations from the upper median, NaN without numbers.
pub open spec fn mad_of(values: Seq<Double>) -> Double {
    let d = sorted_values(deviations(values));
    if values.len() == 0 {
        nan()
    } else {
        d[(d.len() / 2) as int]
    }
}

/// Quantile `t` of ascending numbers, between the two nearest ones.
pub open spec fn blended(xs: Seq<Double>, t: Double) -> Double {
    let u = t.times(Double::from_usize((xs.len() - 1) as usize));
    let lo = u.truncate_to_u64();
    let hi = u.ceil_to_u64();
    let w = u.minus(Double::from_u64(lo));
    one().minus(w).times(entry_or_last(xs, lo)).plus(w.times(entry_or_last(xs, hi)))
}

fn blend(xs: &Vec<Double>, t: Double) -> (r: Double)
    requires
        xs@.len() > 0,
    ensures
        r == blended(xs@, t),
{
    let u: Double = t.times(Double::from_usize(xs.len() - 1));
    let lo: u64 = u.truncate_to_u64();
    let hi: u64 = u.ceil_to_u64();
    let w: Double = u.minus(Double::from_u64(lo));
    one().minus(w).times(pick(xs, lo)).plus(w.times(pick(xs, hi)))
}

/// Distance between the quartiles, or NaN when empty.
pub open spec fn iqr_of(values: Seq<Double>) -> Double {
    let xs = sorted_values(values);
    if values.len() == 0 {
        nan()
    } else {
        blended(xs, three_quarters()).minus(blended(xs, quarter()))
    }
}

/// Smallest of the newest numbers.
#[derive(Clone, Debug)]
pub struct RollingMin {
    /// The newest numbers.
    pub window: Window,
}

impl Default for RollingMin {
    fn default() -> (r: RollingMin)
        ensures
            r.window@ == WindowState::blank(),
            r.window.wf(),
    {
        RollingMin::new()
    }
}

impl RollingMin {
    /// No numbers yet.
    pub fn new() -> (r: RollingMin)
        ensures
            r.window@ == WindowState::blank(),
            r.window.wf(),
    {
        RollingMin { window: Window::new() }
    }

    /// The smallest number, NaN without numbers.
    pub fn score(&self) -> (r: Double)
        ensures
            r == low_of(self.window.values@, self.window.values@.len()),
    {
        let mut a: Double = nan();
        let mut i: usize = 0;
        while i < self.window.values.len()
            invariant
                i <= self.window.values@.len(),
                a == low_of(self.window.values@, i as nat),
            decreases self.window.values@.len() - i,
        {
            let v: Double = self.window.values[i];
            a = if a.is_nan() {
                v
            } else {
                a.min(v)
            };
            i = i + 1;
        }
        a
    }

    /// Reads the first column of a batch.
    pub fn partial_fit(&mut self, x: &Matrix, _y: Option<&Vec<Double>>) -> (r: Update)
        requires
            x.wf(),
            x.width > 0 || x.height() == 0,
            old(self).window.wf(),
            old(self).window.room(x.height()),
        ensures
            final(self).window.wf(),
            final(self).window@ == old(self).window@.read(front(x)),
            reports(
                &r,
                final(self).window.figures(
                    low_of(old(self).window.values@, old(self).window.values@.len()),
                    low_of(final(self).window.values@, final(self).window.values@.len()),
                    1,
                    x.height() as usize,
                ),
                shape_issues(x, None),
                true,
            ),
    {
        let mut issues: Vec<Issue> = Vec::new();
        inspect_online_xy(&mut issues, x, None);
        assert(issues@ =~= shape_issues(x, None));
        let before: Double = self.score();
        self.window.read(x);
        let after: Double = self.score();
        let quality = self.window.describe(before, after, 1, x.nrows());
        screened_report(quality, issues)
    }
}

/// Largest of the newest numbers.
#[derive(Clone, Debug)]
pub struct RollingMax {
    /// The newest numbers.
    pub window: Window,
}

impl Default for RollingMax {
    fn default() -> (r: RollingMax)
        ensures
            r.window@ == WindowState::blank(),
            r.window.wf(),
    {
        RollingMax::new()
    }
}

impl RollingMax {
    /// No numbers yet.
    pub fn new() -> (r: RollingMax)
        ensures
            r.window@ == WindowState::blank(),
            r.window.wf(),
    {
        RollingMax { window: Window::new() }
    }

    /// The largest number, NaN without numbers.
    pub fn score(&self) -> (r: Double)
        ensures
            r == high_of(self.window.values@, self.window.values@.len()),
    {
        let mut a: Double = nan();
        let mut i: usize = 0;
        while i < self.window.values.len()
            invariant
                i <= self.window.values@.len(),
                a == high_of(self.window.values@, i as nat),
            decreases self.window.values@.len() - i,
        {
            let v: Double = self.window.values[i];
            a = if a.is_nan() {
                v
            } else {
                a.max(v)
            };
            i = i + 1;
        }
        a
    }

    /// Reads the first column of a batch.
    pub fn partial_fit(&mut self, x: &Matrix, _y: Option<&Vec<Double>>) -> (r: Update)
        requires
            x.wf(),
            x.width > 0 || x.height() == 0,
            old(self).window.wf(),
            old(self).window.room(x.height()),
        ensures
            final(self).window.wf(),
            final(self).window@ == old(self).window@.read(front(x)),
            reports(
                &r,
                final(self).window.figures(
                    high_of(old(self).window.values@, old(self).window.values@.len()),
                    high_of(final(self).window.values@, final(self).window.values@.len()),
                    1,
                    x.height() as usize,
                ),
                shape_issues(x, None),
                true,
            ),
    {
        let mut issues: Vec<Issue> = Vec::new();
        inspect_online_xy(&mut issues, x, None);
        assert(issues@ =~= shape_issues(x, None));
        let before: Double = self.score();
        self.window.read(x);
        let after: Double = self.score();
        let quality = self.window.describe(before, after, 1, x.nrows());
        screened_report(quality, issues)
    }
}

/// Mean of the newest numbers.
#[derive(Clone, Debug)]
pub struct RollingMean {
    /// The newest numbers.
    pub window: Window,
}

impl Default for RollingMean {
    fn default() -> (r: RollingMean)
        ensures
            r.window@ == WindowState::blank(),
            r.window.wf(),
    {
        RollingMean::new()
    }
}

impl RollingMean {
    /// No numbers yet.
    pub fn new() -> (r: RollingMean)
        ensures
            r.window@ == WindowState::blank(),
            r.window.wf(),
    {
        RollingMean { window: Window::new() }
    }

    /// The mean, NaN without numbers.
    pub fn score(&self) -> (r: Double)
        ensures
            r == mean_of(self.window.values@),
    {
        let n: usize = self.window.values.len();
        if n == 0 {
            return nan();
        }
        let mut s: Double = zero();
        let mut i: usize = 0;
        while i < n
            invariant
                i <= n,
                n == self.window.values@.len(),
                s == running_sum(self.window.values@, i as nat),
            decreases n - i,
        {
            s = s.plus(self.window.values[i]);
            i = i + 1;
        }
        s.over(Double::from_usize(n))
    }

    /// Reads the first column of a batch.
    pub fn partial_fit(&mut self, x: &Matrix, _y: Option<&Vec<Double>>) -> (r: Update)
        requires
            x.wf(),
            x.width > 0 || x.height() == 0,
            old(self).window.wf(),
            old(self).window.room(x.height()),
        ensures
            final(self).window.wf(),
            final(self).window@ == old(self).window@.read(front(x)),
            reports(
                &r,
                final(self).window.figures(
                    mean_of(old(self).window.values@),
                    mean_of(final(self).window.values@),
                    1,
                    x.height() as usize,
                ),
                shape_issues(x, None),
                true,
            ),
    {
        let mut issues: Vec<Issue> = Vec::new();
        inspect_online_xy(&mut issues, x, None);
        assert(issues@ =~= shape_issues(x, None));
        let before: Double = self.score();
        self.window.read(x);
        let after: Double = self.score();
        let quality = self.window.describe(before, after, 1, x.nrows());
        screened_report(quality, issues)
    }
}

/// Median absolute deviation of the newest numbers.
#[derive(Clone, Debug)]
pub struct OnlineMad {
    /// The newest numbers.
    pub window: Window,
}

impl Default for OnlineMad {
    fn default() -> (r: OnlineMad)
        ensures
            r.window@ == WindowState::blank(),
            r.window.wf(),
    {
        OnlineMad::new()
    }
}

impl OnlineMad {
    /// No numbers yet.
    pub fn new() -> (r: OnlineMad)
        ensures
            r.window@ == WindowState::blank(),
            r.window.wf(),
    {
        OnlineMad { window: Window::new() }
    }

    /// The median absolute deviation, NaN without numbers.
    pub fn score(&self) -> (r: Double)
        ensures
            r == mad_of(self.window.values@),
    {
        let n: usize = self.window.values.len();
        if n == 0 {
            return nan();
        }
        let xs = sorted(&self.window.values);
        let mid: Double = xs[n / 2];
        let mut d: Vec<Double> = Vec::new();
        let mut i: usize = 0;
        while i < n
            invariant
                i <= n,
                n == self.window.values@.len(),
                xs@ == sorted_values(self.window.values@),
                n > 0,
                mid == xs@[(n / 2) as int],
                d@ == deviations(self.window.values@).take(i as int),
            decreases n - i,
        {
            d.push(xs[i].minus(mid).abs());
            i = i + 1;
            assert(d@ =~= deviations(self.window.values@).take(i as int));
        }
        assert(d@ =~= deviations(self.window.values@));
        let ds = sorted(&d);
        ds[n / 2]
    }

    /// Reads the first column of a batch.
    pub fn partial_fit(&mut self, x: &Matrix, _y: Option<&Vec<Double>>) -> (r: Update)
        requires
            x.wf(),
            x.width > 0 || x.height() == 0,
            old(self).window.wf(),
            old(self).window.room(x.height()),
        ensures
            final(self).window.wf(),
            final(self).window@ == old(self).window@.read(front(x)),
            reports(
                &r,
                final(self).window.figures(
                    mad_of(old(self).window.values@),
                    mad_of(final(self).window.values@),
                    3,
                    x.height() as usize,
                ),
                shape_issues(x, None),
                true,
            ),
    {
        let mut issues: Vec<Issue> = Vec::new();
        inspect_online_xy(&mut issues, x, None);
        assert(issues@ =~= shape_issues(x, None));
        let before: Double = self.score();
        self.window.read(x);
        let after: Double = self.score();
        let quality = self.window.describe(before, after, 3, x.nrows());
        screened_report(quality, issues)
    }
}

/// Distance between the quartiles of the newest numbers.
#[derive(Clone, Debug)]
pub struct OnlineIqr {
    /// The newest numbers.
    pub window: Window,
}

impl Default for OnlineIqr {
    fn default() -> (r: OnlineIqr)
        ensures
            r.window@ == WindowState::blank(),
            r.window.wf(),
    {
        OnlineIqr::new()
    }
}

impl OnlineIqr {
    /// No numbers yet.
    pub fn new() -> (r: OnlineIqr)
        ensures
            r.window@ == WindowState::blank(),
            r.window.wf(),
    {
        OnlineIqr { window: Window::new() }
    }

    /// The distance between the quartiles, or NaN when empty.
    pub fn score(&self) -> (r: Double)
        ensures
            r == iqr_of(self.window.values@),
    {
        if self.window.values.len() == 0 {
            return nan();
        }
        let xs = sorted(&self.window.values);
        blend(&xs, three_quarters()).minus(blend(&xs, quarter()))
    }

    /// Reads the first column of a batch.
    pub fn partial_fit(&mut self, x: &Matrix, _y: Option<&Vec<Double>>) -> (r: Update)
        requires
            x.wf(),
            x.width > 0 || x.height() == 0,
            old(self).window.wf(),
            old(self).window.room(x.height()),
        ensures
            final(self).window.wf(),
            final(self).window@ == old(self).window@.read(front(x)),
            reports(
                &r,
                final(self).window.figures(
                    iqr_of(old(self).window.values@),
                    iqr_of(final(self).window.values@),
                    4,
                    x.height() as usize,
                ),
                shape_issues(x, None),
                true,
            ),
    {
        let mut issues: Vec<Issue> = Vec::new();
        inspect_online_xy(&mut issues, x, None);
        assert(issues@ =~= shape_issues(x, None));
        let before: Double = self.score();
        self.window.read(x);
        let after: Double = self.score();
        let quality = self.window.describe(before, after, 4, x.nrows());
        screened_report(quality, issues)
    }
}

/// Whether a share lies strictly between zero and one.
#[verifier::allow_in_spec]
pub fn is_share(q: Double) -> (r: bool)
    returns
        (q.is_finite() && q.gt(zero()) && q.lt(one())),
{
    q.is_finite() && q.gt(zero()) && q.lt(one())
}

/// A share, replaced by `otherwise` unless it lies strictly between zero and one.
#[verifier::allow_in_spec]
pub fn share_or(q: Double, otherwise: Double) -> (r: Double)
    returns
        (if is_share(q) {
            q
        } else {
            otherwise
        }),
{
    if is_share(q) {
        q
    } else {
        otherwise
    }
}

/// Issues about a batch and a share.
pub open spec fn share_issues(x: &Matrix, q: Double) -> Seq<Issue> {
    if is_share(q) {
        shape_issues(x, None)
    } else {
        shape_issues(x, None).push(warning(IssueCode::InvalidWeight))
    }
}

/// Order statistic of the newest numbers.
#[derive(Clone, Debug)]
pub struct RollingQuantile {
    /// Share of the numbers below.
    pub q: Double,
    /// The newest numbers.
    pub window: Window,
}

impl Default for RollingQuantile {
    fn default() -> (r: RollingQuantile)
        ensures
            r.q == half(),
            r.window@ == WindowState::blank(),
            r.window.wf(),
    {
        RollingQuantile::new(half())
    }
}

impl RollingQuantile {
    /// The order statistic at share `q`.
    pub fn new(q: Double) -> (r: RollingQuantile)
        ensures
            r.q == q,
            r.window@ == WindowState::blank(),
            r.window.wf(),
    {
        RollingQuantile { q, window: Window::new() }
    }

    /// The order statistic; the median if the share is out of range, NaN without
    /// numbers.
    pub open spec fn value(&self) -> Double {
        quantile_of(self.window.values@, share_or(self.q, half()))
    }

    /// The order statistic; the median if the share is out of range, NaN without
    /// numbers.
    pub fn score(&self) -> (r: Double)
        ensures
            r == self.value(),
    {
        find_quantile(&self.window.values, share_or(self.q, half()))
    }

    /// Reads the first column of a batch. A share out of range is replaced.
    pub fn partial_fit(&mut self, x: &Matrix, _y: Option<&Vec<Double>>) -> (r: Update)
        requires
            x.wf(),
            x.width > 0 || x.height() == 0,
            old(self).window.wf(),
            old(self).window.room(x.height()),
        ensures
            final(self).window.wf(),
            final(self).q == share_or(old(self).q, half()),
            final(self).window@ == old(self).window@.read(front(x)),
            reports(
                &r,
                final(self).window.figures(old(self).value(), final(self).value(), 4, x.height() as usize),
                share_issues(x, old(self).q),
                true,
            ),
    {
        let mut issues: Vec<Issue> = Vec::new();
        inspect_online_xy(&mut issues, x, None);
        assert(issues@ =~= shape_issues(x, None));
        let before: Double = self.score();
        if !is_share(self.q) {
            issues.push(warning(IssueCode::InvalidWeight));
            self.q = half();
        }
        assert(issues@ =~= share_issues(x, old(self).q));
        assert(is_share(half()));
        self.window.read(x);
        let after: Double = self.score();
        let quality = self.window.describe(before, after, 4, x.nrows());
        screened_report(quality, issues)
    }
}

/// The first `j` cells of a row, appended to those of the first `i` rows.
pub open spec fn cells_before(x: &Matrix, i: nat, j: nat) -> Seq<Double>
    decreases i, j,
{
    if j > 0 {
        cells_before(x, i, (j - 1) as nat).push(x.at(i as int, j - 1))
    } else if i > 0 {
        cells_before(x, (i - 1) as nat, x.width as nat)
    } else {
        Seq::empty()
    }
}

/// All cells of a batch, row by row.
pub open spec fn all_cells(x: &Matrix) -> Seq<Double> {
    cells_before(x, x.height(), 0)
}

/// Cuts numbers off above an order statistic of the newest numbers.
#[derive(Clone, Debug)]
pub struct QuantileFilter {
    /// Share of the numbers below.
    pub q: Double,
    /// The newest numbers.
    pub window: Window,
}

impl Default for QuantileFilter {
    fn default() -> (r: QuantileFilter)
        ensures
            r.q == decimal_95(),
            r.window@ == WindowState::blank(),
            r.window.wf(),
    {
        QuantileFilter::new(decimal_95())
    }
}

/// Shorter lists of cells are prefixes of the window's history.
proof fn lemma_window_extends(w: WindowState, values: Seq<Double>, v: Double)
    ensures
        w.after(values.push(v), values.len() + 1) == w.after(values, values.len()).shown(v),
{
    lemma_window_prefix(w, values, v, values.len());
}

proof fn lemma_window_prefix(w: WindowState, values: Seq<Double>, v: Double, k: nat)
    requires
        k <= values.len(),
    ensures
        w.after(values.push(v), k) == w.after(values, k),
    decreases k,
{
    if k > 0 {
        lemma_window_prefix(w, values, v, (k - 1) as nat);
    }
}

impl QuantileFilter {
    /// A filter at share `q`.
    pub fn new(q: Double) -> (r: QuantileFilter)
        ensures
            r.q == q,
            r.window@ == WindowState::blank(),
            r.window.wf(),
    {
        QuantileFilter { q, window: Window::new() }
    }

    /// Where numbers are cut off; NaN without numbers.
    pub open spec fn cap(&self) -> Double {
        quantile_of(self.window.values@, share_or(self.q, decimal_95()).clamp(zero(), one()))
    }

    fn quantile(&self) -> (r: Double)
        ensures
            r == self.cap(),
    {
        find_quantile(&self.window.values, share_or(self.q, decimal_95()).clamp(zero(), one()))
    }

    /// Reads all cells of a batch, row by row.
    pub fn partial_fit(&mut self, x: &Matrix, _y: Option<&Vec<Double>>) -> (r: Update)
        requires
            x.wf(),
            old(self).window.wf(),
            old(self).window.room((x.height() * x.width) as nat),
        ensures
            final(self).window.wf(),
            final(self).q == old(self).q,
            final(self).window@ == old(self).window@.read(all_cells(x)),
            reports(
                &r,
                final(self).window.figures(old(self).cap(), final(self).cap(), 4, x.height() as usize),
                share_issues(x, old(self).q),
                true,
            ),
    {
        let mut issues: Vec<Issue> = Vec::new();
        inspect_online_xy(&mut issues, x, None);
        assert(issues@ =~= shape_issues(x, None));
        if !is_share(self.q) {
            issues.push(warning(IssueCode::InvalidWeight));
        }
        assert(issues@ =~= share_issues(x, self.q));
        let before: Double = self.quantile();
        let ghost start = self.window@;
        let p: usize = x.ncols();
        let n: usize = x.nrows();
        let mut i: usize = 0;
        while i < n
            invariant
                i <= n,
                n == x.height(),
                p == x.width,
                x.wf(),
                start == old(self).window@,
                finite_window(start.values),
                start.values.len() <= WINDOW,
                start.n_seen + n * p <= u64::MAX,
                self.q == old(self).q,
                cells_before(x, i as nat, 0).len() == i * p,
                self.window@ == start.after(cells_before(x, i as nat, 0), cells_before(x, i as nat, 0).len()),
            decreases n - i,
        {
            let mut j: usize = 0;
            proof {
                assert((i + 1) * p <= n * p) by (nonlinear_arith)
                    requires
                        i + 1 <= n,
                ;
                assert((i + 1) * p == i * p + p) by (nonlinear_arith);
            }
            while j < p
                invariant
                    i < n,
                    j <= p,
                    n == x.height(),
                    p == x.width,
                    x.wf(),
                    finite_window(start.values),
                    start.values.len() <= WINDOW,
                    start.n_seen + i * p + p <= u64::MAX,
                    self.q == old(self).q,
                    cells_before(x, i as nat, j as nat).len() == i * p + j,
                    self.window@ == start.after(
                        cells_before(x, i as nat, j as nat),
                        cells_before(x, i as nat, j as nat).len(),
                    ),
                decreases p - j,
            {
                let ghost cells = cells_before(x, i as nat, j as nat);
                let v: Double = x.get(i, j);
                proof {
                    law_window_is_finite(start, cells, cells.len());
                    lemma_window_extends(start, cells, v);
                }
                self.window.show(v);
                j = j + 1;
            }
            i = i + 1;
        }
        proof {
            law_window_is_finite(start, all_cells(x), all_cells(x).len());
        }
        self.window.updates = self.window.updates + 1;
        let after: Double = self.quantile();
        let quality = self.window.describe(before, after, 4, n);
        screened_report(quality, issues)
    }

    /// A number, cut off at the order statistic.
    pub open spec fn cut(&self, v: Double) -> Double {
        if v.is_finite() && v.gt(self.cap()) {
            self.cap()
        } else {
            v
        }
    }

    /// Cuts every number off at the order statistic. Without numbers the input comes
    /// back, with an issue.
    pub fn transform(&self, x: &Matrix) -> (out: Qualified<Matrix>)
        requires
            x.wf(),
        ensures
            if self.window.values@.len() == 0 {
                passed_through(&out, x)
            } else {
                &&& out.value.wf()
                &&& out.value.height() == x.height()
                &&& out.value.width == x.width
                &&& forall|i: int, j: int|
                    0 <= i < x.height() && 0 <= j < x.width ==> #[trigger] out.value.at(i, j) == self.cut(x.at(i, j))
                &&& out.report@.len() == 0
            },
    {
        if self.window.values.len() == 0 {
            return pass_through(x);
        }
        let cap: Double = self.quantile();
        let mut rows: Vec<Vec<Double>> = Vec::new();
        let mut i: usize = 0;
        while i < x.nrows()
            invariant
                i <= x.height(),
                x.wf(),
                cap == self.cap(),
                rows@.len() == i,
                forall|a: int| 0 <= a < i ==> (#[trigger] rows@[a])@ == Seq::new(x.width as nat, |j: int| self.cut(x.at(a, j))),
            decreases x.height() - i,
        {
            let mut row: Vec<Double> = Vec::new();
            let mut j: usize = 0;
            while j < x.ncols()
                invariant
                    i < x.height(),
                    j <= x.width,
                    x.wf(),
                    cap == self.cap(),
                    row@ == Seq::new(j as nat, |j: int| self.cut(x.at(i as int, j))),
                decreases x.width - j,
            {
                let v: Double = x.get(i, j);
                row.push(
                    if v.is_finite() && v.gt(cap) {
                        cap
                    } else {
                        v
                    },
                );
                j = j + 1;
                assert(row@ =~= Seq::new(j as nat, |j: int| self.cut(x.at(i as int, j))));
            }
            rows.push(row);
            i = i + 1;
        }
        Qualified { value: Matrix { rows, width: x.ncols() }, report: Vec::new() }
    }
}

} // verus!
