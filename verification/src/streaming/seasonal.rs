//! Forecasts of a series.

use crate::constants::{decimal_3, tenth};
use crate::data::{latest, push_within, zero_seq, zeros, Batch, Matrix};
use crate::double::{one, zero, Double};
use crate::online::common::{inspect_online_xy, shape_issues, target};
use crate::quality::{given, issue, raise, IncrementalQuality, Issue, IssueCode, Qualified, Update};
use crate::streaming::columns::{plain_report, rejection, reports, screened_report};
use crate::streaming::linear::{linear_score, score_row, unready};
use crate::streaming::patches::single;
use crate::streaming::rls::{rls_error, LinearRegression, RlsState};
use vstd::prelude::*;

verus! {

/// Additive exponential smoothing with trend and season.
#[derive(Clone, Debug)]
pub struct HoltWintersOnline {
    /// Smoothing of the level.
    pub alpha: Double,
    /// Smoothing of the trend.
    pub beta: Double,
    /// Smoothing of the season.
    pub gamma: Double,
    /// Steps in a season.
    pub period: usize,
    /// Level.
    pub level: Double,
    /// Trend.
    pub trend: Double,
    /// Seasonal terms.
    pub season: Vec<Double>,
    /// Values taken in.
    pub n_seen: u64,
    /// Batches taken in.
    pub updates: u64,
    /// Whether a value was taken in.
    pub initialized: bool,
}

/// The state of the smoothing.
pub struct SeasonState {
    /// Smoothing of the level.
    pub alpha: Double,
    /// Smoothing of the trend.
    pub beta: Double,
    /// Smoothing of the season.
    pub gamma: Double,
    /// Steps in a season.
    pub period: usize,
    /// Level.
    pub level: Double,
    /// Trend.
    pub trend: Double,
    /// Seasonal terms.
    pub season: Seq<Double>,
    /// Values taken in.
    pub n_seen: nat,
    /// Batches taken in.
    pub updates: nat,
    /// Whether a value was taken in.
    pub initialized: bool,
}

impl View for HoltWintersOnline {
    type V = SeasonState;

    open spec fn view(&self) -> SeasonState {
        SeasonState {
            alpha: self.alpha,
            beta: self.beta,
            gamma: self.gamma,
            period: self.period,
            level: self.level,
            trend: self.trend,
            season: self.season@,
            n_seen: self.n_seen as nat,
            updates: self.updates as nat,
            initialized: self.initialized,
        }
    }
}

/// The smoothing in the middle of a series.
pub struct SeasonTrail {
    /// The smoothing.
    pub state: SeasonState,
    /// Squared forecast errors so far.
    pub sse: Double,
}

impl SeasonState {
    /// The state before any value.
    pub open spec fn blank(period: usize, season: Seq<Double>) -> SeasonState {
        SeasonState {
            alpha: decimal_3(),
            beta: tenth(),
            gamma: tenth(),
            period,
            level: zero(),
            trend: zero(),
            season,
            n_seen: 0,
            updates: 0,
            initialized: false,
        }
    }

    /// Steps in a season, at least one.
    pub open spec fn cycle(self) -> nat {
        if self.period < 1 {
            1
        } else {
            self.period as nat
        }
    }

    /// The seasonal term `ahead` steps from the next value, zero if it is missing.
    pub open spec fn seasonal(self, ahead: nat) -> Double {
        let k = (self.n_seen + ahead) % self.cycle();
        if k < self.season.len() {
            self.season[k as int]
        } else {
            zero()
        }
    }

    /// The forecast of the next value.
    pub open spec fn forecast(self) -> Double {
        self.level.plus(self.trend).plus(self.seasonal(0))
    }

    /// The state with one seasonal term per step.
    pub open spec fn fitted(self) -> SeasonState {
        if self.season.len() != self.cycle() {
            SeasonState { season: zero_seq(self.cycle()), ..self }
        } else {
            self
        }
    }

    /// The state after one more value. The first one becomes the level.
    pub open spec fn stepped(self, y: Double) -> SeasonState {
        let f = self.fitted();
        let k = (f.n_seen % f.cycle()) as int;
        let s = f.season[k];
        if !f.initialized {
            SeasonState {
                level: y,
                initialized: true,
                season: f.season.update(k, zero()),
                n_seen: f.n_seen + 1,
                ..f
            }
        } else {
            let level = f.alpha.times(y.minus(s)).plus(one().minus(f.alpha).times(f.level.plus(f.trend)));
            SeasonState {
                level,
                trend: f.beta.times(level.minus(f.level)).plus(one().minus(f.beta).times(f.trend)),
                season: f.season.update(k, f.gamma.times(y.minus(level)).plus(one().minus(f.gamma).times(s))),
                n_seen: f.n_seen + 1,
                ..f
            }
        }
    }
}

impl SeasonTrail {
    /// After the first `k` values.
    pub open spec fn after(self, series: Seq<Double>, k: nat) -> SeasonTrail
        decreases k,
    {
        if k == 0 {
            self
        } else {
            let b = self.after(series, (k - 1) as nat);
            let e = series[k - 1].minus(b.state.forecast());
            SeasonTrail {
                state: b.state.stepped(series[k - 1]),
                sse: if b.state.initialized {
                    b.sse.plus(e.times(e))
                } else {
                    b.sse
                },
            }
        }
    }
}

/// A series only ever touches the seasonal term of its own step: after any value the
/// other terms of the season are as before.
pub proof fn law_season_moves_one_term(s: SeasonState, y: Double)
    requires
        s.season.len() == s.cycle(),
    ensures
        s.stepped(y).season.len() == s.season.len(),
        s.stepped(y).n_seen == s.n_seen + 1,
        forall|k: int|
            0 <= k < s.season.len() && k != s.n_seen % s.cycle() ==> #[trigger] s.stepped(y).season[k] == s.season[k],
{
}

/// The series of a batch: the targets, or the first column if there are none.
pub open spec fn series_of(x: &Matrix, y: Option<Seq<Double>>) -> Seq<Double> {
    match y {
        Some(t) => t,
        None => if x.width > 0 {
            Seq::new(x.height(), |i: int| x.at(i, 0))
        } else {
            Seq::empty()
        },
    }
}

fn take_series(x: &Matrix, y: Option<&Vec<Double>>) -> (r: Vec<Double>)
    requires
        x.wf(),
    ensures
        r@ == series_of(x, target(y)),
{
    match y {
        Some(t) => crate::data::copy(t),
        None => {
            let mut r: Vec<Double> = Vec::new();
            if x.ncols() > 0 {
                let mut i: usize = 0;
                while i < x.nrows()
                    invariant
                        i <= x.height(),
                        x.wf(),
                        x.width > 0,
                        r@ == Seq::new(i as nat, |i: int| x.at(i, 0)),
                    decreases x.height() - i,
                {
                    r.push(x.get(i, 0));
                    i = i + 1;
                    assert(r@ =~= Seq::new(i as nat, |i: int| x.at(i, 0)));
                }
            }
            assert(r@ =~= series_of(x, None));
            r
        },
    }
}

impl Default for HoltWintersOnline {
    fn default() -> (r: HoltWintersOnline)
        ensures
            r@ == SeasonState::blank(4, Seq::empty()),
    {
        let r = HoltWintersOnline {
            alpha: decimal_3(),
            beta: tenth(),
            gamma: tenth(),
            period: 4,
            level: zero(),
            trend: zero(),
            season: Vec::new(),
            n_seen: 0,
            updates: 0,
            initialized: false,
        };
        assert(r.season@ =~= Seq::empty());
        r
    }
}

impl HoltWintersOnline {
    /// Smoothing with the given number of steps in a season.
    pub fn new(period: usize) -> (r: HoltWintersOnline)
        ensures
            ({
                let p: usize = if period < 1 {
                    1
                } else {
                    period
                };
                r@ == SeasonState::blank(p, zero_seq(p as nat))
            }),
    {
        let p: usize = if period < 1 {
            1
        } else {
            period
        };
        HoltWintersOnline {
            alpha: decimal_3(),
            beta: tenth(),
            gamma: tenth(),
            period: p,
            level: zero(),
            trend: zero(),
            season: zeros(p),
            n_seen: 0,
            updates: 0,
            initialized: false,
        }
    }

    /// Current level.
    pub fn level(&self) -> (r: Double)
        ensures
            r == self@.level,
    {
        self.level
    }

    /// Current trend.
    pub fn trend(&self) -> (r: Double)
        ensures
            r == self@.trend,
    {
        self.trend
    }

    fn cycle(&self) -> (p: usize)
        ensures
            p == self@.cycle(),
            p > 0,
    {
        if self.period < 1 {
            1
        } else {
            self.period
        }
    }

    fn seasonal(&self, ahead: usize) -> (r: Double)
        requires
            self.n_seen + ahead <= u64::MAX,
        ensures
            r == self@.seasonal(ahead as nat),
    {
        let p: usize = self.cycle();
        let k: u64 = (self.n_seen + ahead as u64) % (p as u64);
        let k: usize = k as usize;
        if k < self.season.len() {
            self.season[k]
        } else {
            zero()
        }
    }

    fn step(&mut self, y: Double)
        requires
            old(self).n_seen < u64::MAX,
        ensures
            final(self)@ == old(self)@.stepped(y),
    {
        let p: usize = self.cycle();
        if self.season.len() != p {
            self.season = zeros(p);
        }
        let k: u64 = self.n_seen % (p as u64);
        let k: usize = k as usize;
        let s: Double = self.season[k];
        if !self.initialized {
            self.level = y;
            self.initialized = true;
            self.season.set(k, zero());
        } else {
            let level: Double = self.alpha.times(y.minus(s)).plus(
                one().minus(self.alpha).times(self.level.plus(self.trend)),
            );
            let trend: Double = self.beta.times(level.minus(self.level)).plus(
                one().minus(self.beta).times(self.trend),
            );
            let season: Double = self.gamma.times(y.minus(level)).plus(one().minus(self.gamma).times(s));
            self.level = level;
            self.trend = trend;
            self.season.set(k, season);
        }
        self.n_seen = self.n_seen + 1;
    }

    /// What a batch does.
    pub open spec fn answers(&self, after: SeasonState, series: Seq<Double>, r: &Update) -> bool {
        if series.len() == 0 {
            &&& after == self@
            &&& reports(
                r,
                IncrementalQuality::new(self.updates, 0, self.n_seen),
                given(!self.initialized, IssueCode::PartialFitBeforeInit),
                false,
            )
        } else {
            let t = SeasonTrail { state: self@, sse: zero() }.after(series, series.len());
            let dl = after.level.minus(self.level);
            let dt = after.trend.minus(self.trend);
            &&& after == (SeasonState { updates: t.state.updates + 1, ..t.state })
            &&& reports(
                r,
                IncrementalQuality {
                    effective_sample_size: Double::from_u64(after.n_seen as u64),
                    parameter_delta_norm: Some(dl.times(dl).plus(dt.times(dt)).sqrt()),
                    information_gain: Some(t.sse),
                    still_identified: after.n_seen >= after.period,
                    warmup: after.n_seen < after.period,
                    ..IncrementalQuality::new(self.updates, series.len() as usize, after.n_seen as u64)
                },
                given(after.n_seen < after.period, IssueCode::WarmupIncomplete) + given(
                    after.n_seen < 2 * after.period && after.period > 1,
                    IssueCode::InsufficientSeasonalCycles,
                ),
                true,
            )
        }
    }

    /// Takes in the targets of a batch, or its first column if it has none.
    pub fn partial_fit(&mut self, x: &Matrix, y: Option<&Vec<Double>>) -> (r: Update)
        requires
            x.wf(),
            old(self).n_seen + series_of(x, target(y)).len() <= u64::MAX,
            old(self).updates < u64::MAX,
            2 * old(self).period <= u64::MAX,
        ensures
            old(self).answers(final(self)@, series_of(x, target(y)), &r),
    {
        let series: Vec<Double> = take_series(x, y);
        let n: usize = series.len();
        let mut issues: Vec<Issue> = Vec::new();
        if n == 0 {
            raise(&mut issues, !self.initialized, IssueCode::PartialFitBeforeInit);
            assert(issues@ =~= given(!self.initialized, IssueCode::PartialFitBeforeInit));
            return rejection(self.updates, 0, self.n_seen, issues);
        }
        let level: Double = self.level;
        let trend: Double = self.trend;
        let ghost first = SeasonTrail { state: self@, sse: zero() };
        let mut sse: Double = zero();
        let mut i: usize = 0;
        while i < n
            invariant
                i <= n,
                n == series@.len(),
                first == (SeasonTrail { state: old(self)@, sse: zero() }),
                old(self).n_seen + n <= u64::MAX,
                self.n_seen == old(self).n_seen + i,
                self.updates == old(self).updates,
                self.period == old(self).period,
                first.after(series@, i as nat) == (SeasonTrail { state: self@, sse }),
            decreases n - i,
        {
            let guess: Double = self.level.plus(self.trend).plus(self.seasonal(0));
            if self.initialized {
                let e: Double = series[i].minus(guess);
                sse = sse.plus(e.times(e));
            }
            self.step(series[i]);
            i = i + 1;
        }
        self.updates = self.updates + 1;
        let warmup: bool = self.n_seen < self.period as u64;
        raise(&mut issues, warmup, IssueCode::WarmupIncomplete);
        raise(
            &mut issues,
            self.n_seen < 2 * self.period as u64 && self.period > 1,
            IssueCode::InsufficientSeasonalCycles,
        );
        assert(issues@ =~= given(self.n_seen < self.period, IssueCode::WarmupIncomplete) + given(
            self.n_seen < 2 * self.period && self.period > 1,
            IssueCode::InsufficientSeasonalCycles,
        ));
        let dl: Double = self.level.minus(level);
        let dt: Double = self.trend.minus(trend);
        let quality = IncrementalQuality {
            effective_sample_size: Double::from_u64(self.n_seen),
            parameter_delta_norm: Some(dl.times(dl).plus(dt.times(dt)).sqrt()),
            information_gain: Some(sse),
            still_identified: !warmup,
            warmup,
            ..IncrementalQuality::new(self.updates - 1, n, self.n_seen)
        };
        screened_report(quality, issues)
    }

    /// Forecasts as many steps ahead as `x` has rows, or zeros before the first value.
    pub fn predict(&self, x: &Matrix) -> (out: Qualified<Vec<Double>>)
        requires
            self.n_seen + x.height() <= u64::MAX,
        ensures
            if !self.initialized {
                &&& out.value@ == zero_seq(x.height())
                &&& out.report@ == seq![issue(IssueCode::PartialFitBeforeInit)]
            } else {
                &&& out.value@ == Seq::new(
                    x.height(),
                    |h: int|
                        self.level.plus(Double::from_usize(h as usize).plus(one()).times(self.trend)).plus(
                            self@.seasonal(h as nat),
                        ),
                )
                &&& out.report@.len() == 0
            },
    {
        if !self.initialized {
            return unready(x.nrows());
        }
        let mut value: Vec<Double> = Vec::new();
        let mut h: usize = 0;
        while h < x.nrows()
            invariant
                h <= x.height(),
                self.n_seen + x.height() <= u64::MAX,
                value@ == Seq::new(
                    h as nat,
                    |h: int|
                        self.level.plus(Double::from_usize(h as usize).plus(one()).times(self.trend)).plus(
                            self@.seasonal(h as nat),
                        ),
                ),
            decreases x.height() - h,
        {
            let s: Double = self.seasonal(h);
            value.push(self.level.plus(Double::from_usize(h).plus(one()).times(self.trend)).plus(s));
            h = h + 1;
            assert(value@ =~= Seq::new(
                h as nat,
                |h: int|
                    self.level.plus(Double::from_usize(h as usize).plus(one()).times(self.trend)).plus(
                        self@.seasonal(h as nat),
                    ),
            ));
        }
        Qualified { value, report: Vec::new() }
    }
}

/// Regression of a series on its own past, on past errors and on outside columns.
#[derive(Clone, Debug)]
pub struct Snarimax {
    /// Past values used.
    pub p: usize,
    /// Past errors used.
    pub q: usize,
    /// The regression.
    pub inner: LinearRegression,
    /// Past values, newest last.
    pub y_hist: Vec<Double>,
    /// Past errors, newest last.
    pub e_hist: Vec<Double>,
    /// Values taken in.
    pub n_seen: u64,
    /// Batches taken in.
    pub updates: u64,
}

/// The `k`-th value from the end, zero if there are not so many.
pub open spec fn lag(hist: Seq<Double>, k: int) -> Double {
    if hist.len() > k {
        hist[hist.len() - 1 - k]
    } else {
        zero()
    }
}

/// Regression and past in the middle of a batch.
pub struct LagTrail {
    /// The regression.
    pub inner: RlsState,
    /// Past values.
    pub y_hist: Seq<Double>,
    /// Past errors.
    pub e_hist: Seq<Double>,
    /// Sum of the information that the regression reports.
    pub info: Double,
    /// The last error.
    pub last: Double,
}

/// The information that a regression reports for a batch.
pub open spec fn rls_information(s: RlsState, x: Batch, y: Seq<Double>) -> Double {
    if x.height() == 0 || x.width == 0 || !s.fits(x.width) {
        zero()
    } else {
        let first = s.trail(x.width).theta;
        let end = s.end(x, y);
        rls_error(first, x, y, s.fit_intercept).minus(rls_error(end.theta, x, y, s.fit_intercept)).abs().max(
            end.info.over(Double::from_usize(x.height() as usize)),
        )
    }
}

/// The value that a regression gives a row; zero where its length does not fit and
/// its intercept is not finite.
pub open spec fn lag_fit(s: RlsState, z: Seq<Double>) -> Double {
    let c = s.slopes();
    let b = if s.fit_intercept && s.theta.len() > 0 {
        s.theta[0]
    } else {
        zero()
    };
    if c.len() == z.len() || b.is_finite() {
        linear_score(
            b,
            c,
            z,
            if c.len() < z.len() {
                c.len()
            } else {
                z.len()
            },
        )
    } else {
        zero()
    }
}

impl LagTrail {
    /// The row that the regression sees.
    pub open spec fn features(self, p: nat, q: nat, row: Seq<Double>) -> Seq<Double> {
        Seq::new(p, |k: int| lag(self.y_hist, k)) + Seq::new(q, |k: int| lag(self.e_hist, k)) + row
    }

    /// After one more value.
    pub open spec fn shown(self, p: nat, q: nat, row: Seq<Double>, y: Double) -> LagTrail {
        let z = self.features(p, q, row);
        let x = single(z, z.len() as usize);
        let inner = self.inner.taught(x, seq![y]);
        let e = y.minus(lag_fit(inner, z));
        LagTrail {
            inner,
            y_hist: latest(self.y_hist.push(y), 64),
            e_hist: latest(self.e_hist.push(e), 64),
            info: self.info.plus(rls_information(self.inner, x, seq![y])),
            last: e,
        }
    }

    /// After the first `k` values.
    pub open spec fn after(self, p: nat, q: nat, x: Batch, y: Seq<Double>, k: nat) -> LagTrail
        decreases k,
    {
        if k == 0 {
            self
        } else {
            self.after(p, q, x, y, (k - 1) as nat).shown(p, q, x.rows[k - 1], y[k - 1])
        }
    }
}

/// The past never holds more than sixty-four values, and always as many errors.
pub proof fn law_past_is_bounded(t: LagTrail, p: nat, q: nat, x: Batch, y: Seq<Double>, k: nat)
    requires
        t.y_hist.len() <= 64,
        t.e_hist.len() == t.y_hist.len(),
    ensures
        t.after(p, q, x, y, k).y_hist.len() <= 64,
        t.after(p, q, x, y, k).e_hist.len() == t.after(p, q, x, y, k).y_hist.len(),
    decreases k,
{
    if k > 0 {
        law_past_is_bounded(t, p, q, x, y, (k - 1) as nat);
    }
}

impl Default for Snarimax {
    fn default() -> (r: Snarimax)
        ensures
            r.blank(1, 0),
    {
        Snarimax::new(1, 0)
    }
}

impl Snarimax {
    /// The state before any value.
    pub open spec fn blank(&self, p: usize, q: usize) -> bool {
        &&& self.p == p
        &&& self.q == q
        &&& self.inner@ == RlsState::blank(one())
        &&& self.inner.wf()
        &&& self.y_hist@.len() == 0
        &&& self.e_hist@.len() == 0
        &&& self.n_seen == 0
        &&& self.updates == 0
    }

    /// The regression is well formed and the past is short.
    pub open spec fn wf(&self) -> bool {
        &&& self.inner.wf()
        &&& self.y_hist@.len() <= 64
        &&& self.e_hist@.len() == self.y_hist@.len()
    }

    /// A model of `p` past values and `q` past errors.
    pub fn new(p: usize, q: usize) -> (r: Snarimax)
        ensures
            r.blank(p, q),
    {
        Snarimax {
            p,
            q,
            inner: LinearRegression::new(one()),
            y_hist: Vec::new(),
            e_hist: Vec::new(),
            n_seen: 0,
            updates: 0,
        }
    }

    /// What a batch starts from.
    pub open spec fn trail(&self) -> LagTrail {
        LagTrail { inner: self.inner@, y_hist: self.y_hist@, e_hist: self.e_hist@, info: zero(), last: zero() }
    }

    fn feat_row(&self, row: &Vec<Double>) -> (z: Vec<Double>)
        ensures
            z@ == self.trail().features(self.p as nat, self.q as nat, row@),
    {
        let mut z: Vec<Double> = Vec::new();
        let mut k: usize = 0;
        while k < self.p
            invariant
                k <= self.p,
                z@ == Seq::new(k as nat, |k: int| lag(self.y_hist@, k)),
            decreases self.p - k,
        {
            let n: usize = self.y_hist.len();
            z.push(
                if n > k {
                    self.y_hist[n - 1 - k]
                } else {
                    zero()
                },
            );
            k = k + 1;
            assert(z@ =~= Seq::new(k as nat, |k: int| lag(self.y_hist@, k)));
        }
        let ghost front = z@;
        let mut k: usize = 0;
        assert(z@ =~= front + Seq::new(0, |k: int| lag(self.e_hist@, k)));
        while k < self.q
            invariant
                k <= self.q,
                z@ == front + Seq::new(k as nat, |k: int| lag(self.e_hist@, k)),
            decreases self.q - k,
        {
            let n: usize = self.e_hist.len();
            z.push(
                if n > k {
                    self.e_hist[n - 1 - k]
                } else {
                    zero()
                },
            );
            k = k + 1;
            assert(z@ =~= front + Seq::new(k as nat, |k: int| lag(self.e_hist@, k)));
        }
        let mut rest = crate::data::copy(row);
        z.append(&mut rest);
        assert(z@ =~= self.trail().features(self.p as nat, self.q as nat, row@));
        z
    }

    /// Takes in a value. The answer is the information and the error.
    fn show(&mut self, row: &Vec<Double>, y: Double, Ghost(t): Ghost<LagTrail>) -> (r: (Double, Double))
        requires
            old(self).wf(),
            old(self).inner@.room(1),
            old(self).p + old(self).q + row@.len() < usize::MAX,
            t == (LagTrail { info: t.info, last: t.last, ..old(self).trail() }),
        ensures
            final(self).wf(),
            final(self).p == old(self).p,
            final(self).q == old(self).q,
            final(self).n_seen == old(self).n_seen,
            final(self).updates == old(self).updates,
            final(self).inner@.n_seen <= old(self).inner@.n_seen + 1,
            final(self).inner@.updates <= old(self).inner@.updates + 1,
            ({
                let a = t.shown(old(self).p as nat, old(self).q as nat, row@, y);
                &&& a.inner == final(self).inner@
                &&& a.y_hist == final(self).y_hist@
                &&& a.e_hist == final(self).e_hist@
                &&& a.info == t.info.plus(r.0)
                &&& a.last == r.1
            }),
    {
        let z = self.feat_row(row);
        let ghost x = single(z@, z@.len() as usize);
        let width: usize = z.len();
        let fits: bool = !self.inner.initialized || self.inner.theta.len() == if self.inner.fit_intercept {
            width + 1
        } else {
            width
        };
        let mut info: Double = zero();
        if width > 0 && fits {
            let mut rows: Vec<Vec<Double>> = Vec::new();
            rows.push(crate::data::copy(&z));
            let m = Matrix { rows, width };
            assert(m@.rows =~= x.rows);
            let mut ys: Vec<Double> = Vec::new();
            ys.push(y);
            assert(ys@ =~= seq![y]);
            let passage = self.inner.absorb(&m, &ys);
            info = passage.loss_before.minus(passage.loss_after).abs().max(passage.info.over(Double::from_usize(1)));
        }
        let b: Double = self.inner.intercept();
        let c: Vec<Double> = self.inner.coef();
        let guess: Double = if c.len() == z.len() || b.is_finite() {
            score_row(
                b,
                &c,
                &z,
                if c.len() < z.len() {
                    c.len()
                } else {
                    z.len()
                },
            )
        } else {
            zero()
        };
        let e: Double = y.minus(guess);
        push_within(&mut self.y_hist, y, 64);
        push_within(&mut self.e_hist, e, 64);
        (info, e)
    }

    /// Rows that have a target.
    pub open spec fn paired(x: Batch, y: Seq<Double>) -> nat {
        if x.height() < y.len() {
            x.height()
        } else {
            y.len()
        }
    }

    /// What a batch does.
    pub open spec fn answers(&self, after: &Snarimax, x: &Matrix, y: Option<Seq<Double>>, r: &Update) -> bool {
        match y {
            None => {
                &&& *after == *self
                &&& reports(
                    r,
                    IncrementalQuality::new(self.updates, x.height() as usize, self.n_seen),
                    seq![issue(IssueCode::MissingTarget)],
                    false,
                )
            },
            Some(t) => {
                let k = Snarimax::paired(x@, t);
                let end = self.trail().after(self.p as nat, self.q as nat, x@, t, k);
                let warmup = self.y_hist@.len() < self.p || self.y_hist@.len() < self.q || after.n_seen < 5;
                &&& after.p == self.p
                &&& after.q == self.q
                &&& after.inner@ == end.inner
                &&& after.y_hist@ == end.y_hist
                &&& after.e_hist@ == end.e_hist
                &&& after.n_seen == self.n_seen + k
                &&& after.updates == self.updates + 1
                &&& reports(
                    r,
                    IncrementalQuality {
                        effective_sample_size: Double::from_u64(after.n_seen),
                        information_gain: Some(end.info.abs().plus(end.last.abs())),
                        still_identified: after.n_seen > self.p + self.q + x.width,
                        warmup,
                        ..IncrementalQuality::new(self.updates, x.height() as usize, after.n_seen)
                    },
                    shape_issues(x, y) + given(warmup, IssueCode::WarmupIncomplete),
                    false,
                )
            },
        }
    }

    /// Takes in a batch, unless it has no target.
    pub fn partial_fit(&mut self, x: &Matrix, y: Option<&Vec<Double>>) -> (r: Update)
        requires
            x.wf(),
            old(self).wf(),
            old(self).p + old(self).q + x.width < usize::MAX,
            old(self).n_seen + x.height() <= u64::MAX,
            old(self).inner@.n_seen + x.height() <= u64::MAX,
            old(self).inner@.updates + x.height() <= u64::MAX,
            old(self).updates < u64::MAX,
        ensures
            final(self).wf(),
            old(self).answers(final(self), x, target(y), &r),
    {
        let n: usize = x.nrows();
        let mut issues: Vec<Issue> = Vec::new();
        let t: &Vec<Double> = match y {
            None => {
                issues.push(issue(IssueCode::MissingTarget));
                assert(issues@ =~= seq![issue(IssueCode::MissingTarget)]);
                return rejection(self.updates, n, self.n_seen, issues);
            },
            Some(t) => t,
        };
        inspect_online_xy(&mut issues, x, Some(t));
        assert(issues@ =~= shape_issues(x, Some(t@)));
        let short: bool = self.y_hist.len() < self.p || self.y_hist.len() < self.q;
        let k: usize = if n < t.len() {
            n
        } else {
            t.len()
        };
        let ghost first = self.trail();
        let ghost p = self.p as nat;
        let ghost q = self.q as nat;
        let mut info: Double = zero();
        let mut last: Double = zero();
        let mut i: usize = 0;
        while i < k
            invariant
                i <= k,
                k <= x.height(),
                k <= t@.len(),
                x.wf(),
                self.wf(),
                p == self.p,
                q == self.q,
                self.p == old(self).p,
                self.q == old(self).q,
                self.n_seen == old(self).n_seen,
                self.updates == old(self).updates,
                self.p + self.q + x.width < usize::MAX,
                self.inner@.n_seen <= old(self).inner@.n_seen + i,
                self.inner@.updates <= old(self).inner@.updates + i,
                old(self).inner@.n_seen + x.height() <= u64::MAX,
                old(self).inner@.updates + x.height() <= u64::MAX,
                first == old(self).trail(),
                first.after(p, q, x@, t@, i as nat) == (LagTrail { info, last, ..self.trail() }),
            decreases k - i,
        {
            assert(x@.rows[i as int] == x.rows@[i as int]@);
            assert(x.rows[i as int]@.len() == x.width);
            let (gain, e) = self.show(&x.rows[i], t[i], Ghost(first.after(p, q, x@, t@, i as nat)));
            info = info.plus(gain);
            last = e;
            i = i + 1;
        }
        self.n_seen = self.n_seen + k as u64;
        self.updates = self.updates + 1;
        let warmup: bool = short || self.n_seen < 5;
        raise(&mut issues, warmup, IssueCode::WarmupIncomplete);
        let size: usize = self.p + self.q + x.ncols();
        let quality = IncrementalQuality {
            effective_sample_size: Double::from_u64(self.n_seen),
            information_gain: Some(info.abs().plus(last.abs())),
            still_identified: self.n_seen > size as u64,
            warmup,
            ..IncrementalQuality::new(self.updates - 1, n, self.n_seen)
        };
        plain_report(quality, issues)
    }
}

} // verus!
