//! Counts of categories, and what is derived from them.

use crate::constants::fifth;
use crate::data::Matrix;
use crate::double::{nan, one, zero, Double};
use crate::functions::{apply, curve, is_function, Curve};
use crate::online::common::{first_column, inspect_online_xy, shape_issues, target};
use crate::quality::{issue, warning, IncrementalQuality, Issue, IssueCode, Qualified, Update};
use crate::streaming::columns::{rejection, reports, screened_report};
use crate::streaming::metrics::pair_count;
use vstd::prelude::*;

verus! {

/// How often each category occurred. No category is listed twice.
#[derive(Clone, Debug)]
pub struct Tally {
    /// Category and count, in the order in which the categories were met.
    pub entries: Vec<(i64, u64)>,
}

/// Whether entry `a` is for category `key`.
pub open spec fn entry_for(entries: Seq<(i64, u64)>, a: int, key: i64) -> bool {
    0 <= a < entries.len() && entries[a].0 == key
}

impl Tally {
    /// No category twice, and none without an occurrence.
    pub open spec fn wf(&self) -> bool {
        &&& forall|a: int, b: int|
            0 <= a < b < self.entries@.len() ==> (#[trigger] self.entries@[a]).0 != (#[trigger] self.entries@[b]).0
        &&& forall|a: int| 0 <= a < self.entries@.len() ==> (#[trigger] self.entries@[a]).1 > 0
    }

    /// How often `key` occurred.
    pub open spec fn count(&self, key: i64) -> u64 {
        if exists|a: int| entry_for(self.entries@, a, key) {
            self.entries@[choose|a: int| entry_for(self.entries@, a, key)].1
        } else {
            0
        }
    }

    /// An empty tally.
    pub fn new() -> (r: Tally)
        ensures
            r.wf(),
            r.entries@.len() == 0,
            forall|key: i64| r.count(key) == 0,
    {
        Tally { entries: Vec::new() }
    }

    proof fn lemma_count_at(&self, a: int)
        requires
            self.wf(),
            0 <= a < self.entries@.len(),
        ensures
            self.count(self.entries@[a].0) == self.entries@[a].1,
    {
        let key = self.entries@[a].0;
        assert(entry_for(self.entries@, a, key));
        let b = choose|b: int| entry_for(self.entries@, b, key);
        if a < b {
            assert(self.entries@[a].0 != self.entries@[b].0);
        } else if b < a {
            assert(self.entries@[b].0 != self.entries@[a].0);
        }
    }

    /// Counts one more occurrence of `key`.
    pub fn count_one(&mut self, key: i64)
        requires
            old(self).wf(),
            old(self).count(key) < u64::MAX,
        ensures
            final(self).wf(),
            final(self).count(key) == old(self).count(key) + 1,
            forall|other: i64| other != key ==> final(self).count(other) == old(self).count(other),
            final(self).entries@.len() == old(self).entries@.len() + if old(self).count(key) == 0 {
                1int
            } else {
                0
            },
    {
        let ghost before = *self;
        let mut a: usize = 0;
        while a < self.entries.len()
            invariant
                a <= self.entries@.len(),
                *self == before,
                before.wf(),
                before.count(key) < u64::MAX,
                forall|b: int| 0 <= b < a ==> (#[trigger] before.entries@[b]).0 != key,
            ensures
                a <= self.entries@.len(),
                *self == before,
                forall|b: int| 0 <= b < a ==> (#[trigger] before.entries@[b]).0 != key,
                a < before.entries@.len() ==> before.entries@[a as int].0 == key,
            decreases self.entries@.len() - a,
        {
            if self.entries[a].0 == key {
                break;
            }
            a = a + 1;
        }
        if a < self.entries.len() {
            proof {
                before.lemma_count_at(a as int);
            }
            let c: u64 = self.entries[a].1;
            self.entries.set(a, (key, c + 1));
        } else {
            self.entries.push((key, 1));
        }
        proof {
            assert forall|i: int, j: int| 0 <= i < j < self.entries@.len() implies (#[trigger] self.entries@[i]).0
                != (#[trigger] self.entries@[j]).0 by {
                if j < before.entries@.len() {
                    assert(before.entries@[i].0 != before.entries@[j].0);
                } else {
                    assert(before.entries@[i].0 != key);
                }
            }
            assert(self.wf());
            self.lemma_count_at(a as int);
            if a < before.entries@.len() {
                before.lemma_count_at(a as int);
                assert(before.entries@[a as int].1 > 0);
            } else {
                assert(before.count(key) == 0);
            }
            assert forall|other: i64| other != key implies self.count(other) == before.count(other) by {
                if exists|b: int| entry_for(before.entries@, b, other) {
                    let b = choose|b: int| entry_for(before.entries@, b, other);
                    before.lemma_count_at(b);
                    assert(self.entries@[b] == before.entries@[b]);
                    self.lemma_count_at(b);
                } else if exists|b: int| entry_for(self.entries@, b, other) {
                    let b = choose|b: int| entry_for(self.entries@, b, other);
                    assert(b != a);
                    assert(entry_for(before.entries@, b, other));
                }
            }
        }
    }

    /// Largest count among the first `k` entries.
    pub open spec fn largest(entries: Seq<(i64, u64)>, k: nat) -> u64
        decreases k,
    {
        if k <= 1 {
            entries[0].1
        } else {
            let earlier = Tally::largest(entries, (k - 1) as nat);
            if entries[k - 1].1 > earlier {
                entries[k - 1].1
            } else {
                earlier
            }
        }
    }

    /// Smallest count among the first `k` entries.
    pub open spec fn smallest(entries: Seq<(i64, u64)>, k: nat) -> u64
        decreases k,
    {
        if k <= 1 {
            entries[0].1
        } else {
            let earlier = Tally::smallest(entries, (k - 1) as nat);
            if entries[k - 1].1 < earlier {
                entries[k - 1].1
            } else {
                earlier
            }
        }
    }

    /// Smallest and largest count; 1 and 1 if there is none.
    pub open spec fn range(&self) -> (u64, u64) {
        if self.entries@.len() == 0 {
            (1, 1)
        } else {
            (
                Tally::smallest(self.entries@, self.entries@.len()),
                Tally::largest(self.entries@, self.entries@.len()),
            )
        }
    }

    /// Smallest and largest count; 1 and 1 if there is none.
    pub fn extremes(&self) -> (r: (u64, u64))
        ensures
            r == self.range(),
    {
        if self.entries.len() == 0 {
            return (1, 1);
        }
        let mut low: u64 = self.entries[0].1;
        let mut high: u64 = self.entries[0].1;
        let mut k: usize = 1;
        while k < self.entries.len()
            invariant
                1 <= k <= self.entries@.len(),
                low == Tally::smallest(self.entries@, k as nat),
                high == Tally::largest(self.entries@, k as nat),
            decreases self.entries@.len() - k,
        {
            let c: u64 = self.entries[k].1;
            if c < low {
                low = c;
            }
            if c > high {
                high = c;
            }
            k = k + 1;
        }
        (low, high)
    }
}

/// Occurrences of `key` among the first `k` values, rounded; values that are not
/// finite do not count.
pub open spec fn occurrences(values: Seq<Double>, key: i64, k: nat) -> nat
    decreases k,
{
    if k == 0 {
        0
    } else {
        occurrences(values, key, (k - 1) as nat) + if values[k - 1].is_finite() && values[k - 1].round_to_i64() == key {
            1nat
        } else {
            0
        }
    }
}

/// Finite values among the first `k`.
pub open spec fn finite_count(values: Seq<Double>, k: nat) -> nat
    decreases k,
{
    if k == 0 {
        0
    } else {
        finite_count(values, (k - 1) as nat) + if values[k - 1].is_finite() {
            1nat
        } else {
            0
        }
    }
}

/// No category occurs more often than there are finite values.
pub proof fn law_occurrences_are_finite_values(values: Seq<Double>, key: i64, k: nat)
    ensures
        occurrences(values, key, k) <= finite_count(values, k) <= k,
    decreases k,
{
    if k > 0 {
        law_occurrences_are_finite_values(values, key, (k - 1) as nat);
    }
}

/// A tally and the number of values behind it.
#[derive(Clone, Debug)]
pub struct Census {
    /// How often each category occurred.
    pub tally: Tally,
    /// Finite values taken in.
    pub n: u64,
    /// Batches taken in.
    pub updates: u64,
}

impl Census {
    /// Every count is at most the number of values.
    pub open spec fn wf(&self) -> bool {
        &&& self.tally.wf()
        &&& forall|key: i64| #[trigger] self.tally.count(key) <= self.n
    }

    /// The state before any value.
    pub open spec fn blank(&self) -> bool {
        self.tally.entries@.len() == 0 && self.n == 0 && self.updates == 0
    }

    fn new() -> (r: Census)
        ensures
            r.blank(),
            r.wf(),
    {
        Census { tally: Tally::new(), n: 0, updates: 0 }
    }

    /// The census after `k` more values.
    pub open spec fn is_after(&self, before: &Census, values: Seq<Double>, k: nat) -> bool {
        &&& forall|key: i64| #[trigger] self.tally.count(key) == before.tally.count(key) + occurrences(values, key, k)
        &&& self.n == before.n + finite_count(values, k)
        &&& before.tally.entries@.len() <= self.tally.entries@.len()
    }

    fn take_in(&mut self, values: &Vec<Double>, k: usize)
        requires
            old(self).wf(),
            k <= values@.len(),
            old(self).n + finite_count(values@, k as nat) <= u64::MAX,
        ensures
            final(self).wf(),
            final(self).is_after(old(self), values@, k as nat),
            final(self).updates == old(self).updates,
    {
        let ghost before = *self;
        let mut i: usize = 0;
        while i < k
            invariant
                i <= k,
                k <= values@.len(),
                self.wf(),
                self.is_after(&before, values@, i as nat),
                self.updates == before.updates,
                before.n + finite_count(values@, k as nat) <= u64::MAX,
            decreases k - i,
        {
            let v: Double = values[i];
            if v.is_finite() {
                proof {
                    lemma_finite_count_grows(values@, (i + 1) as nat, k as nat);
                }
                let ghost now = *self;
                let key: i64 = v.round_to_i64();
                assert(now.tally.count(key) <= now.n);
                self.tally.count_one(key);
                self.n = self.n + 1;
                assert forall|other: i64| #[trigger] self.tally.count(other) <= self.n by {
                    assert(now.tally.count(other) <= now.n);
                }
                assert forall|other: i64| #[trigger] self.tally.count(other) == before.tally.count(other) + occurrences(
                    values@,
                    other,
                    (i + 1) as nat,
                ) by {
                    assert(now.tally.count(other) == before.tally.count(other) + occurrences(
                        values@,
                        other,
                        i as nat,
                    ));
                }
            } else {
                assert forall|other: i64| #[trigger] self.tally.count(other) == before.tally.count(other) + occurrences(
                    values@,
                    other,
                    (i + 1) as nat,
                ) by {
                }
            }
            i = i + 1;
        }
    }
}

proof fn lemma_finite_count_grows(values: Seq<Double>, a: nat, b: nat)
    requires
        a <= b,
    ensures
        finite_count(values, a) <= finite_count(values, b),
    decreases b - a,
{
    if a < b {
        lemma_finite_count_grows(values, a, (b - 1) as nat);
    }
}

/// What a sampler reports on a batch of labels.
pub open spec fn sampler_figures(census: &Census, before_n: u64, batch: usize) -> IncrementalQuality {
    IncrementalQuality {
        effective_sample_size: Double::from_u64(census.n),
        parameter_delta_norm: Some(Double::from_u64((census.n - before_n) as u64)),
        information_gain: Some(Double::from_usize(batch)),
        still_identified: census.tally.entries@.len() >= 2,
        warmup: census.n < 2,
        ..IncrementalQuality::new((census.updates - 1) as u64, batch, census.n)
    }
}

/// What a sampler does with a batch of labels.
pub open spec fn sampler_answers(before: &Census, after: &Census, x: &Matrix, y: Option<Seq<Double>>, r: &Update) -> bool {
    match y {
        None => {
            &&& *after == *before
            &&& reports(
                r,
                IncrementalQuality::new(before.updates, x.height() as usize, before.n),
                shape_issues(x, None) + seq![issue(IssueCode::MissingTarget)],
                false,
            )
        },
        Some(t) => {
            &&& after.is_after(before, t, pair_count(x, t))
            &&& after.updates == before.updates + 1
            &&& reports(r, sampler_figures(after, before.n, x.height() as usize), shape_issues(x, y), true)
        },
    }
}

fn count_labels(census: &mut Census, x: &Matrix, y: Option<&Vec<Double>>) -> (r: Update)
    requires
        old(census).wf(),
        old(census).updates < u64::MAX,
        y matches Some(t) ==> old(census).n + finite_count(t@, pair_count(x, t@)) <= u64::MAX,
    ensures
        final(census).wf(),
        sampler_answers(old(census), final(census), x, target(y), &r),
{
    let mut issues: Vec<Issue> = Vec::new();
    inspect_online_xy(&mut issues, x, y);
    match y {
        None => {
            issues.push(issue(IssueCode::MissingTarget));
            assert(issues@ =~= shape_issues(x, None) + seq![issue(IssueCode::MissingTarget)]);
            rejection(census.updates, x.nrows(), census.n, issues)
        },
        Some(t) => {
            let k: usize = if t.len() < x.nrows() {
                t.len()
            } else {
                x.nrows()
            };
            let before: u64 = census.n;
            census.take_in(t, k);
            census.updates = census.updates + 1;
            assert(issues@ =~= shape_issues(x, Some(t@)));
            let quality = IncrementalQuality {
                effective_sample_size: Double::from_u64(census.n),
                parameter_delta_norm: Some(Double::from_u64(census.n - before)),
                information_gain: Some(Double::from_usize(x.nrows())),
                still_identified: census.tally.entries.len() >= 2,
                warmup: census.n < 2,
                ..IncrementalQuality::new(census.updates - 1, x.nrows(), census.n)
            };
            screened_report(quality, issues)
        },
    }
}

/// Keeps class counts and warns of a severe imbalance.
#[derive(Clone, Debug)]
pub struct RandomOverSampler {
    /// Class counts.
    pub census: Census,
}

impl Default for RandomOverSampler {
    fn default() -> (r: RandomOverSampler)
        ensures
            r.census.blank(),
            r.census.wf(),
    {
        RandomOverSampler::new()
    }
}

impl RandomOverSampler {
    /// An empty sampler.
    pub fn new() -> (r: RandomOverSampler)
        ensures
            r.census.blank(),
            r.census.wf(),
    {
        RandomOverSampler { census: Census::new() }
    }

    /// Counts the labels of a batch.
    pub fn partial_fit(&mut self, x: &Matrix, y: Option<&Vec<Double>>) -> (r: Update)
        requires
            old(self).census.wf(),
            old(self).census.updates < u64::MAX,
            y matches Some(t) ==> old(self).census.n + finite_count(t@, pair_count(x, t@)) <= u64::MAX,
        ensures
            final(self).census.wf(),
            sampler_answers(&old(self).census, &final(self).census, x, target(y), &r),
    {
        count_labels(&mut self.census, x, y)
    }

    /// Whether the largest class is more than twenty times the smallest.
    pub open spec fn imbalanced(&self) -> bool {
        let (low, high) = self.census.tally.range();
        low == 0 || high / low > 20
    }

    /// Gives the rows back, with a warning where the classes are imbalanced.
    pub fn transform(&self, x: &Matrix) -> (out: Qualified<Matrix>)
        requires
            x.wf(),
        ensures
            out.value.wf(),
            out.value.agrees(x),
            out.report@ == shape_issues(x, None) + if self.imbalanced() {
                seq![warning(IssueCode::ClassImbalanceSevere)]
            } else {
                Seq::empty()
            },
    {
        let mut report: Vec<Issue> = Vec::new();
        inspect_online_xy(&mut report, x, None);
        let (low, high): (u64, u64) = self.census.tally.extremes();
        if low == 0 || high / low > 20 {
            report.push(warning(IssueCode::ClassImbalanceSevere));
        }
        assert(report@ =~= shape_issues(x, None) + if self.imbalanced() {
            seq![warning(IssueCode::ClassImbalanceSevere)]
        } else {
            Seq::empty()
        });
        Qualified { value: x.copy(), report }
    }
}

/// Keeps class counts and thins out rows by the class ratio.
#[derive(Clone, Debug)]
pub struct RandomUnderSampler {
    /// Class counts.
    pub census: Census,
}

impl Default for RandomUnderSampler {
    fn default() -> (r: RandomUnderSampler)
        ensures
            r.census.blank(),
            r.census.wf(),
    {
        RandomUnderSampler::new()
    }
}

/// Rows, among the first `k`, whose draw is at most `keep`.
pub open spec fn drawn_rows(draws: Seq<Double>, keep: Double, k: nat) -> Seq<int>
    decreases k,
{
    if k == 0 {
        Seq::empty()
    } else {
        let earlier = drawn_rows(draws, keep, (k - 1) as nat);
        if draws[k - 1].le(keep) {
            earlier.push(k - 1)
        } else {
            earlier
        }
    }
}

impl RandomUnderSampler {
    /// An empty sampler.
    pub fn new() -> (r: RandomUnderSampler)
        ensures
            r.census.blank(),
            r.census.wf(),
    {
        RandomUnderSampler { census: Census::new() }
    }

    /// Counts the labels of a batch.
    pub fn partial_fit(&mut self, x: &Matrix, y: Option<&Vec<Double>>) -> (r: Update)
        requires
            old(self).census.wf(),
            old(self).census.updates < u64::MAX,
            y matches Some(t) ==> old(self).census.n + finite_count(t@, pair_count(x, t@)) <= u64::MAX,
        ensures
            final(self).census.wf(),
            sampler_answers(&old(self).census, &final(self).census, x, target(y), &r),
    {
        count_labels(&mut self.census, x, y)
    }

    /// The share of rows to keep: smallest over largest class, between 0.2 and 1.
    pub open spec fn keep_share(&self) -> Double {
        let (low, high) = self.census.tally.range();
        if high > 0 {
            Double::from_u64(low).over(Double::from_u64(high)).clamp(fifth(), one())
        } else {
            one()
        }
    }

    /// The rows that are kept, given one uniform draw per row; row 0 if none is.
    pub open spec fn kept_rows(&self, draws: Seq<Double>, n: nat) -> Seq<int> {
        let kept = drawn_rows(draws, self.keep_share(), n);
        if kept.len() == 0 && n > 0 {
            seq![0]
        } else {
            kept
        }
    }

    /// Thins out the rows, given one uniform draw per row.
    pub fn transform(&self, x: &Matrix, draws: &Vec<Double>) -> (out: Qualified<Matrix>)
        requires
            x.wf(),
            draws@.len() == x.height(),
        ensures
            out.value.wf(),
            out.value.width == x.width,
            out.value.height() == self.kept_rows(draws@, x.height()).len(),
            forall|r: int|
                0 <= r < out.value.height() ==> (#[trigger] out.value.rows@[r])@ == x.rows@[self.kept_rows(
                    draws@,
                    x.height(),
                )[r]]@,
            out.report@ == shape_issues(x, None),
    {
        let mut report: Vec<Issue> = Vec::new();
        inspect_online_xy(&mut report, x, None);
        assert(report@ =~= shape_issues(x, None));
        let (low, high): (u64, u64) = self.census.tally.extremes();
        let keep: Double = if high > 0 {
            Double::from_u64(low).over(Double::from_u64(high)).clamp(fifth(), one())
        } else {
            one()
        };
        let mut rows: Vec<Vec<Double>> = Vec::new();
        let mut i: usize = 0;
        while i < x.nrows()
            invariant
                i <= x.height(),
                x.wf(),
                draws@.len() == x.height(),
                rows@.len() == drawn_rows(draws@, keep, i as nat).len(),
                forall|r: int|
                    0 <= r < rows@.len() ==> (#[trigger] rows@[r])@ == x.rows@[drawn_rows(draws@, keep, i as nat)[r]]@,
                forall|r: int| 0 <= r < rows@.len() ==> (#[trigger] rows@[r])@.len() == x.width,
            decreases x.height() - i,
        {
            if draws[i].le(keep) {
                let row = x.row(i);
                rows.push(row);
            }
            i = i + 1;
        }
        if rows.len() == 0 && x.nrows() > 0 {
            let row = x.row(0);
            rows.push(row);
        }
        Qualified { value: Matrix { rows, width: x.ncols() }, report }
    }
}

/// Shannon entropy of the rounded values of column 0.
#[derive(Clone, Debug)]
pub struct OnlineEntropy {
    /// Counts of the rounded values.
    pub census: Census,
}

impl Default for OnlineEntropy {
    fn default() -> (r: OnlineEntropy)
        ensures
            r.census.blank(),
            r.census.wf(),
    {
        OnlineEntropy::new()
    }
}

/// Entropy of the first `k` shares.
pub open spec fn entropy_of(shares: Seq<Double>, ln: Curve, k: nat) -> Double
    decreases k,
{
    if k == 0 {
        zero()
    } else {
        let earlier = entropy_of(shares, ln, (k - 1) as nat);
        if shares[k - 1].gt(zero()) {
            earlier.minus(shares[k - 1].times(ln(shares[k - 1])))
        } else {
            earlier
        }
    }
}

impl OnlineEntropy {
    /// An empty accumulator.
    pub fn new() -> (r: OnlineEntropy)
        ensures
            r.census.blank(),
            r.census.wf(),
    {
        OnlineEntropy { census: Census::new() }
    }

    /// The share of each category in the order in which they were met.
    pub open spec fn share_seq(&self) -> Seq<Double> {
        Seq::new(
            self.census.tally.entries@.len(),
            |a: int| Double::from_u64(self.census.tally.entries@[a].1).over(Double::from_u64(self.census.n)),
        )
    }

    /// The share of each category in the order in which they were met.
    pub fn shares(&self) -> (r: Vec<Double>)
        ensures
            r@ == self.share_seq(),
    {
        let total: Double = Double::from_u64(self.census.n);
        let mut r: Vec<Double> = Vec::new();
        let mut a: usize = 0;
        while a < self.census.tally.entries.len()
            invariant
                a <= self.census.tally.entries@.len(),
                total == Double::from_u64(self.census.n),
                r@ == self.share_seq().take(a as int),
            decreases self.census.tally.entries@.len() - a,
        {
            r.push(Double::from_u64(self.census.tally.entries[a].1).over(total));
            a = a + 1;
            assert(r@ =~= self.share_seq().take(a as int));
        }
        assert(r@ =~= self.share_seq());
        r
    }

    /// The entropy in nats, or NaN when empty.
    pub open spec fn level(&self, ln: Curve) -> Double {
        if self.census.n == 0 {
            nan()
        } else {
            entropy_of(self.share_seq(), ln, self.share_seq().len())
        }
    }

    /// The entropy in nats, or NaN when empty. `ln` is the natural logarithm.
    pub fn score<F: Fn(Double) -> Double>(&self, ln: &F) -> (r: Double)
        requires
            is_function(*ln),
        ensures
            r == self.level(curve(*ln)),
    {
        if self.census.n == 0 {
            return nan();
        }
        let shares = self.shares();
        let mut h: Double = zero();
        let mut a: usize = 0;
        while a < shares.len()
            invariant
                a <= shares@.len(),
                is_function(*ln),
                shares@ == self.share_seq(),
                h == entropy_of(shares@, curve(*ln), a as nat),
            decreases shares@.len() - a,
        {
            let p: Double = shares[a];
            if p.gt(zero()) {
                h = h.minus(p.times(apply(ln, p)));
            }
            a = a + 1;
        }
        h
    }

    /// Quality figures of a batch, given the entropy before and after it.
    pub open spec fn figures(&self, before: Double, after: Double, batch: usize) -> IncrementalQuality {
        IncrementalQuality {
            effective_sample_size: Double::from_u64(self.census.n),
            parameter_delta_norm: Some(
                if before.is_finite() && after.is_finite() {
                    after.minus(before).abs()
                } else {
                    zero()
                },
            ),
            information_gain: Some(Double::from_usize(batch)),
            still_identified: self.census.tally.entries@.len() >= 2,
            warmup: self.census.n < 2,
            ..IncrementalQuality::new((self.census.updates - 1) as u64, batch, self.census.n)
        }
    }

    /// Counts the values of column 0. `ln` is the natural logarithm.
    pub fn partial_fit<F: Fn(Double) -> Double>(&mut self, x: &Matrix, _y: Option<&Vec<Double>>, ln: &F) -> (r: Update)
        requires
            x.wf(),
            is_function(*ln),
            x.height() > 0 ==> x.width > 0,
            old(self).census.wf(),
            old(self).census.updates < u64::MAX,
            old(self).census.n + finite_count(first_column(x), x.height()) <= u64::MAX,
        ensures
            final(self).census.wf(),
            final(self).census.is_after(&old(self).census, first_column(x), x.height()),
            final(self).census.updates == old(self).census.updates + 1,
            reports(
                &r,
                final(self).figures(
                    old(self).level(curve(*ln)),
                    final(self).level(curve(*ln)),
                    x.height() as usize,
                ),
                shape_issues(x, None),
                true,
            ),
    {
        let mut issues: Vec<Issue> = Vec::new();
        inspect_online_xy(&mut issues, x, None);
        assert(issues@ =~= shape_issues(x, None));
        let before: Double = self.score(ln);
        let mut values: Vec<Double> = Vec::new();
        let mut i: usize = 0;
        while i < x.nrows()
            invariant
                i <= x.height(),
                x.wf(),
                x.height() > 0 ==> x.width > 0,
                values@ == first_column(x).take(i as int),
            decreases x.height() - i,
        {
            values.push(x.get(i, 0));
            i = i + 1;
            assert(values@ =~= first_column(x).take(i as int));
        }
        assert(values@ =~= first_column(x));
        self.census.take_in(&values, x.nrows());
        self.census.updates = self.census.updates + 1;
        let after: Double = self.score(ln);
        let quality = IncrementalQuality {
            effective_sample_size: Double::from_u64(self.census.n),
            parameter_delta_norm: Some(
                if before.is_finite() && after.is_finite() {
                    after.minus(before).abs()
                } else {
                    zero()
                },
            ),
            information_gain: Some(Double::from_usize(x.nrows())),
            still_identified: self.census.tally.entries.len() >= 2,
            warmup: self.census.n < 2,
            ..IncrementalQuality::new(self.census.updates - 1, x.nrows(), self.census.n)
        };
        screened_report(quality, issues)
    }
}

} // verus!
