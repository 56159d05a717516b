//! Category encoders.

use crate::constants::neg_one;
use crate::data::Matrix;
use crate::double::{one, zero, Double};
use crate::online::common::{inspect_online_xy, shape_issues};
use crate::quality::{issue, warning, IncrementalQuality, Issue, IssueCode, Qualified, Update};
use crate::streaming::columns::{copy_columns, rejection, reports, screened_report};
use crate::streaming::scalers::at_least_one_of;
use vstd::prelude::*;

verus! {

/// The codes of a column after one more entry. A code that is new is appended
/// while there is room.
pub open spec fn met(codes: Seq<i64>, cap: usize, v: Double) -> Seq<i64> {
    if !v.is_finite() || codes.contains(v.round_to_i64()) || codes.len() >= cap {
        codes
    } else {
        codes.push(v.round_to_i64())
    }
}

/// What one more entry raises: a warning if there is no room for its code, or
/// if a code is new after the first batch.
pub open spec fn met_issues(codes: Seq<i64>, cap: usize, later: bool, v: Double) -> Seq<Issue> {
    if !v.is_finite() || codes.contains(v.round_to_i64()) {
        Seq::empty()
    } else if codes.len() >= cap {
        seq![warning(IssueCode::InvalidWeight)]
    } else if later {
        seq![warning(IssueCode::FeatureSpaceChangedOnline)]
    } else {
        Seq::empty()
    }
}

/// The codes after the first `k` entries of column `j`.
pub open spec fn codes_after(codes: Seq<i64>, cap: usize, x: &Matrix, j: int, k: nat) -> Seq<i64>
    decreases k,
{
    if k == 0 {
        codes
    } else {
        met(codes_after(codes, cap, x, j, (k - 1) as nat), cap, x.at(k - 1, j))
    }
}

/// What the first `k` entries of column `j` raise.
pub open spec fn column_issues(codes: Seq<i64>, cap: usize, later: bool, x: &Matrix, j: int, k: nat) -> Seq<Issue>
    decreases k,
{
    if k == 0 {
        Seq::empty()
    } else {
        column_issues(codes, cap, later, x, j, (k - 1) as nat) + met_issues(
            codes_after(codes, cap, x, j, (k - 1) as nat),
            cap,
            later,
            x.at(k - 1, j),
        )
    }
}

/// The codes of every column after the batch.
pub open spec fn maps_after(maps: Seq<Seq<i64>>, cap: usize, x: &Matrix) -> Seq<Seq<i64>> {
    Seq::new(maps.len(), |j: int| codes_after(maps[j], cap, x, j, x.height()))
}

/// What the first `p` columns raise, column by column.
pub open spec fn batch_issues(maps: Seq<Seq<i64>>, cap: usize, later: bool, x: &Matrix, p: nat) -> Seq<Issue>
    decreases p,
{
    if p == 0 {
        Seq::empty()
    } else {
        batch_issues(maps, cap, later, x, (p - 1) as nat) + column_issues(
            maps[p - 1],
            cap,
            later,
            x,
            p - 1,
            x.height(),
        )
    }
}

/// Number of codes that the batch adds to the first `p` columns.
pub open spec fn codes_added(maps: Seq<Seq<i64>>, cap: usize, x: &Matrix, p: nat) -> nat
    decreases p,
{
    if p == 0 {
        0
    } else {
        (codes_added(maps, cap, x, (p - 1) as nat) + codes_after(maps[p - 1], cap, x, p - 1, x.height()).len()
            - maps[p - 1].len()) as nat
    }
}

/// Codes that were assigned stay as they are: new ones come after them.
pub proof fn law_codes_are_stable(codes: Seq<i64>, cap: usize, x: &Matrix, j: int, k: nat)
    ensures
        codes.len() <= codes_after(codes, cap, x, j, k).len(),
        codes_after(codes, cap, x, j, k).take(codes.len() as int) == codes,
        codes_after(codes, cap, x, j, k).len() <= codes.len() + k,
    decreases k,
{
    if k > 0 {
        law_codes_are_stable(codes, cap, x, j, (k - 1) as nat);
        assert(codes_after(codes, cap, x, j, k).take(codes.len() as int) =~= codes);
    } else {
        assert(codes_after(codes, cap, x, j, k).take(codes.len() as int) =~= codes);
    }
}

/// No two codes of a column stand for the same category, and the cap is never
/// exceeded.
pub proof fn law_codes_are_distinct(codes: Seq<i64>, cap: usize, x: &Matrix, j: int, k: nat)
    requires
        codes.no_duplicates(),
    ensures
        codes_after(codes, cap, x, j, k).no_duplicates(),
        codes.len() <= cap ==> codes_after(codes, cap, x, j, k).len() <= cap,
    decreases k,
{
    if k > 0 {
        law_codes_are_distinct(codes, cap, x, j, (k - 1) as nat);
    }
}

/// A finite entry has a code afterwards, unless the cap was reached before.
pub proof fn law_seen_category_has_code(codes: Seq<i64>, cap: usize, x: &Matrix, j: int, k: nat, i: int)
    requires
        0 <= i < k,
        x.at(i, j).is_finite(),
        codes_after(codes, cap, x, j, i as nat).len() < cap,
    ensures
        codes_after(codes, cap, x, j, k).contains(x.at(i, j).round_to_i64()),
    decreases k,
{
    let key = x.at(i, j).round_to_i64();
    let earlier = codes_after(codes, cap, x, j, (k - 1) as nat);
    let now = codes_after(codes, cap, x, j, k);
    if i < k - 1 {
        law_seen_category_has_code(codes, cap, x, j, (k - 1) as nat, i);
        let a = choose|a: int| 0 <= a < earlier.len() && earlier[a] == key;
        assert(now[a] == key);
    } else if !earlier.contains(key) {
        assert(now[earlier.len() as int] == key);
    }
}

/// Position of a code, or the number of codes if it has none.
pub open spec fn slot_of(codes: Seq<i64>, key: i64) -> nat
    decreases codes.len(),
{
    if codes.len() == 0 {
        0
    } else if codes[0] == key {
        0
    } else {
        1 + slot_of(codes.drop_first(), key)
    }
}

proof fn lemma_slot_of(codes: Seq<i64>, key: i64, s: nat)
    requires
        s <= codes.len(),
        forall|a: int| 0 <= a < s ==> codes[a] != key,
        s < codes.len() ==> codes[s as int] == key,
    ensures
        slot_of(codes, key) == s,
    decreases s,
{
    if s > 0 {
        let rest = codes.drop_first();
        assert forall|a: int| 0 <= a < s - 1 implies rest[a] != key by {
            assert(rest[a] == codes[a + 1]);
        }
        if s < codes.len() {
            assert(rest[s - 1] == codes[s as int]);
        }
        lemma_slot_of(rest, key, (s - 1) as nat);
    }
}

proof fn lemma_slot_range(codes: Seq<i64>, key: i64)
    ensures
        slot_of(codes, key) <= codes.len(),
        (slot_of(codes, key) < codes.len()) == codes.contains(key),
        slot_of(codes, key) < codes.len() ==> codes[slot_of(codes, key) as int] == key,
        forall|a: int| 0 <= a < slot_of(codes, key) ==> codes[a] != key,
    decreases codes.len(),
{
    if codes.len() > 0 && codes[0] != key {
        let rest = codes.drop_first();
        lemma_slot_range(rest, key);
        if codes.contains(key) {
            let a = choose|a: int| 0 <= a < codes.len() && codes[a] == key;
            assert(rest[a - 1] == key);
        }
        if rest.contains(key) {
            let a = choose|a: int| 0 <= a < rest.len() && rest[a] == key;
            assert(codes[a + 1] == key);
        }
        assert forall|a: int| 0 <= a < slot_of(codes, key) implies codes[a] != key by {
            if a > 0 {
                assert(rest[a - 1] == codes[a]);
            }
        }
    }
}

/// A category keeps its slot through later batches.
pub proof fn law_slots_are_kept(codes: Seq<i64>, cap: usize, x: &Matrix, j: int, k: nat, key: i64)
    requires
        codes.contains(key),
    ensures
        codes_after(codes, cap, x, j, k).contains(key),
        slot_of(codes_after(codes, cap, x, j, k), key) == slot_of(codes, key),
{
    let later = codes_after(codes, cap, x, j, k);
    law_codes_are_stable(codes, cap, x, j, k);
    lemma_slot_range(codes, key);
    let s = slot_of(codes, key);
    assert forall|a: int| 0 <= a < codes.len() implies later[a] == codes[a] by {
        assert(later.take(codes.len() as int)[a] == later[a]);
    }
    assert(later[s as int] == key);
    lemma_slot_of(later, key, s);
}

/// Different categories have different slots.
pub proof fn law_slots_are_distinct(codes: Seq<i64>, a: i64, b: i64)
    requires
        codes.contains(a),
        codes.contains(b),
        a != b,
    ensures
        slot_of(codes, a) != slot_of(codes, b),
        slot_of(codes, a) < codes.len(),
{
    lemma_slot_range(codes, a);
    lemma_slot_range(codes, b);
}

/// Position of a code, or the number of codes if it has none.
pub fn find_slot(codes: &Vec<i64>, key: i64) -> (s: usize)
    ensures
        s == slot_of(codes@, key),
        s <= codes@.len(),
        (s < codes@.len()) == codes@.contains(key),
        s < codes@.len() ==> codes@[s as int] == key,
{
    let mut s: usize = 0;
    while s < codes.len()
        invariant
            s <= codes@.len(),
            forall|a: int| 0 <= a < s ==> codes@[a] != key,
        decreases codes@.len() - s,
    {
        if codes[s] == key {
            proof {
                lemma_slot_of(codes@, key, s as nat);
            }
            return s;
        }
        s = s + 1;
    }
    proof {
        lemma_slot_of(codes@, key, s as nat);
    }
    s
}

/// Codes of every column, with the counters of the encoder that owns them.
#[derive(Clone, Debug)]
pub struct CategoryBank {
    /// Cap on distinct codes per column.
    pub max_categories: usize,
    /// Codes of each column in the order in which they were met.
    pub maps: Vec<Vec<i64>>,
    /// Column count of the first batch.
    pub n_features: usize,
    /// Whether a batch was taken in.
    pub initialized: bool,
    /// Batches taken in.
    pub updates: u64,
    /// Rows taken in.
    pub n_seen: u64,
    /// Codes assigned.
    pub new_cats: u64,
}

/// The codes as sequences.
pub open spec fn code_seqs(maps: Seq<Vec<i64>>) -> Seq<Seq<i64>> {
    Seq::new(maps.len(), |j: int| maps[j]@)
}

impl CategoryBank {
    /// As many code lists as columns, and no code twice in a column.
    pub open spec fn wf(&self) -> bool {
        &&& self.initialized ==> self.maps@.len() == self.n_features
        &&& forall|j: int| 0 <= j < self.maps@.len() ==> (#[trigger] self.maps@[j])@.no_duplicates()
    }

    /// No column has more codes than the cap.
    pub open spec fn capped(&self) -> bool {
        forall|j: int| 0 <= j < self.maps@.len() ==> (#[trigger] self.maps@[j])@.len() <= self.max_categories
    }

    /// The state before any row.
    pub open spec fn blank(&self, max_categories: usize) -> bool {
        &&& self.max_categories == if max_categories < 1 {
            1
        } else {
            max_categories
        }
        &&& self.maps@.len() == 0
        &&& self.n_features == 0
        &&& !self.initialized
        &&& self.updates == 0
        &&& self.n_seen == 0
        &&& self.new_cats == 0
    }

    /// A bank with room for `max_categories` codes per column, at least one.
    pub fn new(max_categories: usize) -> (r: CategoryBank)
        ensures
            r.blank(max_categories),
            r.wf(),
            r.capped(),
    {
        CategoryBank {
            max_categories: if max_categories < 1 {
                1
            } else {
                max_categories
            },
            maps: Vec::new(),
            n_features: 0,
            initialized: false,
            updates: 0,
            n_seen: 0,
            new_cats: 0,
        }
    }

    /// The code lists that a batch of `width` columns starts from.
    pub open spec fn start(&self, width: usize) -> Seq<Seq<i64>> {
        if self.initialized {
            code_seqs(self.maps@)
        } else {
            Seq::new(width as nat, |j: int| Seq::empty())
        }
    }

    /// Why a batch of `width` columns is turned away.
    pub open spec fn refusal(&self, width: usize) -> Option<IssueCode> {
        if width == 0 {
            Some(IssueCode::PartialFitBeforeInit)
        } else if self.initialized && width != self.n_features {
            Some(IssueCode::FeatureSpaceChangedOnline)
        } else {
            None
        }
    }

    /// Codes that a batch adds.
    pub open spec fn added(&self, x: &Matrix) -> nat {
        codes_added(self.start(x.width), self.max_categories, x, x.width as nat)
    }

    /// Counters that leave room for a batch.
    pub open spec fn room(&self, x: &Matrix) -> bool {
        &&& self.n_seen + x.height() <= u64::MAX
        &&& self.updates < u64::MAX
        &&& self.new_cats + self.added(x) <= u64::MAX
    }

    /// The bank after a batch that was taken in.
    pub open spec fn is_after(&self, before: &CategoryBank, x: &Matrix) -> bool {
        &&& self.max_categories == before.max_categories
        &&& code_seqs(self.maps@) == maps_after(before.start(x.width), before.max_categories, x)
        &&& self.n_features == x.width
        &&& self.initialized
        &&& self.updates == before.updates + 1
        &&& self.n_seen == before.n_seen + x.height()
        &&& self.new_cats == before.new_cats + before.added(x)
    }

    /// Quality figures of a batch that added `added` codes.
    pub open spec fn figures(&self, added: u64, batch: usize) -> IncrementalQuality {
        IncrementalQuality {
            effective_sample_size: Double::from_u64(self.n_seen),
            parameter_delta_norm: Some(Double::from_u64(added)),
            information_gain: Some(Double::from_u64(added).max(one().over(at_least_one_of(self.n_seen)))),
            still_identified: self.n_seen >= 1,
            warmup: self.n_seen < 2,
            ..IncrementalQuality::new((self.updates - 1) as u64, batch, self.n_seen)
        }
    }

    /// What a batch reports.
    pub open spec fn answers(&self, after: &CategoryBank, x: &Matrix, r: &Update) -> bool {
        match self.refusal(x.width) {
            Some(code) => {
                &&& *after == *self
                &&& reports(
                    r,
                    IncrementalQuality::new(self.updates, x.height() as usize, self.n_seen),
                    shape_issues(x, None) + seq![issue(code)],
                    false,
                )
            },
            None => {
                &&& after.is_after(self, x)
                &&& reports(
                    r,
                    after.figures(self.added(x) as u64, x.height() as usize),
                    shape_issues(x, None) + batch_issues(
                        self.start(x.width),
                        self.max_categories,
                        self.updates > 0,
                        x,
                        x.width as nat,
                    ),
                    true,
                )
            },
        }
    }

    /// Takes in a batch, unless its column count does not fit.
    pub fn partial_fit(&mut self, x: &Matrix) -> (r: Update)
        requires
            x.wf(),
            old(self).wf(),
            old(self).room(x),
        ensures
            final(self).wf(),
            old(self).capped() ==> final(self).capped(),
            old(self).answers(final(self), x, &r),
    {
        let mut issues: Vec<Issue> = Vec::new();
        inspect_online_xy(&mut issues, x, None);
        let p: usize = x.ncols();
        if p == 0 || (self.initialized && p != self.n_features) {
            let code: IssueCode = if p == 0 {
                IssueCode::PartialFitBeforeInit
            } else {
                IssueCode::FeatureSpaceChangedOnline
            };
            issues.push(issue(code));
            assert(issues@ =~= shape_issues(x, None) + seq![issue(code)]);
            return rejection(self.updates, x.nrows(), self.n_seen, issues);
        }
        let ghost start = self.start(p);
        let ghost shape = issues@;
        let cap: usize = self.max_categories;
        let later: bool = self.updates > 0;
        let mut maps: Vec<Vec<i64>> = Vec::new();
        let mut added: u64 = 0;
        let mut j: usize = 0;
        while j < p
            invariant
                j <= p,
                p == x.width,
                x.wf(),
                self.wf(),
                self.initialized ==> self.maps@.len() == p,
                start == self.start(p),
                start.len() == p,
                cap == self.max_categories,
                later == (self.updates > 0),
                maps@.len() == j,
                forall|a: int| 0 <= a < j ==> (#[trigger] maps@[a])@ == maps_after(start, cap, x)[a],
                added == codes_added(start, cap, x, j as nat),
                codes_added(start, cap, x, p as nat) <= u64::MAX,
                issues@ == shape + batch_issues(start, cap, later, x, j as nat),
            decreases p - j,
        {
            let mut codes: Vec<i64> = if self.initialized {
                copy_columns(&self.maps[j])
            } else {
                Vec::new()
            };
            assert(codes@ =~= start[j as int]);
            let before: usize = codes.len();
            scan(&mut codes, cap, later, x, j, &mut issues);
            proof {
                law_codes_are_stable(start[j as int], cap, x, j as int, x.height());
                lemma_added_grows(start, cap, x, (j + 1) as nat, p as nat);
            }
            added = added + (codes.len() - before) as u64;
            maps.push(codes);
            j = j + 1;
            assert(issues@ =~= shape + batch_issues(start, cap, later, x, j as nat));
        }
        let ghost old_self = *self;
        self.maps = maps;
        self.n_features = p;
        self.initialized = true;
        self.new_cats = self.new_cats + added;
        self.n_seen = self.n_seen + x.nrows() as u64;
        self.updates = self.updates + 1;
        assert(code_seqs(self.maps@) =~= maps_after(start, cap, x));
        proof {
            assert forall|a: int| 0 <= a < self.maps@.len() implies {
                &&& (#[trigger] self.maps@[a])@.no_duplicates()
                &&& old(self).capped() ==> self.maps@[a]@.len() <= self.max_categories
            } by {
                if old_self.initialized {
                    assert(start[a] == old_self.maps@[a]@);
                }
                law_codes_are_distinct(start[a], cap, x, a, x.height());
            }
        }
        let grown: Double = Double::from_u64(added);
        let quality = IncrementalQuality {
            effective_sample_size: Double::from_u64(self.n_seen),
            parameter_delta_norm: Some(grown),
            information_gain: Some(grown.max(one().over(at_least_one_of(self.n_seen)))),
            still_identified: self.n_seen >= 1,
            warmup: self.n_seen < 2,
            ..IncrementalQuality::new(self.updates - 1, x.nrows(), self.n_seen)
        };
        screened_report(quality, issues)
    }
}

proof fn lemma_added_grows(maps: Seq<Seq<i64>>, cap: usize, x: &Matrix, a: nat, b: nat)
    requires
        a <= b,
    ensures
        codes_added(maps, cap, x, a) <= codes_added(maps, cap, x, b),
    decreases b - a,
{
    if a < b {
        lemma_added_grows(maps, cap, x, a, (b - 1) as nat);
        law_codes_are_stable(maps[b - 1], cap, x, b - 1, x.height());
    }
}

fn scan(codes: &mut Vec<i64>, cap: usize, later: bool, x: &Matrix, j: usize, issues: &mut Vec<Issue>)
    requires
        x.wf(),
        j < x.width,
    ensures
        final(codes)@ == codes_after(old(codes)@, cap, x, j as int, x.height()),
        final(issues)@ == old(issues)@ + column_issues(old(codes)@, cap, later, x, j as int, x.height()),
{
    let ghost start = codes@;
    let ghost earlier = issues@;
    let mut i: usize = 0;
    assert(issues@ =~= earlier + column_issues(start, cap, later, x, j as int, 0));
    while i < x.nrows()
        invariant
            i <= x.height(),
            x.wf(),
            j < x.width,
            codes@ == codes_after(start, cap, x, j as int, i as nat),
            issues@ == earlier + column_issues(start, cap, later, x, j as int, i as nat),
        decreases x.height() - i,
    {
        let v: Double = x.get(i, j);
        let ghost now = issues@;
        let ghost known = codes@;
        if v.is_finite() {
            let key: i64 = v.round_to_i64();
            let s: usize = find_slot(codes, key);
            if s == codes.len() {
                if codes.len() >= cap {
                    issues.push(warning(IssueCode::InvalidWeight));
                } else {
                    codes.push(key);
                    if later {
                        issues.push(warning(IssueCode::FeatureSpaceChangedOnline));
                    }
                }
            }
        }
        assert(issues@ =~= now + met_issues(known, cap, later, v));
        i = i + 1;
        assert(issues@ =~= earlier + column_issues(start, cap, later, x, j as int, i as nat));
    }
}

/// One-hot encoder with a fixed number of slots per column.
#[derive(Clone, Debug)]
pub struct OnlineOneHotEncoder {
    /// Codes of every column, with the counters.
    pub bank: CategoryBank,
}

impl Default for OnlineOneHotEncoder {
    fn default() -> (r: OnlineOneHotEncoder)
        ensures
            r.bank.blank(8),
            r.bank.wf(),
    {
        OnlineOneHotEncoder::new(8)
    }
}

impl OnlineOneHotEncoder {
    /// Encoder with at most `max_categories` codes per column.
    pub fn new(max_categories: usize) -> (r: OnlineOneHotEncoder)
        ensures
            r.bank.blank(max_categories),
            r.bank.wf(),
            r.bank.capped(),
    {
        OnlineOneHotEncoder { bank: CategoryBank::new(max_categories) }
    }

    /// Takes in a batch, unless its column count does not fit.
    pub fn partial_fit(&mut self, x: &Matrix, _y: Option<&Vec<Double>>) -> (r: Update)
        requires
            x.wf(),
            old(self).bank.wf(),
            old(self).bank.room(x),
        ensures
            final(self).bank.wf(),
            old(self).bank.capped() ==> final(self).bank.capped(),
            old(self).bank.answers(&final(self).bank, x, &r),
    {
        self.bank.partial_fit(x)
    }

    /// Whether slot `slot` of column `col` is lit by row `i`.
    pub open spec fn hot(&self, x: &Matrix, i: int, col: int, slot: int) -> Double {
        if col < x.width && x.at(i, col).is_finite() && self.bank.maps@[col]@.contains(
            x.at(i, col).round_to_i64(),
        ) && slot_of(self.bank.maps@[col]@, x.at(i, col).round_to_i64()) == slot {
            one()
        } else {
            zero()
        }
    }

    fn light(&self, x: &Matrix, i: usize, col: usize, slot: usize) -> (r: Double)
        requires
            x.wf(),
            i < x.height(),
            col < self.bank.maps@.len(),
        ensures
            r == self.hot(x, i as int, col as int, slot as int),
    {
        if col >= x.ncols() {
            return zero();
        }
        let v: Double = x.get(i, col);
        if !v.is_finite() {
            return zero();
        }
        let s: usize = find_slot(&self.bank.maps[col], v.round_to_i64());
        if s < self.bank.maps[col].len() && s == slot {
            one()
        } else {
            zero()
        }
    }

    /// One column per slot; a row lights the slot of its category, if it has one.
    pub fn transform(&self, x: &Matrix) -> (out: Qualified<Matrix>)
        requires
            x.wf(),
            self.bank.wf(),
            self.bank.n_features * self.bank.max_categories <= usize::MAX,
        ensures
            out.value.wf(),
            out.value.height() == x.height(),
            if !self.bank.initialized {
                &&& out.value.width == 0
                &&& out.report@ == seq![issue(IssueCode::PartialFitBeforeInit)]
            } else {
                &&& out.report@.len() == 0
                &&& out.value.width == self.bank.n_features * self.bank.max_categories
                &&& forall|i: int, col: int, slot: int|
                    0 <= i < x.height() && 0 <= col < self.bank.n_features && 0 <= slot < self.bank.max_categories
                        ==> out.value.at(i, col * self.bank.max_categories + slot) == #[trigger] self.hot(
                        x,
                        i,
                        col,
                        slot,
                    )
            },
    {
        let mut report: Vec<Issue> = Vec::new();
        if !self.bank.initialized {
            report.push(issue(IssueCode::PartialFitBeforeInit));
            assert(report@ =~= seq![issue(IssueCode::PartialFitBeforeInit)]);
            return Qualified { value: Matrix::zeros(x.nrows(), 0), report };
        }
        let p: usize = self.bank.n_features;
        let m: usize = self.bank.max_categories;
        let mut rows: Vec<Vec<Double>> = Vec::new();
        let mut i: usize = 0;
        while i < x.nrows()
            invariant
                i <= x.height(),
                x.wf(),
                p == self.bank.n_features,
                m == self.bank.max_categories,
                self.bank.maps@.len() == p,
                p * m <= usize::MAX,
                rows@.len() == i,
                forall|a: int| 0 <= a < i ==> (#[trigger] rows@[a])@.len() == p * m,
                forall|a: int, col: int, slot: int|
                    0 <= a < i && 0 <= col < p && 0 <= slot < m ==> rows@[a]@[col * m + slot] == #[trigger] self.hot(
                        x,
                        a,
                        col,
                        slot,
                    ),
            decreases x.height() - i,
        {
            let row = self.light_row(x, i);
            rows.push(row);
            i = i + 1;
        }
        let value = Matrix { rows, width: p * m };
        assert forall|a: int, col: int, slot: int|
            0 <= a < x.height() && 0 <= col < p && 0 <= slot < m implies value.at(a, col * m + slot)
            == #[trigger] self.hot(x, a, col, slot) by {
            assert(value.rows@[a]@[col * m + slot] == self.hot(x, a, col, slot));
        }
        Qualified { value, report }
    }

    fn light_row(&self, x: &Matrix, i: usize) -> (row: Vec<Double>)
        requires
            x.wf(),
            i < x.height(),
            self.bank.maps@.len() == self.bank.n_features,
        ensures
            row@.len() == self.bank.n_features * self.bank.max_categories,
            forall|col: int, slot: int|
                0 <= col < self.bank.n_features && 0 <= slot < self.bank.max_categories ==> row@[col
                    * self.bank.max_categories + slot] == #[trigger] self.hot(x, i as int, col, slot),
    {
        let p: usize = self.bank.n_features;
        let m: usize = self.bank.max_categories;
        let mut row: Vec<Double> = Vec::new();
        let mut c: usize = 0;
        while c < p
            invariant
                c <= p,
                i < x.height(),
                x.wf(),
                p == self.bank.n_features,
                m == self.bank.max_categories,
                self.bank.maps@.len() == p,
                row@.len() == c * m,
                forall|col: int, slot: int|
                    0 <= col < c && 0 <= slot < m ==> row@[col * m + slot] == #[trigger] self.hot(
                        x,
                        i as int,
                        col,
                        slot,
                    ),
            decreases p - c,
        {
            let ghost done = row@;
            let mut s: usize = 0;
            while s < m
                invariant
                    s <= m,
                    c < p,
                    i < x.height(),
                    x.wf(),
                    p == self.bank.n_features,
                    m == self.bank.max_categories,
                    self.bank.maps@.len() == p,
                    done.len() == c * m,
                    row@.len() == c * m + s,
                    forall|k: int| 0 <= k < c * m ==> row@[k] == done[k],
                    forall|slot: int|
                        0 <= slot < s ==> row@[c * m + slot] == #[trigger] self.hot(x, i as int, c as int, slot),
                decreases m - s,
            {
                row.push(self.light(x, i, c, s));
                s = s + 1;
            }
            assert forall|col: int, slot: int|
                0 <= col < c + 1 && 0 <= slot < m implies row@[col * m + slot] == #[trigger] self.hot(
                x,
                i as int,
                col,
                slot,
            ) by {
                if col < c {
                    assert(0 <= col * m + slot < c * m) by (nonlinear_arith)
                        requires
                            0 <= col < c,
                            0 <= slot < m,
                    ;
                    assert(done[col * m + slot] == self.hot(x, i as int, col, slot));
                }
            }
            assert((c + 1) * m == c * m + m) by (nonlinear_arith);
            c = c + 1;
        }
        row
    }
}

/// A row lights at most one slot of each column.
pub proof fn law_one_slot_is_lit(e: &OnlineOneHotEncoder, x: &Matrix, i: int, col: int, a: int, b: int)
    requires
        e.hot(x, i, col, a) == one(),
        e.hot(x, i, col, b) == one(),
    ensures
        a == b,
{
}

/// A row lights a slot of a column exactly if its category has a code within the cap.
pub proof fn law_known_category_is_lit(e: &OnlineOneHotEncoder, x: &Matrix, i: int, col: int)
    requires
        0 <= col < e.bank.maps@.len(),
        col < x.width,
        e.bank.capped(),
    ensures
        (x.at(i, col).is_finite() && e.bank.maps@[col]@.contains(x.at(i, col).round_to_i64())) == exists|slot: int|
            0 <= slot < e.bank.max_categories && #[trigger] e.hot(x, i, col, slot) == one(),
{
    let codes = e.bank.maps@[col]@;
    let key = x.at(i, col).round_to_i64();
    lemma_slot_range(codes, key);
    if x.at(i, col).is_finite() && codes.contains(key) {
        assert(e.hot(x, i, col, slot_of(codes, key) as int) == one());
    }
}

/// Ordinal encoder: categories are numbered in the order in which they are met.
#[derive(Clone, Debug)]
pub struct OnlineOrdinalEncoder {
    /// Codes of every column, with the counters.
    pub bank: CategoryBank,
}

impl Default for OnlineOrdinalEncoder {
    fn default() -> (r: OnlineOrdinalEncoder)
        ensures
            r.bank.blank(16),
            r.bank.wf(),
    {
        OnlineOrdinalEncoder::new(16)
    }
}

impl OnlineOrdinalEncoder {
    /// Encoder with at most `max_categories` codes per column.
    pub fn new(max_categories: usize) -> (r: OnlineOrdinalEncoder)
        ensures
            r.bank.blank(max_categories),
            r.bank.wf(),
            r.bank.capped(),
    {
        OnlineOrdinalEncoder { bank: CategoryBank::new(max_categories) }
    }

    /// Takes in a batch, unless its column count does not fit.
    pub fn partial_fit(&mut self, x: &Matrix, _y: Option<&Vec<Double>>) -> (r: Update)
        requires
            x.wf(),
            old(self).bank.wf(),
            old(self).bank.room(x),
        ensures
            final(self).bank.wf(),
            old(self).bank.capped() ==> final(self).bank.capped(),
            old(self).bank.answers(&final(self).bank, x, &r),
    {
        self.bank.partial_fit(x)
    }

    /// The number of a category, or -1.
    pub open spec fn code(&self, j: int, v: Double) -> Double {
        if j < self.bank.maps@.len() && v.is_finite() && self.bank.maps@[j]@.contains(v.round_to_i64()) {
            Double::from_usize(slot_of(self.bank.maps@[j]@, v.round_to_i64()) as usize)
        } else {
            neg_one()
        }
    }

    fn encode(&self, j: usize, v: Double) -> (r: Double)
        ensures
            r == self.code(j as int, v),
    {
        if j >= self.bank.maps.len() || !v.is_finite() {
            return neg_one();
        }
        let s: usize = find_slot(&self.bank.maps[j], v.round_to_i64());
        if s < self.bank.maps[j].len() {
            Double::from_usize(s)
        } else {
            neg_one()
        }
    }

    /// Replaces every category by its number.
    pub fn transform(&self, x: &Matrix) -> (out: Qualified<Matrix>)
        requires
            x.wf(),
        ensures
            out.value.wf(),
            out.value.height() == x.height(),
            out.value.width == x.width,
            out.report@ == if self.bank.initialized {
                Seq::empty()
            } else {
                seq![issue(IssueCode::PartialFitBeforeInit)]
            },
            forall|i: int, j: int|
                0 <= i < x.height() && 0 <= j < x.width ==> #[trigger] out.value.at(i, j) == if self.bank.initialized {
                    self.code(j, x.at(i, j))
                } else {
                    zero()
                },
    {
        let mut report: Vec<Issue> = Vec::new();
        if !self.bank.initialized {
            report.push(issue(IssueCode::PartialFitBeforeInit));
            assert(report@ =~= seq![issue(IssueCode::PartialFitBeforeInit)]);
            return Qualified { value: Matrix::zeros(x.nrows(), x.ncols()), report };
        }
        let mut rows: Vec<Vec<Double>> = Vec::new();
        let mut i: usize = 0;
        while i < x.nrows()
            invariant
                i <= x.height(),
                x.wf(),
                rows@.len() == i,
                forall|a: int|
                    0 <= a < i ==> (#[trigger] rows@[a])@ == Seq::new(x.width as nat, |j: int| self.code(j, x.at(a, j))),
            decreases x.height() - i,
        {
            let mut row: Vec<Double> = Vec::new();
            let mut j: usize = 0;
            while j < x.ncols()
                invariant
                    i < x.height(),
                    j <= x.width,
                    x.wf(),
                    row@ == Seq::new(j as nat, |b: int| self.code(b, x.at(i as int, b))),
                decreases x.width - j,
            {
                row.push(self.encode(j, x.get(i, j)));
                j = j + 1;
                assert(row@ =~= Seq::new(j as nat, |b: int| self.code(b, x.at(i as int, b))));
            }
            rows.push(row);
            i = i + 1;
        }
        assert(report@ =~= Seq::empty());
        Qualified { value: Matrix { rows, width: x.ncols() }, report }
    }
}

} // verus!
