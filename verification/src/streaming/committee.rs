//! Committees that drop the worse half of their members.

use crate::constants::{half, ten};
use crate::data::{Batch, zero_seq, zeros, Matrix};
use crate::double::{infinity, one, zero, Double};
use crate::online::common::{inspect_online_xy, shape_issues, target};
use crate::quality::{issue, warning, IncrementalQuality, Issue, IssueCode, Qualified, Update};
use crate::streaming::columns::{rejection, reports, screened_report};
use crate::streaming::learner::Learner;
use crate::streaming::linear::{unready, Perceptron, PerceptronState};
use crate::streaming::ranking::{law_ranking_permutes, rank, ranking};
use crate::streaming::rls::{LinearRegression, RlsState};
use vstd::arithmetic::power2::*;
use vstd::prelude::*;

verus! {

/// A learner whose predictions can be scored.
pub trait Contender: Learner {
    /// The `i`-th member of a new committee.
    spec fn newcomer(i: nat) -> Self::V;

    /// The running score after one more prediction.
    spec fn credited(gain: Double, guess: Double, y: Double) -> Double;

    /// The rating that members are compared by.
    spec fn rated(gain: Double, trials: Double) -> Double;

    /// Whether the highest rating is the best.
    spec fn high_wins() -> bool;

    /// Whether growing from `before` to `after` rows closes a round.
    spec fn closes(before: nat, after: nat) -> bool;

    /// The `i`-th member of a new committee.
    fn enrol(i: usize) -> (r: Self)
        ensures
            r.sound(),
            r@ == Self::newcomer(i as nat),
    ;

    /// The running score after one more prediction.
    fn credit(gain: Double, guess: Double, y: Double) -> (r: Double)
        ensures
            r == Self::credited(gain, guess, y),
    ;

    /// The rating that members are compared by.
    fn rate(gain: Double, trials: Double) -> (r: Double)
        ensures
            r == Self::rated(gain, trials),
    ;

    /// Whether the highest rating is the best.
    fn is_high_best() -> (r: bool)
        ensures
            r == Self::high_wins(),
    ;

    /// Whether growing from `before` to `after` rows closes a round.
    fn is_round_over(before: u64, after: u64) -> (r: bool)
        ensures
            r == Self::closes(before as nat, after as nat),
    ;
}

/// Members of a committee with their running scores.
#[derive(Clone, Debug)]
pub struct Board<M> {
    /// The members.
    pub models: Vec<M>,
    /// Running score of each member.
    pub gains: Vec<Double>,
    /// Predictions scored so far for each member.
    pub trials: Vec<Double>,
}

/// A member with its running score.
pub struct Entry<V> {
    /// State of the member.
    pub state: V,
    /// Running score.
    pub gain: Double,
    /// Predictions scored so far.
    pub trials: Double,
}

/// One added `k` times to `start`.
pub open spec fn counted_up(start: Double, k: nat) -> Double
    decreases k,
{
    if k == 0 {
        start
    } else {
        counted_up(start, (k - 1) as nat).plus(one())
    }
}

/// The running score after the first `k` predictions of a batch.
pub open spec fn credited_over<M: Contender>(gain: Double, guesses: Seq<Double>, y: Seq<Double>, k: nat) -> Double
    decreases k,
{
    if k == 0 {
        gain
    } else {
        M::credited(credited_over::<M>(gain, guesses, y, (k - 1) as nat), guesses[k - 1], y[k - 1])
    }
}

/// A member after a batch: scored on its prediction, then taught.
pub open spec fn played<M: Contender>(e: Entry<M::V>, x: Batch, y: Seq<Double>) -> Entry<M::V> {
    Entry {
        state: M::taught(e.state, x, y),
        gain: credited_over::<M>(e.gain, M::foreseen(e.state, x), y, x.height()),
        trials: counted_up(e.trials, x.height()),
    }
}

/// The committee after a batch.
pub open spec fn all_played<M: Contender>(s: Seq<Entry<M::V>>, x: Batch, y: Seq<Double>) -> Seq<Entry<M::V>> {
    Seq::new(s.len(), |m: int| played::<M>(s[m], x, y))
}

/// The ratings of the members.
pub open spec fn ratings<M: Contender>(s: Seq<Entry<M::V>>) -> Seq<Double> {
    Seq::new(s.len(), |m: int| M::rated(s[m].gain, s[m].trials))
}

/// How many members stay.
pub open spec fn kept(n: nat) -> nat {
    if n / 2 < 1 {
        1
    } else {
        n / 2
    }
}

/// The better half, best first, and among equals in the order of the committee.
pub open spec fn better_half<M: Contender>(s: Seq<Entry<M::V>>) -> Seq<Entry<M::V>> {
    Seq::new(kept(s.len()), |k: int| s[ranking(ratings::<M>(s), M::high_wins(), s.len())[k] as int])
}

/// A new committee of `n` members.
pub open spec fn founded<M: Contender>(n: nat) -> Seq<Entry<M::V>> {
    Seq::new(n, |m: int| Entry { state: M::newcomer(m as nat), gain: zero(), trials: zero() })
}

/// Whether a count that grows from `before` to `after` crosses a power of two, one
/// itself left out.
pub open spec fn crosses_power(before: nat, after: nat) -> bool {
    exists|k: nat| k > 0 && before < #[trigger] pow2(k) <= after
}

fn crosses(before: u64, after: u64) -> (r: bool)
    ensures
        r == crosses_power(before as nat, after as nat),
{
    let mut p: u64 = 2;
    let ghost mut k: nat = 1;
    proof {
        lemma2_to64();
    }
    while p <= before
        invariant
            p == pow2(k),
            p >= 2,
            k > 0,
            forall|j: nat| 0 < j < k ==> #[trigger] pow2(j) <= before,
        decreases if p <= before { before - p + 1 } else { 0 },
    {
        if p > u64::MAX / 2 {
            proof {
                lemma_no_power_left(k, before as nat, after as nat);
            }
            return false;
        }
        proof {
            lemma_pow2_unfold(k + 1);
            k = k + 1;
        }
        p = p * 2;
    }
    proof {
        if crosses_power(before as nat, after as nat) {
            let j = choose|j: nat| j > 0 && before < #[trigger] pow2(j) <= after;
            if j >= k {
                lemma_pow2_grows(k, j);
            }
        }
    }
    p <= after
}

proof fn lemma_pow2_grows(a: nat, b: nat)
    requires
        a <= b,
    ensures
        pow2(a) <= pow2(b),
    decreases b - a,
{
    if a < b {
        lemma_pow2_grows(a, (b - 1) as nat);
        lemma_pow2_unfold(b);
    }
}

proof fn lemma_no_power_left(k: nat, before: nat, after: nat)
    requires
        pow2(k) <= before,
        2 * pow2(k) > u64::MAX,
        after <= u64::MAX,
    ensures
        !crosses_power(before, after),
{
    assert forall|j: nat| before < #[trigger] pow2(j) implies pow2(j) > after by {
        if j <= k {
            lemma_pow2_grows(j, k);
        } else {
            lemma_pow2_unfold(k + 1);
            lemma_pow2_grows(k + 1, j);
        }
    }
}

/// Whether `n` is a power of two.
pub open spec fn is_power(n: nat) -> bool {
    exists|k: nat| #[trigger] pow2(k) == n
}

/// Whether a count that ends at `after`, starting at `before`, has reached a power of
/// two, or has just passed its first row.
pub open spec fn reaches_power(before: nat, after: nat) -> bool {
    after >= 2 && (is_power(after) || before < 2)
}

fn reaches(before: u64, after: u64) -> (r: bool)
    ensures
        r == reaches_power(before as nat, after as nat),
{
    if after < 2 {
        return false;
    }
    let exact: bool = crosses(after - 1, after);
    proof {
        lemma2_to64();
        if is_power(after as nat) {
            let k = choose|k: nat| #[trigger] pow2(k) == after;
            assert(k > 0);
            assert(after - 1 < pow2(k) <= after);
        }
    }
    exact || before < 2
}

/// No power of two is missed by a count that crosses them: whichever batches bring it
/// from below one to at least it, one of them crosses it.
pub proof fn law_no_power_is_missed(before: nat, between: nat, after: nat)
    requires
        before <= between <= after,
    ensures
        crosses_power(before, after) == (crosses_power(before, between) || crosses_power(between, after)),
{
    if crosses_power(before, after) {
        let k = choose|k: nat| k > 0 && before < #[trigger] pow2(k) <= after;
        assert(pow2(k) <= between || between < pow2(k));
    }
    if crosses_power(before, between) {
        let k = choose|k: nat| k > 0 && before < #[trigger] pow2(k) <= between;
        assert(before < pow2(k) <= after);
    }
    if crosses_power(between, after) {
        let k = choose|k: nat| k > 0 && between < #[trigger] pow2(k) <= after;
        assert(before < pow2(k) <= after);
    }
}

impl<M: Contender> View for Board<M> {
    type V = Seq<Entry<M::V>>;

    open spec fn view(&self) -> Seq<Entry<M::V>> {
        Seq::new(
            self.models@.len(),
            |m: int| Entry { state: self.models@[m]@, gain: self.gains@[m], trials: self.trials@[m] },
        )
    }
}

/// Sum of the first `k` members' predictions for row `i`.
pub open spec fn member_sum<M: Learner>(states: Seq<M::V>, x: Batch, i: int, k: nat) -> Double
    decreases k,
{
    if k == 0 {
        zero()
    } else {
        member_sum::<M>(states, x, i, (k - 1) as nat).plus(M::foreseen(states[k - 1], x)[i])
    }
}

/// The mean of the members' predictions, row by row.
pub open spec fn member_mean<M: Learner>(states: Seq<M::V>, x: Batch) -> Seq<Double> {
    Seq::new(
        x.height(),
        |i: int| member_sum::<M>(states, x, i, states.len()).over(counted_up(zero(), states.len()).max(one())),
    )
}

/// The states of a list of models.
pub open spec fn states_of<M: Learner>(models: Seq<M>) -> Seq<M::V> {
    Seq::new(models.len(), |m: int| models[m]@)
}

/// The sums of the members' predictions, row by row, and the number of members.
pub fn sum_predictions<M: Learner>(models: &Vec<M>, x: &Matrix) -> (r: (Vec<Double>, Double))
    requires
        x.wf(),
        forall|m: int| 0 <= m < models@.len() ==> (#[trigger] models@[m]).sound() && M::apt(models@[m]@, x@),
    ensures
        r.0@.len() == x.height(),
        forall|i: int|
            0 <= i < x.height() ==> #[trigger] r.0@[i] == member_sum::<M>(states_of(models@), x@, i, models@.len()),
        r.1 == counted_up(zero(), models@.len()),
{
    let ghost states = states_of(models@);
    let n: usize = x.nrows();
    let mut acc: Vec<Double> = zeros(n);
    let mut k: Double = zero();
    let mut m: usize = 0;
    while m < models.len()
        invariant
            m <= models@.len(),
            x.wf(),
            n == x.height(),
            states == states_of(models@),
            forall|m: int| 0 <= m < models@.len() ==> (#[trigger] models@[m]).sound() && M::apt(models@[m]@, x@),
            acc@.len() == n,
            forall|i: int| 0 <= i < n ==> #[trigger] acc@[i] == member_sum::<M>(states, x@, i, m as nat),
            k == counted_up(zero(), m as nat),
        decreases models@.len() - m,
    {
        let guess: Vec<Double> = models[m].foresee(x);
        proof {
            M::lemma_foreseen(models@[m as int]@, x@);
        }
        let ghost before = acc@;
        let mut i: usize = 0;
        while i < n
            invariant
                i <= n,
                n == x.height(),
                m < models@.len(),
                acc@.len() == n,
                before.len() == n,
                guess@.len() == n,
                guess@ == M::foreseen(states[m as int], x@),
                forall|j: int| 0 <= j < n ==> #[trigger] before[j] == member_sum::<M>(states, x@, j, m as nat),
                forall|j: int| i <= j < n ==> #[trigger] acc@[j] == before[j],
                forall|j: int| 0 <= j < i ==> #[trigger] acc@[j] == member_sum::<M>(states, x@, j, (m + 1) as nat),
            decreases n - i,
        {
            assert(acc@[i as int] == before[i as int]);
            let v: Double = acc[i].plus(guess[i]);
            acc.set(i, v);
            i = i + 1;
        }
        k = k.plus(one());
        m = m + 1;
    }
    (acc, k)
}

/// The mean of the members' predictions, row by row.
pub fn mean_prediction<M: Learner>(models: &Vec<M>, x: &Matrix) -> (r: Vec<Double>)
    requires
        x.wf(),
        forall|m: int| 0 <= m < models@.len() ==> (#[trigger] models@[m]).sound() && M::apt(models@[m]@, x@),
    ensures
        r@ == member_mean::<M>(states_of(models@), x@),
{
    let ghost states = states_of(models@);
    let n: usize = x.nrows();
    let (acc, k) = sum_predictions(models, x);
    let divisor: Double = k.max(one());
    let ghost want = member_mean::<M>(states, x@);
    let mut r: Vec<Double> = Vec::new();
    let mut i: usize = 0;
    while i < n
        invariant
            i <= n,
            n == x.height(),
            acc@.len() == n,
            want == member_mean::<M>(states, x@),
            forall|i: int| 0 <= i < n ==> #[trigger] acc@[i] == member_sum::<M>(states, x@, i, states.len()),
            divisor == counted_up(zero(), states.len()).max(one()),
            r@ == want.take(i as int),
        decreases n - i,
    {
        r.push(acc[i].over(divisor));
        i = i + 1;
        assert(r@ =~= want.take(i as int));
    }
    assert(r@ =~= want);
    r
}

impl<M: Contender> Board<M> {
    /// Every member is sound and has a score.
    pub open spec fn wf(&self) -> bool {
        &&& self.gains@.len() == self.models@.len()
        &&& self.trials@.len() == self.models@.len()
        &&& forall|m: int| 0 <= m < self.models@.len() ==> (#[trigger] self.models@[m]).sound()
    }

    /// Every member can take in a batch.
    pub open spec fn ready(&self, x: &Matrix) -> bool {
        forall|m: int|
            0 <= m < self.models@.len() ==> M::room((#[trigger] self.models@[m])@, x.height()) && M::apt(
                self.models@[m]@,
                x@,
            )
    }

    /// No members.
    pub fn empty() -> (r: Board<M>)
        ensures
            r.wf(),
            r@.len() == 0,
    {
        Board { models: Vec::new(), gains: Vec::new(), trials: Vec::new() }
    }

    /// A new committee of `n` members.
    pub fn found(n: usize) -> (r: Board<M>)
        ensures
            r.wf(),
            r@ == founded::<M>(n as nat),
    {
        let mut models: Vec<M> = Vec::new();
        let mut m: usize = 0;
        while m < n
            invariant
                m <= n,
                models@.len() == m,
                forall|k: int| 0 <= k < m ==> (#[trigger] models@[k]).sound() && models@[k]@ == M::newcomer(k as nat),
            decreases n - m,
        {
            let model: M = M::enrol(m);
            models.push(model);
            m = m + 1;
        }
        let r = Board { models, gains: zeros(n), trials: zeros(n) };
        assert(r@ =~= founded::<M>(n as nat));
        r
    }

    /// Scores and teaches every member.
    pub fn play(&mut self, x: &Matrix, y: &Vec<Double>)
        requires
            x.wf(),
            x.width < usize::MAX,
            x.height() <= y@.len(),
            old(self).wf(),
            old(self).ready(x),
        ensures
            final(self).wf(),
            final(self)@ == all_played::<M>(old(self)@, x@, y@),
    {
        let ghost start = self@;
        let n: usize = self.models.len();
        let mut m: usize = 0;
        while m < n
            invariant
                m <= n,
                n == self.models@.len(),
                n == start.len(),
                x.wf(),
                x.width < usize::MAX,
                x.height() <= y@.len(),
                self.wf(),
                forall|k: int|
                    m <= k < n ==> M::room((#[trigger] self.models@[k])@, x.height()) && M::apt(self.models@[k]@, x@),
                forall|k: int| m <= k < n ==> #[trigger] self@[k] == start[k],
                forall|k: int| 0 <= k < m ==> #[trigger] self@[k] == played::<M>(start[k], x@, y@),
            decreases n - m,
        {
            let ghost before = self@;
            let guess: Vec<Double> = self.models[m].foresee(x);
            proof {
                M::lemma_foreseen(self.models@[m as int]@, x@);
            }
            let ghost e = start[m as int];
            assert(before[m as int] == e);
            assert(self.models@[m as int]@ == e.state && self.gains@[m as int] == e.gain);
            let mut gain: Double = self.gains[m];
            let mut trials: Double = self.trials[m];
            let mut i: usize = 0;
            while i < x.nrows()
                invariant
                    i <= x.height(),
                    x.height() <= y@.len(),
                    guess@.len() == x.height(),
                    guess@ == M::foreseen(e.state, x@),
                    gain == credited_over::<M>(e.gain, guess@, y@, i as nat),
                    trials == counted_up(e.trials, i as nat),
                decreases x.height() - i,
            {
                gain = M::credit(gain, guess[i], y[i]);
                trials = trials.plus(one());
                i = i + 1;
            }
            self.gains.set(m, gain);
            self.trials.set(m, trials);
            let model: &mut M = &mut self.models[m];
            model.teach(x, y);
            assert(self@[m as int] == played::<M>(start[m as int], x@, y@));
            assert forall|k: int| 0 <= k < n && k != m implies #[trigger] self@[k] == before[k] by {}
            m = m + 1;
        }
        assert(self@ =~= all_played::<M>(start, x@, y@));
    }

    /// Keeps the better half.
    pub fn halve(&mut self)
        requires
            old(self).wf(),
            old(self)@.len() > 0,
        ensures
            final(self).wf(),
            final(self)@ == better_half::<M>(old(self)@),
    {
        let ghost start = self@;
        let n: usize = self.models.len();
        let mut scores: Vec<Double> = Vec::new();
        let mut m: usize = 0;
        while m < n
            invariant
                m <= n,
                n == self.models@.len(),
                self.wf(),
                start == self@,
                scores@ == ratings::<M>(start).take(m as int),
            decreases n - m,
        {
            scores.push(M::rate(self.gains[m], self.trials[m]));
            m = m + 1;
            assert(scores@ =~= ratings::<M>(start).take(m as int));
        }
        assert(scores@ =~= ratings::<M>(start));
        let order: Vec<usize> = rank(&scores, M::is_high_best());
        let keep: usize = if n / 2 < 1 {
            1
        } else {
            n / 2
        };
        let mut models: Vec<M> = Vec::new();
        let mut gains: Vec<Double> = Vec::new();
        let mut trials: Vec<Double> = Vec::new();
        let mut k: usize = 0;
        while k < keep
            invariant
                k <= keep,
                keep <= n,
                keep == kept(n as nat),
                n == self.models@.len(),
                self.wf(),
                start == self@,
                order@.len() == n,
                order@ == ranking(ratings::<M>(start), M::high_wins(), start.len()),
                forall|a: int| 0 <= a < n ==> (#[trigger] order@[a]) < n,
                models@.len() == k,
                gains@.len() == k,
                trials@.len() == k,
                forall|a: int|
                    0 <= a < k ==> (#[trigger] models@[a]).sound() && models@[a]@ == start[order@[a] as int].state,
                forall|a: int| 0 <= a < k ==> #[trigger] gains@[a] == start[order@[a] as int].gain,
                forall|a: int| 0 <= a < k ==> #[trigger] trials@[a] == start[order@[a] as int].trials,
            decreases keep - k,
        {
            let i: usize = order[k];
            assert(self@[i as int].state == self.models@[i as int]@);
            let model: M = self.models[i].duplicate();
            models.push(model);
            gains.push(self.gains[i]);
            trials.push(self.trials[i]);
            k = k + 1;
        }
        self.models = models;
        self.gains = gains;
        self.trials = trials;
        assert(self@ =~= better_half::<M>(start));
    }
}

/// A round keeps at most half of a committee of two or more, and never all of it.
pub proof fn law_halving_shrinks<M: Contender>(s: Seq<Entry<M::V>>)
    requires
        2 <= s.len() <= usize::MAX,
    ensures
        1 <= better_half::<M>(s).len() <= s.len() / 2,
        forall|k: int|
            0 <= k < better_half::<M>(s).len() ==> s.contains(#[trigger] better_half::<M>(s)[k]),
{
    let order = ranking(ratings::<M>(s), M::high_wins(), s.len());
    law_ranking_permutes(ratings::<M>(s), M::high_wins(), s.len());
    assert forall|k: int| 0 <= k < better_half::<M>(s).len() implies s.contains(
        #[trigger] better_half::<M>(s)[k],
    ) by {
        assert(better_half::<M>(s)[k] == s[order[k] as int]);
    }
}

/// The state of a halving committee.
pub struct Halving<V> {
    /// Members asked for.
    pub n_models: nat,
    /// The members that are left.
    pub members: Seq<Entry<V>>,
    /// Rows taken in.
    pub n_seen: nat,
    /// Batches taken in.
    pub updates: nat,
    /// Rounds that dropped members.
    pub cuts: nat,
}

/// The members that a batch starts with.
pub open spec fn seated<M: Contender>(s: Halving<M::V>) -> Seq<Entry<M::V>> {
    if s.members.len() == 0 {
        founded::<M>(
            if s.n_models < 2 {
                2
            } else {
                s.n_models
            },
        )
    } else {
        s.members
    }
}

/// Whether a batch of `rows` rows drops members.
pub open spec fn cuts_now<M: Contender>(s: Halving<M::V>, rows: nat) -> bool {
    seated::<M>(s).len() > 1 && M::closes(s.n_seen, s.n_seen + rows)
}

/// The committee after a batch.
pub open spec fn halving_after<M: Contender>(s: Halving<M::V>, x: Batch, y: Seq<Double>) -> Halving<M::V> {
    let taught = all_played::<M>(seated::<M>(s), x, y);
    let cut = cuts_now::<M>(s, x.height());
    Halving {
        n_models: if s.n_models < 2 {
            2
        } else {
            s.n_models
        },
        members: if cut {
            better_half::<M>(taught)
        } else {
            taught
        },
        n_seen: s.n_seen + x.height(),
        updates: s.updates + 1,
        cuts: if cut {
            s.cuts + 1
        } else {
            s.cuts
        },
    }
}

/// Once founded, a committee is never empty.
pub proof fn law_committee_is_never_empty<M: Contender>(s: Halving<M::V>, x: Batch, y: Seq<Double>)
    ensures
        halving_after::<M>(s, x, y).members.len() >= 1,
        s.members.len() > 0 ==> halving_after::<M>(s, x, y).members.len() <= s.members.len(),
{
}

/// Quality figures of a halving committee after a batch.
pub open spec fn halving_figures<V>(after: Halving<V>, cut: bool, batch: usize) -> IncrementalQuality {
    IncrementalQuality {
        effective_sample_size: Double::from_u64(after.n_seen as u64),
        parameter_delta_norm: Some(
            if cut {
                one()
            } else {
                zero()
            },
        ),
        information_gain: Some(Double::from_usize(batch)),
        still_identified: after.n_seen >= 2 && after.members.len() > 0,
        warmup: after.n_seen < 4,
        ..IncrementalQuality::new((after.updates - 1) as u64, batch, after.n_seen as u64)
    }
}

/// Issues about a batch and the committee size.
pub open spec fn halving_issues<V>(s: Halving<V>, x: &Matrix, y: Seq<Double>) -> Seq<Issue> {
    if s.n_models < 2 {
        shape_issues(x, Some(y)).push(warning(IssueCode::InvalidWeight))
    } else {
        shape_issues(x, Some(y))
    }
}

/// What a batch of a halving committee does.
pub open spec fn halving_answers<M: Contender>(
    before: Halving<M::V>,
    after: Halving<M::V>,
    x: &Matrix,
    y: Option<Seq<Double>>,
    r: &Update,
) -> bool {
    match y {
        None => {
            &&& after == before
            &&& reports(
                r,
                IncrementalQuality::new(before.updates as u64, x.height() as usize, before.n_seen as u64),
                shape_issues(x, None).push(issue(IssueCode::MissingTarget)),
                false,
            )
        },
        Some(t) => {
            &&& after == halving_after::<M>(before, x@, t)
            &&& reports(
                r,
                halving_figures(after, cuts_now::<M>(before, x.height()), x.height() as usize),
                halving_issues(before, x, t),
                true,
            )
        },
    }
}

/// Committee that all halving estimators share.
#[derive(Clone, Debug)]
pub struct Rounds<M> {
    /// Members asked for.
    pub n_models: usize,
    /// The members with their scores.
    pub board: Board<M>,
    /// Rows taken in.
    pub n_seen: u64,
    /// Batches taken in.
    pub updates: u64,
    /// Rounds that dropped members.
    pub cuts: u64,
}

impl<M: Contender> View for Rounds<M> {
    type V = Halving<M::V>;

    open spec fn view(&self) -> Halving<M::V> {
        Halving {
            n_models: self.n_models as nat,
            members: self.board@,
            n_seen: self.n_seen as nat,
            updates: self.updates as nat,
            cuts: self.cuts as nat,
        }
    }
}

impl<M: Contender> Rounds<M> {
    /// The state before any row.
    pub open spec fn blank(&self, n_models: usize) -> bool {
        &&& self.n_models == n_models
        &&& self.board@.len() == 0
        &&& self.n_seen == 0
        &&& self.updates == 0
        &&& self.cuts == 0
        &&& self.board.wf()
    }

    /// A committee that has not met yet.
    pub fn new(n_models: usize) -> (r: Rounds<M>)
        ensures
            r.blank(n_models),
    {
        Rounds { n_models, board: Board::empty(), n_seen: 0, updates: 0, cuts: 0 }
    }

    /// Counters that leave room for a batch. A new member takes any batch that
    /// fits the counters.
    pub open spec fn room(&self, x: &Matrix) -> bool {
        &&& self.n_seen + x.height() <= u64::MAX
        &&& self.updates < u64::MAX
        &&& self.cuts < u64::MAX
        &&& self.board.ready(x)
        &&& forall|i: nat| M::room(#[trigger] M::newcomer(i), x.height()) && M::apt(M::newcomer(i), x@)
    }

    /// Takes in a batch, unless it has no target.
    pub fn partial_fit(&mut self, x: &Matrix, y: Option<&Vec<Double>>) -> (r: Update)
        requires
            x.wf(),
            x.width < usize::MAX,
            old(self).board.wf(),
            old(self).room(x),
            y matches Some(t) ==> x.height() <= t@.len(),
        ensures
            final(self).board.wf(),
            halving_answers::<M>(old(self)@, final(self)@, x, target(y), &r),
    {
        let n: usize = x.nrows();
        let mut issues: Vec<Issue> = Vec::new();
        inspect_online_xy(&mut issues, x, y);
        assert(issues@ =~= shape_issues(x, target(y)));
        let t: &Vec<Double> = match y {
            None => {
                issues.push(issue(IssueCode::MissingTarget));
                return rejection(self.updates, n, self.n_seen, issues);
            },
            Some(t) => t,
        };
        let ghost start = self@;
        if self.n_models < 2 {
            issues.push(warning(IssueCode::InvalidWeight));
            self.n_models = 2;
        }
        if self.board.models.len() == 0 {
            self.board = Board::found(self.n_models);
            assert forall|m: int| 0 <= m < self.board.models@.len() implies M::room(
                (#[trigger] self.board.models@[m])@,
                x.height(),
            ) && M::apt(self.board.models@[m]@, x@) by {
                assert(self.board@[m] == founded::<M>(self.n_models as nat)[m]);
                assert(self.board@.len() == self.board.models@.len());
                assert(founded::<M>(self.n_models as nat).len() == self.n_models);
                assert(self.board@[m].state == self.board.models@[m]@);
                assert(founded::<M>(self.n_models as nat)[m].state == M::newcomer(m as nat));
            }
        }
        assert(self.board@ =~= seated::<M>(start));
        let before: u64 = self.n_seen;
        self.board.play(x, t);
        self.n_seen = self.n_seen + n as u64;
        self.updates = self.updates + 1;
        let mut cut: bool = false;
        if self.board.models.len() > 1 && M::is_round_over(before, self.n_seen) {
            self.board.halve();
            self.cuts = self.cuts + 1;
            cut = true;
        }
        assert(self@ == halving_after::<M>(start, x@, t@));
        assert(cut == cuts_now::<M>(start, x.height()));
        let quality = IncrementalQuality {
            effective_sample_size: Double::from_u64(self.n_seen),
            parameter_delta_norm: Some(
                if cut {
                    one()
                } else {
                    zero()
                },
            ),
            information_gain: Some(Double::from_usize(n)),
            still_identified: self.n_seen >= 2 && self.board.models.len() > 0,
            warmup: self.n_seen < 4,
            ..IncrementalQuality::new(self.updates - 1, n, self.n_seen)
        };
        screened_report(quality, issues)
    }
}

impl Contender for Perceptron {
    open spec fn newcomer(i: nat) -> PerceptronState {
        PerceptronState::blank()
    }

    open spec fn credited(gain: Double, guess: Double, y: Double) -> Double {
        if guess.round().same(y.round()) {
            gain.plus(one())
        } else {
            gain
        }
    }

    open spec fn rated(gain: Double, trials: Double) -> Double {
        if trials.gt(zero()) {
            gain.over(trials)
        } else {
            zero()
        }
    }

    open spec fn high_wins() -> bool {
        true
    }

    open spec fn closes(before: nat, after: nat) -> bool {
        crosses_power(before, after)
    }

    fn enrol(i: usize) -> (r: Perceptron) {
        Perceptron::new()
    }

    fn credit(gain: Double, guess: Double, y: Double) -> (r: Double) {
        if guess.round().same(y.round()) {
            gain.plus(one())
        } else {
            gain
        }
    }

    fn rate(gain: Double, trials: Double) -> (r: Double) {
        if trials.gt(zero()) {
            gain.over(trials)
        } else {
            zero()
        }
    }

    fn is_high_best() -> (r: bool) {
        true
    }

    fn is_round_over(before: u64, after: u64) -> (r: bool) {
        crosses(before, after)
    }
}

impl Contender for LinearRegression {
    open spec fn newcomer(i: nat) -> RlsState {
        RlsState { p0: ten().times(Double::from_usize(i as usize).plus(one())), ..RlsState::blank(one()) }
    }

    open spec fn credited(gain: Double, guess: Double, y: Double) -> Double {
        let e = guess.minus(y);
        gain.plus(e.times(e))
    }

    open spec fn rated(gain: Double, trials: Double) -> Double {
        if trials.gt(zero()) {
            gain.over(trials)
        } else {
            infinity()
        }
    }

    open spec fn high_wins() -> bool {
        false
    }

    open spec fn closes(before: nat, after: nat) -> bool {
        reaches_power(before, after)
    }

    fn enrol(i: usize) -> (r: LinearRegression) {
        let mut r = LinearRegression::new(one());
        r.p0 = ten().times(Double::from_usize(i).plus(one()));
        r
    }

    fn credit(gain: Double, guess: Double, y: Double) -> (r: Double) {
        let e: Double = guess.minus(y);
        gain.plus(e.times(e))
    }

    fn rate(gain: Double, trials: Double) -> (r: Double) {
        if trials.gt(zero()) {
            gain.over(trials)
        } else {
            infinity()
        }
    }

    fn is_high_best() -> (r: bool) {
        false
    }

    fn is_round_over(before: u64, after: u64) -> (r: bool) {
        reaches(before, after)
    }
}

/// Committee of perceptrons that drops the less accurate half whenever the number
/// of rows crosses a power of two.
#[derive(Clone, Debug)]
pub struct SuccessiveHalvingClassifier {
    /// The committee.
    pub rounds: Rounds<Perceptron>,
}

/// The majority of a mean vote.
pub open spec fn majority(mean: Seq<Double>) -> Seq<Double> {
    Seq::new(
        mean.len(),
        |i: int|
            if mean[i].gt(half()) {
                one()
            } else {
                zero()
            },
    )
}

/// The majority of a mean vote.
pub fn to_majority(mean: &Vec<Double>) -> (r: Vec<Double>)
    ensures
        r@ == majority(mean@),
{
    let mut r: Vec<Double> = Vec::new();
    let mut i: usize = 0;
    while i < mean.len()
        invariant
            i <= mean@.len(),
            r@ == majority(mean@).take(i as int),
        decreases mean@.len() - i,
    {
        r.push(
            if mean[i].gt(half()) {
                one()
            } else {
                zero()
            },
        );
        i = i + 1;
        assert(r@ =~= majority(mean@).take(i as int));
    }
    assert(r@ =~= majority(mean@));
    r
}

/// At least one member.
pub open spec fn at_least_one_member(n: usize) -> usize {
    if n < 1 {
        1
    } else {
        n
    }
}

impl Default for SuccessiveHalvingClassifier {
    fn default() -> (r: SuccessiveHalvingClassifier)
        ensures
            r.rounds.blank(4),
    {
        SuccessiveHalvingClassifier { rounds: Rounds::new(4) }
    }
}

impl SuccessiveHalvingClassifier {
    /// Committee of `n_models` perceptrons.
    pub fn new(n_models: usize) -> (r: SuccessiveHalvingClassifier)
        ensures
            r.rounds.blank(at_least_one_member(n_models)),
    {
        SuccessiveHalvingClassifier {
            rounds: Rounds::new(
                if n_models < 1 {
                    1
                } else {
                    n_models
                },
            ),
        }
    }

    /// Members still there.
    pub fn n_alive(&self) -> (n: usize)
        ensures
            n == self.rounds@.members.len(),
    {
        self.rounds.board.models.len()
    }

    /// Counters that leave room for a batch.
    pub open spec fn room(&self, x: &Matrix) -> bool {
        &&& self.rounds.n_seen + x.height() <= u64::MAX
        &&& self.rounds.updates < u64::MAX
        &&& self.rounds.cuts < u64::MAX
        &&& self.rounds.board.ready(x)
    }

    /// Takes in a batch, unless it has no target.
    pub fn partial_fit(&mut self, x: &Matrix, y: Option<&Vec<Double>>) -> (r: Update)
        requires
            x.wf(),
            x.width < usize::MAX,
            old(self).rounds.board.wf(),
            old(self).room(x),
            y matches Some(t) ==> x.height() <= t@.len(),
        ensures
            final(self).rounds.board.wf(),
            halving_answers::<Perceptron>(old(self).rounds@, final(self).rounds@, x, target(y), &r),
    {
        self.rounds.partial_fit(x, y)
    }

    /// The majority vote of the members, or zeros before the first batch.
    pub fn predict(&self, x: &Matrix) -> (out: Qualified<Vec<Double>>)
        requires
            x.wf(),
            self.rounds.board.wf(),
        ensures
            if self.rounds@.members.len() == 0 {
                &&& out.value@ == zero_seq(x.height())
                &&& out.report@ == seq![issue(IssueCode::PartialFitBeforeInit)]
            } else {
                &&& out.value@ == majority(member_mean::<Perceptron>(states_of(self.rounds.board.models@), x@))
                &&& out.report@.len() == 0
            },
    {
        if self.rounds.board.models.len() == 0 {
            return unready(x.nrows());
        }
        let mean = mean_prediction(&self.rounds.board.models, x);
        Qualified { value: to_majority(&mean), report: Vec::new() }
    }
}

/// Committee of recursive least squares models that drops the half with the larger
/// errors whenever the number of rows reaches a power of two, and when the second row
/// comes.
#[derive(Clone, Debug)]
pub struct SuccessiveHalvingRegressor {
    /// The committee.
    pub rounds: Rounds<LinearRegression>,
}

impl Default for SuccessiveHalvingRegressor {
    fn default() -> (r: SuccessiveHalvingRegressor)
        ensures
            r.rounds.blank(4),
    {
        SuccessiveHalvingRegressor { rounds: Rounds::new(4) }
    }
}

impl SuccessiveHalvingRegressor {
    /// Committee of `n_models` models.
    pub fn new(n_models: usize) -> (r: SuccessiveHalvingRegressor)
        ensures
            r.rounds.blank(at_least_one_member(n_models)),
    {
        SuccessiveHalvingRegressor {
            rounds: Rounds::new(
                if n_models < 1 {
                    1
                } else {
                    n_models
                },
            ),
        }
    }

    /// Counters that leave room for a batch, and members that fit its columns.
    pub open spec fn room(&self, x: &Matrix) -> bool {
        &&& self.rounds.n_seen + x.height() <= u64::MAX
        &&& self.rounds.updates < u64::MAX
        &&& self.rounds.cuts < u64::MAX
        &&& self.rounds.board.ready(x)
    }

    /// Takes in a batch, unless it has no target.
    pub fn partial_fit(&mut self, x: &Matrix, y: Option<&Vec<Double>>) -> (r: Update)
        requires
            x.wf(),
            x.width < usize::MAX,
            old(self).rounds.board.wf(),
            old(self).room(x),
            y matches Some(t) ==> x.height() <= t@.len(),
        ensures
            final(self).rounds.board.wf(),
            halving_answers::<LinearRegression>(old(self).rounds@, final(self).rounds@, x, target(y), &r),
    {
        self.rounds.partial_fit(x, y)
    }

    /// The mean of the members' predictions, or zeros before the first batch.
    pub fn predict(&self, x: &Matrix) -> (out: Qualified<Vec<Double>>)
        requires
            x.wf(),
            self.rounds.board.wf(),
            forall|m: int|
                0 <= m < self.rounds.board.models@.len() ==> (#[trigger] self.rounds.board.models@[m])@.fits(x.width),
        ensures
            if self.rounds@.members.len() == 0 {
                &&& out.value@ == zero_seq(x.height())
                &&& out.report@ == seq![issue(IssueCode::PartialFitBeforeInit)]
            } else {
                &&& out.value@ == member_mean::<LinearRegression>(states_of(self.rounds.board.models@), x@)
                &&& out.report@.len() == 0
            },
    {
        if self.rounds.board.models.len() == 0 {
            return unready(x.nrows());
        }
        let value = mean_prediction(&self.rounds.board.models, x);
        Qualified { value, report: Vec::new() }
    }
}

} // verus!
