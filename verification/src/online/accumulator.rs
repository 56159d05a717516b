//! The transactional update that all scalar streaming statistics share.

use crate::data::Matrix;
use crate::double::{zero, Double};
use crate::online::common::{joined, lemma_stacked_rows, misshapen, second, second_of, stacked, target};
use crate::quality::{issue, Failure, IncrementalQuality, Issue, IssueCode, Update};
use vstd::prelude::*;

verus! {

/// A statistic that takes in one observation, or pair of observations, at a time.
pub trait Accumulator: Sized + Copy {
    /// Whether an observation is a pair: column 0 with column 1 or the target.
    spec fn pairwise() -> bool;

    /// Observations taken in.
    spec fn seen(self) -> u64;

    /// Batches accepted.
    spec fn rounds(self) -> u64;

    /// The same state after `rounds` accepted batches.
    spec fn with_rounds(self, rounds: u64) -> Self;

    /// Reasons to refuse a batch before any arithmetic.
    spec fn refusals(self, x: &Matrix, y: Option<Seq<Double>>) -> Seq<Issue>;

    /// Whether the stored figures can be continued from.
    spec fn sound(self) -> bool;

    /// What holds between any two observations of one batch.
    spec fn coherent(self) -> bool;

    /// The state after one more observation, or why there is none.
    spec fn observed(self, left: Double, right: Double) -> Result<Self, IssueCode>;

    /// Why a batch is refused although each of its observations was taken in.
    spec fn objection(self) -> Option<IssueCode>;

    /// Quality figures of an accepted batch.
    spec fn figures(self, before: Self, batch: usize) -> IncrementalQuality;

    /// Issues that an accepted batch raises.
    spec fn remarks(self) -> Seq<Issue>;

    /// The number of batches does not influence the arithmetic.
    proof fn rounds_are_inert(self, left: Double, right: Double, rounds: u64)
        ensures
            self.with_rounds(rounds).seen() == self.seen(),
            self.with_rounds(rounds).rounds() == rounds,
            self.with_rounds(self.rounds()) == self,
            self.with_rounds(rounds).with_rounds(self.rounds()) == self,
            self.with_rounds(rounds).objection() == self.objection(),
            self.with_rounds(rounds).sound() == self.sound(),
            self.with_rounds(rounds).observed(left, right) == (match self.observed(left, right) {
                Ok(next) => Ok(next.with_rounds(rounds)),
                Err(code) => Err(code),
            }),
    ;

    /// The last number of batches set is the one that stands.
    proof fn with_rounds_twice(self, first: u64, second: u64)
        ensures
            self.with_rounds(first).with_rounds(second) == self.with_rounds(second),
    ;

    /// An observation counts once and leaves the number of batches alone.
    proof fn observation_counts(self, left: Double, right: Double)
        requires
            self.seen() < u64::MAX,
        ensures
            self.observed(left, right) matches Ok(next) ==> next.seen() == self.seen() + 1 && next.rounds()
                == self.rounds(),
    ;

    /// What refusing nothing guarantees.
    proof fn refusals_cover(self, x: &Matrix, y: Option<Seq<Double>>)
        ensures
            self.refusals(x, y).len() == 0 ==> {
                &&& !misshapen(x, y, Self::pairwise())
                &&& self.seen() + x.height() <= u64::MAX
                &&& self.rounds() < u64::MAX
            },
    ;

    /// What is accepted in two batches passes the checks in one.
    proof fn refusals_join(
        self,
        middle: Self,
        x1: &Matrix,
        y1: Option<Seq<Double>>,
        x2: &Matrix,
        y2: Option<Seq<Double>>,
        x: &Matrix,
    )
        requires
            stacked(x1, x2, x),
            middle.seen() == self.seen() + x1.height(),
            self.refusals(x1, y1).len() == 0,
            middle.refusals(x2, y2).len() == 0,
        ensures
            self.refusals(x, joined(y1, y2)).len() == 0,
    ;

    /// Executable `pairwise`.
    fn takes_pairs() -> (r: bool)
        ensures
            r == Self::pairwise(),
    ;

    /// Executable `refusals`.
    fn refuse(&self, x: &Matrix, y: Option<&Vec<Double>>) -> (issues: Vec<Issue>)
        requires
            x.wf(),
        ensures
            issues@ == self.refusals(x, target(y)),
    ;

    /// Executable `sound`.
    fn is_sound(&self) -> (r: bool)
        ensures
            r == self.sound(),
            r ==> self.coherent(),
    ;

    /// Executable `observed`.
    fn observe(&self, left: Double, right: Double) -> (r: Result<Self, IssueCode>)
        requires
            self.seen() < u64::MAX,
            self.coherent(),
        ensures
            r == self.observed(left, right),
            r matches Ok(next) ==> next.coherent(),
    ;

    /// Executable `objection`.
    fn object(&self) -> (r: Option<IssueCode>)
        requires
            self.coherent(),
        ensures
            r == self.objection(),
    ;

    /// One more accepted batch.
    fn count_round(&self) -> (r: Self)
        requires
            self.rounds() < u64::MAX,
        ensures
            r == self.with_rounds((self.rounds() + 1) as u64),
    ;

    /// Executable `figures`.
    fn describe(&self, before: &Self, batch: usize) -> (q: IncrementalQuality)
        requires
            self.rounds() > 0,
            self.seen() == before.seen() + batch,
            batch > 0,
        ensures
            q == self.figures(*before, batch),
    ;

    /// Executable `remarks`.
    fn remark(&self) -> (issues: Vec<Issue>)
        requires
            self.seen() > 0,
        ensures
            issues@ == self.remarks(),
    ;
}

/// The observations of a batch, in order.
pub open spec fn readings(x: &Matrix, y: Option<Seq<Double>>, pairwise: bool) -> Seq<(Double, Double)> {
    Seq::new(
        x.height(),
        |i: int|
            (
                x.at(i, 0),
                if pairwise {
                    second(x, y, i)
                } else {
                    zero()
                },
            ),
    )
}

/// The state after a sequence of observations, or why it was refused.
pub open spec fn observe_all<T: Accumulator>(start: T, values: Seq<(Double, Double)>) -> Result<T, IssueCode>
    decreases values.len(),
{
    if values.len() == 0 {
        Ok(start)
    } else {
        match observe_all(start, values.drop_last()) {
            Ok(state) => state.observed(values.last().0, values.last().1),
            Err(code) => Err(code),
        }
    }
}

/// The outcome of a batch: the next state, or all reasons to refuse it.
pub open spec fn outcome<T: Accumulator>(start: T, x: &Matrix, y: Option<Seq<Double>>) -> Result<T, Seq<Issue>> {
    if start.refusals(x, y).len() > 0 {
        Err(start.refusals(x, y))
    } else if !start.sound() {
        Err(seq![issue(IssueCode::NonFiniteOutput)])
    } else {
        match observe_all(start, readings(x, y, T::pairwise())) {
            Err(code) => Err(seq![issue(code)]),
            Ok(state) => match state.objection() {
                Some(code) => Err(seq![issue(code)]),
                None => Ok(state.with_rounds((start.rounds() + 1) as u64)),
            },
        }
    }
}

/// What a call of `fit_batch` returns and leaves behind.
pub open spec fn fits<T: Accumulator>(
    start: T,
    end: T,
    x: &Matrix,
    y: Option<Seq<Double>>,
    result: Result<Update, Failure>,
) -> bool {
    match outcome(start, x, y) {
        Ok(next) => {
            &&& end == next
            &&& result is Ok
            &&& result->Ok_0.quality == next.figures(start, x.height() as usize)
            &&& result->Ok_0.issues@ == next.remarks()
            &&& result->Ok_0.screened
            &&& !result->Ok_0.idle
            &&& result->Ok_0.trailing@ == Seq::<Issue>::empty()
        },
        Err(issues) => {
            &&& end == start
            &&& result is Err
            &&& result->Err_0.issues@ == issues
            &&& issues.len() > 0
        },
    }
}

fn refused<T>(code: IssueCode) -> (r: Result<T, Failure>)
    ensures
        r is Err,
        r->Err_0.issues@ == seq![issue(code)],
{
    let mut issues: Vec<Issue> = Vec::new();
    issues.push(issue(code));
    assert(issues@ =~= seq![issue(code)]);
    Err(Failure { issues })
}

proof fn lemma_observe_one<T: Accumulator>(start: T, values: Seq<(Double, Double)>, i: int)
    requires
        0 <= i < values.len(),
    ensures
        observe_all(start, values.take(i + 1)) == (match observe_all(start, values.take(i)) {
            Ok(state) => state.observed(values[i].0, values[i].1),
            Err(code) => Err(code),
        }),
{
    assert(values.take(i + 1).drop_last() =~= values.take(i));
}

proof fn lemma_error_stays<T: Accumulator>(start: T, values: Seq<(Double, Double)>, i: int)
    requires
        0 <= i <= values.len(),
        observe_all(start, values.take(i)) is Err,
    ensures
        observe_all(start, values) == observe_all(start, values.take(i)),
    decreases values.len() - i,
{
    if i == values.len() {
        assert(values.take(i) =~= values);
    } else {
        lemma_observe_one(start, values, i);
        lemma_error_stays(start, values, i + 1);
    }
}

/// Takes in a batch, or refuses it as a whole.
pub fn fit_batch<T: Accumulator>(state: &mut T, x: &Matrix, y: Option<&Vec<Double>>) -> (r: Result<Update, Failure>)
    requires
        x.wf(),
    ensures
        fits(*old(state), *final(state), x, target(y), r),
{
    let before: T = *state;
    let issues = before.refuse(x, y);
    if issues.len() > 0 {
        return Err(Failure { issues });
    }
    proof {
        before.refusals_cover(x, target(y));
    }
    if !before.is_sound() {
        return refused(IssueCode::NonFiniteOutput);
    }
    let n: usize = x.nrows();
    let ghost values = readings(x, target(y), T::pairwise());
    let mut candidate: T = before;
    let mut i: usize = 0;
    assert(values.take(0) =~= Seq::empty());
    while i < n
        invariant
            i <= n,
            n == x.height(),
            x.wf(),
            !misshapen(x, target(y), T::pairwise()),
            values == readings(x, target(y), T::pairwise()),
            observe_all(before, values.take(i as int)) == Ok::<T, IssueCode>(candidate),
            candidate.seen() == before.seen() + i,
            candidate.rounds() == before.rounds(),
            candidate.coherent(),
            before.seen() + n <= u64::MAX,
            *state == before,
            before.refusals(x, target(y)).len() == 0,
            before.sound(),
        decreases n - i,
    {
        let left: Double = x.get(i, 0);
        let right: Double = if T::takes_pairs() {
            second_of(x, y, i)
        } else {
            zero()
        };
        proof {
            lemma_observe_one(before, values, i as int);
            candidate.observation_counts(left, right);
        }
        match candidate.observe(left, right) {
            Ok(next) => {
                candidate = next;
            },
            Err(code) => {
                proof {
                    lemma_error_stays(before, values, i + 1);
                }
                return refused(code);
            },
        }
        i = i + 1;
    }
    assert(values.take(n as int) =~= values);
    match candidate.object() {
        Some(code) => {
            return refused(code);
        },
        None => {},
    }
    proof {
        candidate.rounds_are_inert(zero(), zero(), (before.rounds() + 1) as u64);
    }
    let next: T = candidate.count_round();
    *state = next;
    let quality = next.describe(&before, n);
    let issues = next.remark();
    Ok(Update { quality, issues, screened: true, idle: false, trailing: Vec::new() })
}

/// Taking in one sequence after another is taking in their concatenation.
pub proof fn law_sequences_join<T: Accumulator>(start: T, a: Seq<(Double, Double)>, b: Seq<(Double, Double)>)
    ensures
        observe_all(start, a + b) == (match observe_all(start, a) {
            Ok(state) => observe_all(state, b),
            Err(code) => Err(code),
        }),
    decreases b.len(),
{
    if b.len() == 0 {
        assert(a + b =~= a);
    } else {
        law_sequences_join(start, a, b.drop_last());
        assert((a + b).drop_last() =~= a + b.drop_last());
        assert((a + b).last() == b.last());
    }
}

/// The number of earlier batches does not influence what observations do.
pub proof fn law_rounds_are_inert<T: Accumulator>(start: T, values: Seq<(Double, Double)>, rounds: u64)
    ensures
        observe_all(start.with_rounds(rounds), values) == (match observe_all(start, values) {
            Ok(state) => Ok(state.with_rounds(rounds)),
            Err(code) => Err(code),
        }),
    decreases values.len(),
{
    if values.len() > 0 {
        law_rounds_are_inert(start, values.drop_last(), rounds);
        match observe_all(start, values.drop_last()) {
            Ok(state) => {
                state.rounds_are_inert(values.last().0, values.last().1, rounds);
            },
            Err(_) => {},
        }
    }
}

proof fn lemma_readings_join<T: Accumulator>(
    start: T,
    x1: &Matrix,
    y1: Option<Seq<Double>>,
    x2: &Matrix,
    y2: Option<Seq<Double>>,
    x: &Matrix,
    y: Option<Seq<Double>>,
)
    requires
        readings(x, y, T::pairwise()) == readings(x1, y1, T::pairwise()) + readings(x2, y2, T::pairwise()),
        start.refusals(x, y).len() == 0,
        outcome(start, x1, y1) is Ok,
        outcome(outcome(start, x1, y1)->Ok_0, x2, y2) is Ok,
    ensures
        outcome(start, x, y) is Ok,
        outcome(start, x, y)->Ok_0 == outcome(outcome(start, x1, y1)->Ok_0, x2, y2)->Ok_0.with_rounds(
            (start.rounds() + 1) as u64,
        ),
{
    let a = readings(x1, y1, T::pairwise());
    let b = readings(x2, y2, T::pairwise());
    law_sequences_join(start, a, b);
    let middle = observe_all(start, a)->Ok_0;
    let once = (start.rounds() + 1) as u64;
    law_rounds_are_inert(middle, b, once);
    let last = observe_all(middle, b)->Ok_0;
    let r2 = (outcome(start, x1, y1)->Ok_0.rounds() + 1) as u64;
    last.rounds_are_inert(zero(), zero(), once);
    T::with_rounds_twice(last, once, r2);
    T::with_rounds_twice(last.with_rounds(once), r2, once);
    T::with_rounds_twice(last, r2, once);
}

/// Every observation counts once.
pub proof fn lemma_seen<T: Accumulator>(start: T, values: Seq<(Double, Double)>)
    requires
        start.seen() + values.len() <= u64::MAX,
    ensures
        observe_all(start, values) matches Ok(state) ==> state.seen() == start.seen() + values.len() && state.rounds()
            == start.rounds(),
    decreases values.len(),
{
    if values.len() > 0 {
        lemma_seen(start, values.drop_last());
        match observe_all(start, values.drop_last()) {
            Ok(state) => {
                state.observation_counts(values.last().0, values.last().1);
            },
            Err(_) => {},
        }
    }
}

/// Partition invariance. Rows that are accepted in two batches are accepted in
/// one, and leave the same state, bit for bit, but for the batch count.
pub proof fn law_partition_invariance<T: Accumulator>(
    start: T,
    x1: &Matrix,
    y1: Option<Seq<Double>>,
    x2: &Matrix,
    y2: Option<Seq<Double>>,
    x: &Matrix,
)
    requires
        stacked(x1, x2, x),
        outcome(start, x1, y1) is Ok,
        outcome(outcome(start, x1, y1)->Ok_0, x2, y2) is Ok,
    ensures
        outcome(start, x, joined(y1, y2)) is Ok,
        outcome(start, x, joined(y1, y2))->Ok_0 == outcome(outcome(start, x1, y1)->Ok_0, x2, y2)->Ok_0.with_rounds(
            (start.rounds() + 1) as u64,
        ),
{
    let pairwise = T::pairwise();
    let y = joined(y1, y2);
    let first = observe_all(start, readings(x1, y1, pairwise))->Ok_0;
    let middle = outcome(start, x1, y1)->Ok_0;
    start.refusals_cover(x1, y1);
    middle.refusals_cover(x2, y2);
    lemma_seen(start, readings(x1, y1, pairwise));
    first.rounds_are_inert(zero(), zero(), (start.rounds() + 1) as u64);
    start.refusals_join(middle, x1, y1, x2, y2, x);
    lemma_stacked_rows(x1, y1, x2, y2, x, pairwise);
    assert forall|i: int| 0 <= i < x.height() implies #[trigger] readings(x, y, pairwise)[i] == (readings(
        x1,
        y1,
        pairwise,
    ) + readings(x2, y2, pairwise))[i] by {
        if i < x1.height() {
            assert(x.at(i, 0) == x1.at(i, 0));
            assert(pairwise ==> second(x, y, i) == second(x1, y1, i));
        } else {
            assert(x.at(i, 0) == x2.at(i - x1.height(), 0));
            assert(pairwise ==> second(x, y, i) == second(x2, y2, i - x1.height()));
        }
    }
    assert(readings(x, y, pairwise) =~= readings(x1, y1, pairwise) + readings(x2, y2, pairwise));
    lemma_readings_join(start, x1, y1, x2, y2, x, y);
}

/// The converse. A stream that is accepted in one batch is accepted in two
/// wherever the state between them can be continued from, with the same result.
pub proof fn law_joined_batches_split<T: Accumulator>(
    start: T,
    x1: &Matrix,
    y1: Option<Seq<Double>>,
    x2: &Matrix,
    y2: Option<Seq<Double>>,
    x: &Matrix,
    y: Option<Seq<Double>>,
    middle: T,
)
    requires
        readings(x, y, T::pairwise()) == readings(x1, y1, T::pairwise()) + readings(x2, y2, T::pairwise()),
        start.refusals(x1, y1).len() == 0,
        observe_all(start, readings(x1, y1, T::pairwise())) == Ok::<T, IssueCode>(middle),
        middle.sound(),
        middle.objection() is None,
        middle.with_rounds((start.rounds() + 1) as u64).refusals(x2, y2).len() == 0,
        outcome(start, x, y) is Ok,
    ensures
        outcome(start, x1, y1) == Ok::<T, Seq<Issue>>(middle.with_rounds((start.rounds() + 1) as u64)),
        outcome(outcome(start, x1, y1)->Ok_0, x2, y2) is Ok,
        outcome(start, x, y)->Ok_0 == outcome(outcome(start, x1, y1)->Ok_0, x2, y2)->Ok_0.with_rounds(
            (start.rounds() + 1) as u64,
        ),
{
    let a = readings(x1, y1, T::pairwise());
    let b = readings(x2, y2, T::pairwise());
    law_sequences_join(start, a, b);
    let once = (start.rounds() + 1) as u64;
    law_rounds_are_inert(middle, b, once);
    middle.rounds_are_inert(zero(), zero(), once);
    let last = observe_all(middle, b)->Ok_0;
    last.rounds_are_inert(zero(), zero(), once);
    lemma_readings_join(start, x1, y1, x2, y2, x, y);
}

/// Only the observations count, not the columns that they were read from.
pub proof fn law_equal_readings_equal_outcomes<T: Accumulator>(
    start: T,
    x1: &Matrix,
    y1: Option<Seq<Double>>,
    x2: &Matrix,
    y2: Option<Seq<Double>>,
)
    requires
        readings(x1, y1, T::pairwise()) == readings(x2, y2, T::pairwise()),
        start.refusals(x1, y1).len() == 0,
        start.refusals(x2, y2).len() == 0,
    ensures
        outcome(start, x1, y1) == outcome(start, x2, y2),
{
}

/// A refused batch leaves the state as it was.
pub proof fn law_refusal_changes_nothing<T: Accumulator>(
    start: T,
    end: T,
    x: &Matrix,
    y: Option<Seq<Double>>,
    result: Result<Update, Failure>,
)
    requires
        fits(start, end, x, y, result),
        result is Err,
    ensures
        end == start,
{
}

/// The state after some batches in a row. A refused batch leaves it as it was.
pub open spec fn history<T: Accumulator>(start: T, batches: Seq<(Matrix, Option<Seq<Double>>)>) -> T
    decreases batches.len(),
{
    if batches.len() == 0 {
        start
    } else {
        let before = history(start, batches.drop_last());
        match outcome(before, &batches.last().0, batches.last().1) {
            Ok(next) => next,
            Err(_) => before,
        }
    }
}

/// The observations of the batches that are accepted, in order.
pub open spec fn stream<T: Accumulator>(start: T, batches: Seq<(Matrix, Option<Seq<Double>>)>) -> Seq<(Double, Double)>
    decreases batches.len(),
{
    if batches.len() == 0 {
        Seq::empty()
    } else {
        let before = history(start, batches.drop_last());
        let earlier = stream(start, batches.drop_last());
        match outcome(before, &batches.last().0, batches.last().1) {
            Ok(_) => earlier + readings(&batches.last().0, batches.last().1, T::pairwise()),
            Err(_) => earlier,
        }
    }
}

/// The batches that are accepted.
pub open spec fn accepted<T: Accumulator>(start: T, batches: Seq<(Matrix, Option<Seq<Double>>)>) -> nat
    decreases batches.len(),
{
    if batches.len() == 0 {
        0
    } else {
        let before = history(start, batches.drop_last());
        let earlier = accepted(start, batches.drop_last());
        match outcome(before, &batches.last().0, batches.last().1) {
            Ok(_) => earlier + 1,
            Err(_) => earlier,
        }
    }
}

/// However many batches a stream comes in, refused ones among them, the state is that
/// of the accepted observations taken in one by one, with the accepted batches counted.
pub proof fn law_history_is_a_stream<T: Accumulator>(start: T, batches: Seq<(Matrix, Option<Seq<Double>>)>)
    ensures
        observe_all(start, stream(start, batches)) is Ok,
        history(start, batches) == observe_all(start, stream(start, batches))->Ok_0.with_rounds(
            (start.rounds() + accepted(start, batches)) as u64,
        ),
        start.rounds() + accepted(start, batches) <= u64::MAX,
        history(start, batches).seen() == start.seen() + stream(start, batches).len(),
        history(start, batches).rounds() == start.rounds() + accepted(start, batches),
    decreases batches.len(),
{
    if batches.len() == 0 {
        start.rounds_are_inert(zero(), zero(), start.rounds());
    } else {
        let earlier = batches.drop_last();
        let x = &batches.last().0;
        let y = batches.last().1;
        law_history_is_a_stream(start, earlier);
        let before = history(start, earlier);
        if outcome(before, x, y) is Ok {
            let a = stream(start, earlier);
            let b = readings(x, y, T::pairwise());
            let middle = observe_all(start, a)->Ok_0;
            let rounds = (start.rounds() + accepted(start, earlier)) as u64;
            law_sequences_join(start, a, b);
            law_rounds_are_inert(middle, b, rounds);
            before.refusals_cover(x, y);
            lemma_seen(before, b);
            let last = observe_all(middle, b)->Ok_0;
            let once = (rounds + 1) as u64;
            let end = observe_all(before, b)->Ok_0;
            assert(end == last.with_rounds(rounds));
            last.with_rounds_twice(rounds, once);
            last.rounds_are_inert(zero(), zero(), once);
            end.rounds_are_inert(zero(), zero(), once);
        }
    }
}

/// Invariance under any partition. Whichever batches bring a stream, one batch with the
/// same observations leaves the same state, bit for bit, but for the batch count.
pub proof fn law_any_partition<T: Accumulator>(
    start: T,
    batches: Seq<(Matrix, Option<Seq<Double>>)>,
    x: &Matrix,
    y: Option<Seq<Double>>,
)
    requires
        readings(x, y, T::pairwise()) == stream(start, batches),
        outcome(start, x, y) is Ok,
    ensures
        history(start, batches) == outcome(start, x, y)->Ok_0.with_rounds(
            (start.rounds() + accepted(start, batches)) as u64,
        ),
{
    law_history_is_a_stream(start, batches);
    let end = observe_all(start, stream(start, batches))->Ok_0;
    end.with_rounds_twice(
        (start.rounds() + 1) as u64,
        (start.rounds() + accepted(start, batches)) as u64,
    );
}

} // verus!
