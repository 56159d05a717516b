//! Models that can be members of a committee.

use crate::data::{Batch, Matrix};
use crate::double::Double;
use vstd::prelude::*;

verus! {

/// A model that learns from batches. Its view is its whole state.
pub trait Learner: View + Sized {
    /// What every value of the type satisfies.
    spec fn sound(&self) -> bool;

    /// Counters that leave room for a batch of `rows` rows.
    spec fn room(s: Self::V, rows: nat) -> bool;

    /// Whether the model can predict for the columns of `x`.
    spec fn apt(s: Self::V, x: Batch) -> bool;

    /// The state after a batch.
    spec fn taught(s: Self::V, x: Batch, y: Seq<Double>) -> Self::V;

    /// One prediction per row.
    spec fn foreseen(s: Self::V, x: Batch) -> Seq<Double>;

    /// A prediction for each row of `x`.
    proof fn lemma_foreseen(s: Self::V, x: Batch)
        ensures
            Self::foreseen(s, x).len() == x.height(),
    ;

    /// Learns from a batch.
    fn teach(&mut self, x: &Matrix, y: &Vec<Double>)
        requires
            x.wf(),
            x.width < usize::MAX,
            x.height() <= y@.len(),
            old(self).sound(),
            Self::room(old(self)@, x.height()),
        ensures
            final(self).sound(),
            final(self)@ == Self::taught(old(self)@, x@, y@),
    ;

    /// Predicts for each row.
    fn foresee(&self, x: &Matrix) -> (r: Vec<Double>)
        requires
            x.wf(),
            self.sound(),
            Self::apt(self@, x@),
        ensures
            r@ == Self::foreseen(self@, x@),
    ;

    /// A copy with the same state.
    fn duplicate(&self) -> (r: Self)
        requires
            self.sound(),
        ensures
            r.sound(),
            r@ == self@,
    ;
}

} // verus!
