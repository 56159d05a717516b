//! Real functions that a caller supplies.

use crate::double::Double;
use vstd::prelude::*;

verus! {

/// `f` can be called on every number and answers the same number each time.
pub open spec fn is_function<F: Fn(Double) -> Double>(f: F) -> bool {
    &&& forall|z: Double| #[trigger] f.requires((z,))
    &&& forall|z: Double, a: Double, b: Double| #[trigger]
        f.ensures((z,), a) && #[trigger] f.ensures((z,), b) ==> a == b
}

/// The number that `f` answers for `z`.
pub open spec fn value_at<F: Fn(Double) -> Double>(f: F, z: Double) -> Double {
    choose|r: Double| f.ensures((z,), r)
}

/// A function on numbers, as contracts speak of it.
pub type Curve = spec_fn(Double) -> Double;

/// The function that `f` computes.
pub open spec fn curve<F: Fn(Double) -> Double>(f: F) -> Curve {
    |z: Double| value_at(f, z)
}

/// The number that `f` answers for `z`.
pub fn apply<F: Fn(Double) -> Double>(f: &F, z: Double) -> (r: Double)
    requires
        is_function(*f),
    ensures
        r == curve(*f)(z),
{
    let r: Double = f(z);
    assert((*f).ensures((z,), r));
    r
}

/// `f` can be called on every pair and answers the same number each time.
pub open spec fn is_function_of_two<F: Fn(Double, Double) -> Double>(f: F) -> bool {
    &&& forall|a: Double, b: Double| #[trigger] f.requires((a, b))
    &&& forall|a: Double, b: Double, r: Double, s: Double| #[trigger]
        f.ensures((a, b), r) && #[trigger] f.ensures((a, b), s) ==> r == s
}

/// A function on pairs of numbers, as contracts speak of it.
pub type Surface = spec_fn(Double, Double) -> Double;

/// The function that `f` computes.
pub open spec fn surface<F: Fn(Double, Double) -> Double>(f: F) -> Surface {
    |a: Double, b: Double| choose|r: Double| f.ensures((a, b), r)
}

/// The number that `f` answers for `a` and `b`.
pub fn apply_two<F: Fn(Double, Double) -> Double>(f: &F, a: Double, b: Double) -> (r: Double)
    requires
        is_function_of_two(*f),
    ensures
        r == surface(*f)(a, b),
{
    let r: Double = f(a, b);
    assert((*f).ensures((a, b), r));
    r
}

} // verus!
