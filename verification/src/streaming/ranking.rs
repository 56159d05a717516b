//! Stable ranking of numbers.

use crate::double::Double;
use vstd::prelude::*;

verus! {

/// Whether `a` comes strictly before `b`.
#[verifier::allow_in_spec]
pub fn ahead(a: Double, b: Double, descending: bool) -> (r: bool)
    returns
        (if descending {
            b.lt(a)
        } else {
            a.lt(b)
        }),
{
    if descending {
        b.lt(a)
    } else {
        a.lt(b)
    }
}

/// Where index `i` goes among the first `pos` ranked indices: behind the last one
/// that it does not come strictly before.
pub open spec fn seat(keys: Seq<Double>, ranked: Seq<usize>, i: int, descending: bool, pos: nat) -> nat
    decreases pos,
{
    if pos == 0 {
        0
    } else if ahead(keys[i], keys[ranked[pos - 1] as int], descending) {
        seat(keys, ranked, i, descending, (pos - 1) as nat)
    } else {
        pos
    }
}

/// The first `n` indices in the order of their keys, equal keys in the order of
/// their indices.
pub open spec fn ranking(keys: Seq<Double>, descending: bool, n: nat) -> Seq<usize>
    decreases n,
{
    if n == 0 {
        Seq::empty()
    } else {
        let shorter = ranking(keys, descending, (n - 1) as nat);
        shorter.insert(seat(keys, shorter, n - 1, descending, shorter.len()) as int, (n - 1) as usize)
    }
}

proof fn lemma_seat(keys: Seq<Double>, ranked: Seq<usize>, i: int, descending: bool, pos: nat)
    ensures
        seat(keys, ranked, i, descending, pos) <= pos,
    decreases pos,
{
    if pos > 0 {
        lemma_seat(keys, ranked, i, descending, (pos - 1) as nat);
    }
}

/// A ranking holds each index exactly once.
pub proof fn law_ranking_permutes(keys: Seq<Double>, descending: bool, n: nat)
    requires
        n <= usize::MAX,
    ensures
        ranking(keys, descending, n).len() == n,
        forall|a: int| 0 <= a < n ==> (#[trigger] ranking(keys, descending, n)[a]) < n,
        forall|a: int, b: int|
            0 <= a < b < n ==> (#[trigger] ranking(keys, descending, n)[a]) != (#[trigger] ranking(keys, descending, n)[b]),
        forall|v: usize| v < n ==> #[trigger] ranking(keys, descending, n).contains(v),
    decreases n,
{
    if n > 0 {
        let m: nat = (n - 1) as nat;
        law_ranking_permutes(keys, descending, m);
        let shorter = ranking(keys, descending, m);
        lemma_seat(keys, shorter, m as int, descending, m);
        let at = seat(keys, shorter, m as int, descending, m) as int;
        let longer = ranking(keys, descending, n);
        assert(longer == shorter.insert(at, m as usize));
        assert forall|v: usize| v < n implies #[trigger] longer.contains(v) by {
            if v == m {
                assert(longer[at] == v);
            } else {
                assert(shorter.contains(v));
                let k = choose|k: int| 0 <= k < shorter.len() && shorter[k] == v;
                if k < at {
                    assert(longer[k] == v);
                } else {
                    assert(longer[k + 1] == v);
                }
            }
        }
    }
}

/// None of the first `n` keys is NaN.
pub open spec fn comparable(keys: Seq<Double>, n: nat) -> bool {
    forall|i: int| 0 <= i < n ==> !(#[trigger] keys[i]).is_nan()
}

/// Index `a` comes before index `b`: by key, then by index.
pub open spec fn outranks(keys: Seq<Double>, descending: bool, a: int, b: int) -> bool {
    ahead(keys[a], keys[b], descending) || (!ahead(keys[b], keys[a], descending) && a < b)
}

proof fn lemma_seat_splits(keys: Seq<Double>, ranked: Seq<usize>, i: int, descending: bool, pos: nat)
    requires
        pos <= ranked.len(),
    ensures
        forall|k: int|
            seat(keys, ranked, i, descending, pos) <= k < pos ==> ahead(
                keys[i],
                keys[(#[trigger] ranked[k]) as int],
                descending,
            ),
        ({
            let at = seat(keys, ranked, i, descending, pos);
            at > 0 ==> !ahead(keys[i], keys[ranked[at - 1] as int], descending)
        }),
    decreases pos,
{
    if pos > 0 {
        lemma_seat_splits(keys, ranked, i, descending, (pos - 1) as nat);
    }
}

/// A ranking of comparable keys is sorted, and equal keys keep the order of their
/// indices.
pub proof fn law_ranking_sorts(keys: Seq<Double>, descending: bool, n: nat)
    requires
        n <= usize::MAX,
        comparable(keys, n),
    ensures
        forall|a: int, b: int|
            0 <= a < b < n ==> outranks(
                keys,
                descending,
                (#[trigger] ranking(keys, descending, n)[a]) as int,
                (#[trigger] ranking(keys, descending, n)[b]) as int,
            ),
    decreases n,
{
    if n > 0 {
        let m: nat = (n - 1) as nat;
        assert(comparable(keys, m));
        law_ranking_sorts(keys, descending, m);
        law_ranking_permutes(keys, descending, m);
        law_ranking_permutes(keys, descending, n);
        let shorter = ranking(keys, descending, m);
        lemma_seat(keys, shorter, m as int, descending, m);
        lemma_seat_splits(keys, shorter, m as int, descending, m);
        let at = seat(keys, shorter, m as int, descending, m) as int;
        let longer = ranking(keys, descending, n);
        assert(longer == shorter.insert(at, m as usize));
        assert forall|a: int, b: int| 0 <= a < b < n implies outranks(
            keys,
            descending,
            (#[trigger] longer[a]) as int,
            (#[trigger] longer[b]) as int,
        ) by {
            let new = m as int;
            assert(!keys[new].is_nan());
            if b == at {
                assert(longer[a] == shorter[a]);
                let here = shorter[a] as int;
                let last = shorter[at - 1] as int;
                assert(0 <= here < m && 0 <= last < m);
                assert(!keys[here].is_nan() && !keys[last].is_nan());
                if a < at - 1 {
                    assert(outranks(keys, descending, here, last));
                }
            } else if a == at {
                assert(longer[b] == shorter[b - 1]);
                let there = shorter[b - 1] as int;
                assert(ahead(keys[new], keys[there], descending));
            } else {
                let p = if a < at {
                    a
                } else {
                    a - 1
                };
                let q = if b < at {
                    b
                } else {
                    b - 1
                };
                assert(longer[a] == shorter[p] && longer[b] == shorter[q]);
            }
        }
    }
}

/// The indices in the order of their keys.
pub fn rank(keys: &Vec<Double>, descending: bool) -> (r: Vec<usize>)
    ensures
        r@ == ranking(keys@, descending, keys@.len()),
        r@.len() == keys@.len(),
        forall|a: int| 0 <= a < r@.len() ==> (#[trigger] r@[a]) < keys@.len(),
{
    let mut r: Vec<usize> = Vec::new();
    let n: usize = keys.len();
    let mut i: usize = 0;
    proof {
        law_ranking_permutes(keys@, descending, n as nat);
    }
    while i < n
        invariant
            i <= n,
            n == keys@.len(),
            r@ == ranking(keys@, descending, i as nat),
        decreases n - i,
    {
        proof {
            law_ranking_permutes(keys@, descending, i as nat);
        }
        let mut pos: usize = r.len();
        while pos > 0 && ahead(keys[i], keys[r[pos - 1]], descending)
            invariant
                pos <= r@.len(),
                i < keys@.len(),
                r@ == ranking(keys@, descending, i as nat),
                r@.len() == i,
                forall|a: int| 0 <= a < r@.len() ==> (#[trigger] r@[a]) < i,
                seat(keys@, r@, i as int, descending, r@.len()) == seat(
                    keys@,
                    r@,
                    i as int,
                    descending,
                    pos as nat,
                ),
            decreases pos,
        {
            pos = pos - 1;
        }
        r.insert(pos, i);
        i = i + 1;
    }
    r
}

/// The numbers in ascending order.
pub open spec fn sorted_values(keys: Seq<Double>) -> Seq<Double> {
    Seq::new(keys.len(), |a: int| keys[ranking(keys, false, keys.len())[a] as int])
}

/// The numbers in ascending order.
pub fn sorted(keys: &Vec<Double>) -> (r: Vec<Double>)
    ensures
        r@ == sorted_values(keys@),
{
    let order = rank(keys, false);
    let mut r: Vec<Double> = Vec::new();
    let mut a: usize = 0;
    while a < order.len()
        invariant
            a <= order@.len(),
            order@ == ranking(keys@, false, keys@.len()),
            order@.len() == keys@.len(),
            forall|b: int| 0 <= b < order@.len() ==> (#[trigger] order@[b]) < keys@.len(),
            r@ == sorted_values(keys@).take(a as int),
        decreases order@.len() - a,
    {
        r.push(keys[order[a]]);
        a = a + 1;
        assert(r@ =~= sorted_values(keys@).take(a as int));
    }
    assert(r@ =~= sorted_values(keys@));
    r
}

} // verus!
