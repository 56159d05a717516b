//! Weighted votes for labels.

use crate::double::{zero, Double};
use vstd::prelude::*;

verus! {

/// Position of `key` from entry `k` on, or the number of entries.
pub open spec fn spot_from(entries: Seq<(i64, Double)>, key: i64, k: nat) -> nat
    decreases entries.len() - k,
{
    if k >= entries.len() || entries[k as int].0 == key {
        k
    } else {
        spot_from(entries, key, k + 1)
    }
}

/// Position of `key`, or the number of entries.
pub open spec fn spot(entries: Seq<(i64, Double)>, key: i64) -> nat {
    spot_from(entries, key, 0)
}

proof fn lemma_spot_from(entries: Seq<(i64, Double)>, key: i64, k: nat)
    requires
        k <= entries.len(),
    ensures
        k <= spot_from(entries, key, k) <= entries.len(),
        spot_from(entries, key, k) < entries.len() ==> entries[spot_from(entries, key, k) as int].0 == key,
        forall|a: int| k <= a < spot_from(entries, key, k) ==> (#[trigger] entries[a]).0 != key,
    decreases entries.len() - k,
{
    if k < entries.len() && entries[k as int].0 != key {
        lemma_spot_from(entries, key, k + 1);
    }
}

/// The votes after `weight` more for `key`. A key without votes joins at the end.
pub open spec fn voted(entries: Seq<(i64, Double)>, key: i64, weight: Double) -> Seq<(i64, Double)> {
    let at = spot(entries, key) as int;
    if at < entries.len() {
        entries.update(at, (key, entries[at].1.plus(weight)))
    } else {
        entries.push((key, zero().plus(weight)))
    }
}

/// Adds `weight` to the votes for `key`.
pub fn vote(entries: &mut Vec<(i64, Double)>, key: i64, weight: Double)
    ensures
        final(entries)@ == voted(old(entries)@, key, weight),
{
    let mut at: usize = 0;
    while at < entries.len() && entries[at].0 != key
        invariant
            at <= entries@.len(),
            spot(entries@, key) == spot_from(entries@, key, at as nat),
        decreases entries@.len() - at,
    {
        at = at + 1;
    }
    if at < entries.len() {
        let sum: Double = entries[at].1.plus(weight);
        entries.set(at, (key, sum));
    } else {
        entries.push((key, zero().plus(weight)));
    }
}

/// Whether the first entry beats the second: by votes, then by the smaller key.
#[verifier::allow_in_spec]
pub fn beats(a: (i64, Double), b: (i64, Double)) -> (r: bool)
    returns
        (a.1.gt(b.1) || (!b.1.gt(a.1) && a.0 < b.0)),
{
    a.1.gt(b.1) || (!b.1.gt(a.1) && a.0 < b.0)
}

/// The entry that beats the others among the first `k`.
pub open spec fn leader(entries: Seq<(i64, Double)>, k: nat) -> Option<(i64, Double)>
    decreases k,
{
    if k == 0 {
        None
    } else {
        match leader(entries, (k - 1) as nat) {
            None => Some(entries[k - 1]),
            Some(b) => if beats(entries[k - 1], b) {
                Some(entries[k - 1])
            } else {
                Some(b)
            },
        }
    }
}

/// The label with the most votes as a number, zero without votes.
pub open spec fn elected(entries: Seq<(i64, Double)>) -> Double {
    match leader(entries, entries.len()) {
        Some(e) => Double::from_i64(e.0),
        None => zero(),
    }
}

/// The label with the most votes as a number, zero without votes.
pub fn elect(entries: &Vec<(i64, Double)>) -> (r: Double)
    ensures
        r == elected(entries@),
{
    let mut best: Option<(i64, Double)> = None;
    let mut k: usize = 0;
    while k < entries.len()
        invariant
            k <= entries@.len(),
            best == leader(entries@, k as nat),
        decreases entries@.len() - k,
    {
        let e: (i64, Double) = entries[k];
        best = match best {
            None => Some(e),
            Some(b) => if beats(e, b) {
                Some(e)
            } else {
                Some(b)
            },
        };
        k = k + 1;
    }
    match best {
        Some(e) => Double::from_i64(e.0),
        None => zero(),
    }
}

/// The elected label has at least as many votes as any other, and a smaller key than
/// those with as many.
pub proof fn law_leader_wins(entries: Seq<(i64, Double)>, k: nat)
    requires
        k <= entries.len(),
        k > 0,
        forall|a: int| 0 <= a < k ==> !(#[trigger] entries[a]).1.is_nan(),
    ensures
        leader(entries, k) is Some,
        exists|a: int| 0 <= a < k && #[trigger] entries[a] == leader(entries, k)->0,
        forall|a: int| 0 <= a < k ==> !beats(#[trigger] entries[a], leader(entries, k)->0),
    decreases k,
{
    if k > 1 {
        law_leader_wins(entries, (k - 1) as nat);
        let b = leader(entries, (k - 1) as nat)->0;
        let at = choose|a: int| 0 <= a < k - 1 && #[trigger] entries[a] == b;
        let l = leader(entries, k)->0;
        if beats(entries[k - 1], b) {
            assert(entries[k - 1] == l);
            assert forall|a: int| 0 <= a < k implies !beats(#[trigger] entries[a], l) by {
                if a < k - 1 {
                    assert(!beats(entries[a], b));
                    assert(!entries[a].1.is_nan() && !b.1.is_nan() && !l.1.is_nan());
                }
            }
        } else {
            assert(entries[at] == l);
        }
    } else {
        assert(leader(entries, 0) is None);
        assert(entries[0] == leader(entries, 1)->0);
    }
}

/// Votes never list a label twice.
pub proof fn law_votes_keep_labels_distinct(entries: Seq<(i64, Double)>, key: i64, weight: Double)
    requires
        forall|a: int, b: int| 0 <= a < b < entries.len() ==> (#[trigger] entries[a]).0 != (#[trigger] entries[b]).0,
    ensures
        forall|a: int, b: int|
            0 <= a < b < voted(entries, key, weight).len() ==> (#[trigger] voted(entries, key, weight)[a]).0 != (
            #[trigger] voted(entries, key, weight)[b]).0,
{
    lemma_spot_from(entries, key, 0);
    let v = voted(entries, key, weight);
    assert forall|a: int, b: int| 0 <= a < b < v.len() implies (#[trigger] v[a]).0 != (#[trigger] v[b]).0 by {
        if b < entries.len() {
            assert(entries[a].0 != entries[b].0);
        } else {
            assert(entries[a].0 != key);
        }
    }
}

} // verus!
