//! What the leaves of a tree hold: the rows that reached them since they were made.

use crate::constants::half;
use crate::data::Batch;
use crate::double::{one, zero, Double};
use crate::functions::Curve;
use crate::streaming::hoeffding::{
    fits_tree, grove_after, grove_predictions, grove_refusal, grown, growth, law_growth_keeps_fit, reached, Grove,
    SplitRule, Tree, TreeLeaf,
};
use crate::streaming::trees::{HtLeaf, HtState};
use vstd::prelude::*;

verus! {

/// Whether a row goes to the left at a test: its value is at most the threshold. A column
/// that it lacks reads as zero.
pub open spec fn goes_left(row: Seq<Double>, feature: usize, threshold: Double) -> bool {
    if feature < row.len() {
        row[feature as int].le(threshold)
    } else {
        zero().le(threshold)
    }
}

/// Two rows go the same way at every test that they meet.
pub open spec fn shares_leaf<S>(t: Tree<S>, a: Seq<Double>, b: Seq<Double>) -> bool
    decreases t,
{
    match t {
        Tree::Leaf(s) => true,
        Tree::Split { feature, threshold, left, right } => {
            &&& goes_left(a, feature, threshold) == goes_left(b, feature, threshold)
            &&& if goes_left(a, feature, threshold) {
                shares_leaf(*left, a, b)
            } else {
                shares_leaf(*right, a, b)
            }
        },
    }
}

/// A leaf state after the rows from `from` to `k` that share the leaf of `q` in the tree.
pub open spec fn visited<L: TreeLeaf>(
    t: Tree<L::V>,
    start: L::V,
    x: Batch,
    y: Seq<Double>,
    q: Seq<Double>,
    from: nat,
    k: nat,
) -> L::V
    decreases k,
{
    if k <= from {
        start
    } else {
        let before = visited::<L>(t, start, x, y, q, from, (k - 1) as nat);
        if shares_leaf(t, x.rows[k - 1], q) {
            L::fed(before, x.rows[k - 1], y[k - 1])
        } else {
            before
        }
    }
}

proof fn lemma_same_visits<L: TreeLeaf>(
    t: Tree<L::V>,
    u: Tree<L::V>,
    start: L::V,
    x: Batch,
    y: Seq<Double>,
    q: Seq<Double>,
    from: nat,
    k: nat,
)
    requires
        forall|a: Seq<Double>| #[trigger] shares_leaf(t, a, q) == shares_leaf(u, a, q),
    ensures
        visited::<L>(t, start, x, y, q, from, k) == visited::<L>(u, start, x, y, q, from, k),
    decreases k,
{
    if k > from {
        lemma_same_visits::<L>(t, u, start, x, y, q, from, (k - 1) as nat);
        assert(shares_leaf(t, x.rows[k - 1], q) == shares_leaf(u, x.rows[k - 1], q));
    }
}

/// One row reaches one leaf. Rows that share it find it fed, or split into two empty ones;
/// for all others nothing changes.
pub proof fn law_row_reaches_one_leaf<L: TreeLeaf>(
    t: Tree<L::V>,
    row: Seq<Double>,
    y: Double,
    rule: SplitRule,
    ln: Curve,
    cdf: Curve,
    next_id: u64,
    p: nat,
    cap: nat,
    q: Seq<Double>,
)
    requires
        fits_tree::<L>(t, p, cap),
        row.len() == p,
        p <= usize::MAX,
    ensures
        ({
            let after = grown::<L>(t, row, y, rule, ln, cdf, next_id);
            let fed = L::fed(reached(t, q), row, y);
            if !shares_leaf(t, row, q) {
                &&& reached(after, q) == reached(t, q)
                &&& forall|a: Seq<Double>| #[trigger] shares_leaf(after, a, q) == shares_leaf(t, a, q)
            } else if L::verdict(fed, rule, ln, cdf) is None {
                &&& reached(after, q) == fed
                &&& forall|a: Seq<Double>| #[trigger] shares_leaf(after, a, q) == shares_leaf(t, a, q)
            } else {
                ||| reached(after, q) == L::fresh(next_id, p)
                ||| reached(after, q) == L::fresh((next_id + 1) as u64, p)
            }
        }),
    decreases t,
{
    let after = grown::<L>(t, row, y, rule, ln, cdf, next_id);
    match t {
        Tree::Leaf(s) => {
            L::lemma_fed(s, row, y, cap);
            if let Some(note) = L::verdict(L::fed(s, row, y), rule, ln, cdf) {
                let l = Tree::Leaf(L::fresh(next_id, p));
                let r = Tree::Leaf(L::fresh((next_id + 1) as u64, p));
                assert(reached(l, q) == L::fresh(next_id, p));
                assert(reached(r, q) == L::fresh((next_id + 1) as u64, p));
            }
        },
        Tree::Split { feature, threshold, left, right } => {
            law_row_reaches_one_leaf::<L>(*left, row, y, rule, ln, cdf, next_id, p, cap, q);
            law_row_reaches_one_leaf::<L>(*right, row, y, rule, ln, cdf, next_id, p, cap, q);
            assert(row[feature as int].le(threshold) == goes_left(row, feature, threshold));
            let same = !shares_leaf(t, row, q) || L::verdict(L::fed(reached(t, q), row, y), rule, ln, cdf) is None;
            if same {
                assert forall|a: Seq<Double>| #[trigger] shares_leaf(after, a, q) == shares_leaf(t, a, q) by {
                    if goes_left(q, feature, threshold) {
                        assert(goes_left(row, feature, threshold) ==> shares_leaf(
                            grown::<L>(*left, row, y, rule, ln, cdf, next_id),
                            a,
                            q,
                        ) == shares_leaf(*left, a, q));
                    } else {
                        assert(!goes_left(row, feature, threshold) ==> shares_leaf(
                            grown::<L>(*right, row, y, rule, ln, cdf, next_id),
                            a,
                            q,
                        ) == shares_leaf(*right, a, q));
                    }
                }
            }
        },
    }
}

/// A leaf holds the rows that reached it since it was made. For every `q`, the leaf that
/// `q` reaches after the first `k` rows is a new one fed with those rows, from some row
/// on, that share it with `q`.
pub proof fn law_leaf_holds_its_rows<L: TreeLeaf>(
    id: u64,
    x: Batch,
    y: Seq<Double>,
    rule: SplitRule,
    ln: Curve,
    cdf: Curve,
    n_seen: nat,
    k: nat,
    q: Seq<Double>,
) -> (r: (nat, u64))
    requires
        x.wf(),
        k <= x.height(),
        fits_tree::<L>(Tree::Leaf(L::fresh(id, x.width as nat)), x.width as nat, n_seen),
    ensures
        r.0 <= k,
        ({
            let t = growth::<L>(Tree::Leaf(L::fresh(id, x.width as nat)), x, y, rule, ln, cdf, n_seen, k).root;
            reached(t, q) == visited::<L>(t, L::fresh(r.1, x.width as nat), x, y, q, r.0, k)
        }),
    decreases k,
{
    let p = x.width as nat;
    let root = Tree::Leaf(L::fresh(id, p));
    if k == 0 {
        (0, id)
    } else {
        let j = (k - 1) as nat;
        let (from, made) = law_leaf_holds_its_rows::<L>(id, x, y, rule, ln, cdf, n_seen, j, q);
        law_growth_keeps_fit::<L>(root, x, y, rule, ln, cdf, n_seen, j);
        let t = growth::<L>(root, x, y, rule, ln, cdf, n_seen, j).root;
        let row = x.rows[k - 1];
        let next_id = (n_seen + 17 + (k - 1)) as u64;
        let after = grown::<L>(t, row, y[k - 1], rule, ln, cdf, next_id);
        assert(row.len() == p);
        law_row_reaches_one_leaf::<L>(t, row, y[k - 1], rule, ln, cdf, next_id, p, (n_seen + j) as nat, q);
        let fed = L::fed(reached(t, q), row, y[k - 1]);
        if shares_leaf(t, row, q) && L::verdict(fed, rule, ln, cdf) is Some {
            if reached(after, q) == L::fresh(next_id, p) {
                (k, next_id)
            } else {
                (k, (next_id + 1) as u64)
            }
        } else {
            assert forall|a: Seq<Double>| #[trigger] shares_leaf(t, a, q) == shares_leaf(after, a, q) by {
                assert(shares_leaf(after, a, q) == shares_leaf(t, a, q));
            }
            lemma_same_visits::<L>(t, after, L::fresh(made, p), x, y, q, from, j);
            (from, made)
        }
    }
}

/// Rows from `from` to `k` that share the leaf of `q` and whose label is on the given side
/// of one half.
pub open spec fn labelled(
    t: Tree<HtState>,
    x: Batch,
    y: Seq<Double>,
    q: Seq<Double>,
    positive: bool,
    from: nat,
    k: nat,
) -> nat
    decreases k,
{
    if k <= from {
        0
    } else {
        labelled(t, x, y, q, positive, from, (k - 1) as nat) + if shares_leaf(t, x.rows[k - 1], q) && half().le(
            y[k - 1],
        ) == positive {
            1nat
        } else {
            0nat
        }
    }
}

proof fn lemma_leaf_counts(t: Tree<HtState>, id: u64, x: Batch, y: Seq<Double>, q: Seq<Double>, from: nat, k: nat)
    ensures
        ({
            let s = visited::<HtLeaf>(t, HtLeaf::fresh(id, x.width as nat), x, y, q, from, k);
            &&& s.n_pos == labelled(t, x, y, q, true, from, k)
            &&& s.n_neg == labelled(t, x, y, q, false, from, k)
            &&& s.n == s.n_pos + s.n_neg
        }),
    decreases k,
{
    if k > from {
        lemma_leaf_counts(t, id, x, y, q, from, (k - 1) as nat);
    }
}

/// A classifying tree predicts the majority. After the first batch, the prediction for a
/// row is zero where, of the rows that reached its leaf since that was made, more have a
/// label below one half than not; otherwise it is one.
pub proof fn law_tree_predicts_the_majority(
    s: Grove<HtState>,
    x: Batch,
    y: Seq<Double>,
    ln: Curve,
    cdf: Curve,
    queries: Batch,
    i: int,
) -> (from: nat)
    requires
        x.wf(),
        !s.initialized,
        grove_refusal(s, x, Some(y)) is None,
        0 <= i < queries.height(),
    ensures
        from <= x.height(),
        ({
            let after = grove_after::<HtLeaf>(s, x, y, ln, cdf);
            let q = queries.rows[i];
            let against = labelled(after.root, x, y, q, false, from, x.height());
            let favour = labelled(after.root, x, y, q, true, from, x.height());
            grove_predictions::<HtLeaf>(after, queries)[i] == if against > favour {
                zero()
            } else {
                one()
            }
        }),
{
    let q = queries.rows[i];
    let (from, id) = law_leaf_holds_its_rows::<HtLeaf>(0, x, y, s.rule, ln, cdf, s.n_seen, x.height(), q);
    let after = grove_after::<HtLeaf>(s, x, y, ln, cdf);
    lemma_leaf_counts(after.root, id, x, y, q, from, x.height());
    from
}

/// Labels of the first `k` rows on the given side of one half.
pub open spec fn tally(y: Seq<Double>, positive: bool, k: nat) -> nat
    decreases k,
{
    if k == 0 {
        0
    } else {
        tally(y, positive, (k - 1) as nat) + if half().le(y[k - 1]) == positive {
            1nat
        } else {
            0nat
        }
    }
}

/// A leaf after the first `k` of some rows and labels.
pub open spec fn fed_all<L: TreeLeaf>(s: L::V, rows: Seq<Seq<Double>>, y: Seq<Double>, k: nat) -> L::V
    decreases k,
{
    if k == 0 {
        s
    } else {
        L::fed(fed_all::<L>(s, rows, y, (k - 1) as nat), rows[k - 1], y[k - 1])
    }
}

/// A classifying leaf answers with the class that most of its rows carry: zero if more
/// labels are below one half than not, otherwise one.
pub proof fn law_leaf_answers_the_majority(id: u64, p: nat, rows: Seq<Seq<Double>>, y: Seq<Double>, k: nat)
    ensures
        HtLeaf::answer(fed_all::<HtLeaf>(HtLeaf::fresh(id, p), rows, y, k)) == if tally(y, false, k) > tally(
            y,
            true,
            k,
        ) {
            zero()
        } else {
            one()
        },
        tally(y, false, k) + tally(y, true, k) == k,
{
    lemma_fed_counts(id, p, rows, y, k);
}

/// The counters of a leaf are those of its labels.
pub proof fn lemma_fed_counts(id: u64, p: nat, rows: Seq<Seq<Double>>, y: Seq<Double>, k: nat)
    ensures
        ({
            let s = fed_all::<HtLeaf>(HtLeaf::fresh(id, p), rows, y, k);
            &&& s.n_pos == tally(y, true, k)
            &&& s.n_neg == tally(y, false, k)
            &&& s.n == k
        }),
        tally(y, false, k) + tally(y, true, k) == k,
    decreases k,
{
    if k > 0 {
        lemma_fed_counts(id, p, rows, y, (k - 1) as nat);
    }
}

/// Two batches in a row grow a tree as the joined batch does, so that what a leaf holds
/// does not depend on how its rows were split into batches.
pub proof fn law_growth_joins<L: TreeLeaf>(
    root: Tree<L::V>,
    x: Batch,
    y: Seq<Double>,
    more: Batch,
    goals: Seq<Double>,
    rule: SplitRule,
    ln: Curve,
    cdf: Curve,
    n_seen: nat,
    k: nat,
)
    requires
        y.len() == x.height(),
        k <= more.height() <= goals.len(),
    ensures
        ({
            let all = Batch { rows: x.rows + more.rows, width: x.width };
            let first = growth::<L>(root, x, y, rule, ln, cdf, n_seen, x.height()).root;
            growth::<L>(first, more, goals, rule, ln, cdf, n_seen + x.height(), k).root == growth::<L>(
                root,
                all,
                y + goals,
                rule,
                ln,
                cdf,
                n_seen,
                x.height() + k,
            ).root
        }),
    decreases k,
{
    let all = Batch { rows: x.rows + more.rows, width: x.width };
    if k == 0 {
        lemma_growth_prefix::<L>(root, x, y, all, y + goals, rule, ln, cdf, n_seen, x.height());
    } else {
        law_growth_joins::<L>(root, x, y, more, goals, rule, ln, cdf, n_seen, (k - 1) as nat);
        let i = x.height() + k - 1;
        assert(all.rows[i] == more.rows[k - 1]);
        assert((y + goals)[i] == goals[k - 1]);
    }
}

proof fn lemma_growth_prefix<L: TreeLeaf>(
    root: Tree<L::V>,
    x: Batch,
    y: Seq<Double>,
    all: Batch,
    goals: Seq<Double>,
    rule: SplitRule,
    ln: Curve,
    cdf: Curve,
    n_seen: nat,
    k: nat,
)
    requires
        forall|i: int| 0 <= i < k ==> #[trigger] all.rows[i] == x.rows[i],
        forall|i: int| 0 <= i < k ==> #[trigger] goals[i] == y[i],
    ensures
        growth::<L>(root, x, y, rule, ln, cdf, n_seen, k) == growth::<L>(root, all, goals, rule, ln, cdf, n_seen, k),
    decreases k,
{
    if k > 0 {
        lemma_growth_prefix::<L>(root, x, y, all, goals, rule, ln, cdf, n_seen, (k - 1) as nat);
        assert(all.rows[k - 1] == x.rows[k - 1]);
        assert(goals[k - 1] == y[k - 1]);
    }
}

} // verus!
