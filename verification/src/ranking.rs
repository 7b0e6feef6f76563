//! Ranking of `(node, score)` pairs: score descending, ties by ascending
//! node index. This order is total, so the ranked sequence of any candidate
//! list is unique, and every sort here is pinned to `Seq::sort_by`.

use vstd::prelude::*;
use vstd::relations::{sorted_by, total_ordering};
use vstd::seq_lib::lemma_sorted_unique;

verus! {

/// `a` comes no later than `b`: higher score first, ties by lower index.
pub open spec fn rank_le(a: (usize, usize), b: (usize, usize)) -> bool {
    b.1 < a.1 || (a.1 == b.1 && a.0 <= b.0)
}

/// The ranking order as a relation value.
pub open spec fn rank_order() -> spec_fn((usize, usize), (usize, usize)) -> bool {
    |a: (usize, usize), b: (usize, usize)| rank_le(a, b)
}

/// The unique ranking of a candidate list.
pub open spec fn ranked(s: Seq<(usize, usize)>) -> Seq<(usize, usize)> {
    s.sort_by(rank_order())
}

/// The ranking order is a total order on pairs.
pub proof fn lemma_rank_total()
    ensures
        total_ordering(rank_order()),
{
    let r = rank_order();
    assert forall|x: (usize, usize), y: (usize, usize)| #[trigger] r(x, y) && #[trigger] r(
        y,
        x,
    ) implies x == y by {
        assert(x.1 == y.1 && x.0 == y.0);
    }
    assert forall|x: (usize, usize), y: (usize, usize)| !(#[trigger] r(x, y)) implies #[trigger] r(
        y,
        x,
    ) by {}
}

/// What `ranked` returns: a permutation of the input, sorted by the ranking
/// order; being sorted by a total order, it is the only such sequence.
pub proof fn lemma_ranked_ensures(s: Seq<(usize, usize)>)
    ensures
        ranked(s).to_multiset() == s.to_multiset(),
        ranked(s).len() == s.len(),
        sorted_by(ranked(s), rank_order()),
        forall|x: (usize, usize)| ranked(s).contains(x) <==> s.contains(x),
    decreases 0int,
{
    lemma_rank_total();
    s.lemma_sort_by_ensures(rank_order());
    s.to_multiset_ensures();
    ranked(s).to_multiset_ensures();
    assert forall|x: (usize, usize)| ranked(s).contains(x) <==> s.contains(x) by {
        assert(ranked(s).contains(x) <==> ranked(s).to_multiset().count(x) > 0);
        assert(s.contains(x) <==> s.to_multiset().count(x) > 0);
    }
}

/// Executable form of the ranking order.
fn rank_le_exec(a: (usize, usize), b: (usize, usize)) -> (r: bool)
    ensures
        r == rank_le(a, b),
{
    b.1 < a.1 || (a.1 == b.1 && a.0 <= b.0)
}

/// Sorts the pairs into ranking order (insertion sort).
pub(crate) fn sort_pairs(v: &mut Vec<(usize, usize)>)
    ensures
        final(v)@ == ranked(old(v)@),
{
    let ghost orig: Seq<(usize, usize)> = v@;
    proof {
        lemma_rank_total();
    }
    let mut i: usize = 1;
    while i < v.len()
        invariant
            v@.len() == orig.len(),
            i >= 1 || v@.len() == 0,
            v@.to_multiset() == orig.to_multiset(),
            forall|a: int, b: int| 0 <= a < b < i && b < v@.len() ==> rank_le(v@[a], v@[b]),
        decreases v@.len() - i,
    {
        let x = v[i];
        let ghost before: Seq<(usize, usize)> = v@;
        let removed = v.remove(i);
        proof {
            before.to_multiset_ensures();
            assert(removed == x);
            assert(v@ == before.remove(i as int));
            assert(v@.to_multiset() == before.to_multiset().remove(x));
        }
        // find the insertion slot: everything before it ranks no later than x
        let mut j: usize = 0;
        while j < i && rank_le_exec(v[j], x)
            invariant
                j <= i,
                i < before.len(),
                v@ == before.remove(i as int),
                forall|a: int| 0 <= a < j ==> rank_le(#[trigger] v@[a], x),
            decreases i - j,
        {
            j += 1;
        }
        v.insert(j, x);
        proof {
            vstd::seq_lib::to_multiset_insert(before.remove(i as int), j as int, x);
            before.remove(i as int).to_multiset_ensures();
            assert(v@.to_multiset() == before.remove(i as int).to_multiset().insert(x));
            assert(before.to_multiset().remove(x).insert(x) =~= before.to_multiset());
            assert(v@.to_multiset() == orig.to_multiset());
            // the sorted prefix grew by one
            assert forall|a: int, b: int|
                0 <= a < b < i + 1 && b < v@.len() implies rank_le(v@[a], v@[b]) by {
                let rem = before.remove(i as int);
                if a < j && b == j {
                    assert(rank_le(rem[a], x));
                } else if a == j && b > j {
                    assert(!rank_le(rem[j as int], x));
                    assert(rank_le(x, rem[j as int]));
                    if b > j + 1 {
                        assert(rank_le(rem[j as int], rem[b - 1]));
                    }
                } else if a < j && b > j {
                    assert(rank_le(rem[a], rem[b - 1]));
                } else if a > j && b > j {
                    assert(rank_le(rem[a - 1], rem[b - 1]));
                } else {
                    assert(rank_le(rem[a], rem[b]));
                }
            }
        }
        i += 1;
    }
    proof {
        assert(sorted_by(v@, rank_order()));
        lemma_ranked_ensures(orig);
        lemma_sorted_unique(v@, ranked(orig), rank_order());
        assert(v@ =~= ranked(orig));
    }
}

} // verus!
