//! Topological ordering with definite cycle detection: either a total order
//! consistent with every edge, or the report that a cycle exists — never a
//! partial order. Ties are broken by ascending node index, so the order is
//! deterministic.

use crate::graph::{lemma_push_contains, DiGraph};
use vstd::prelude::*;
use vstd::set_lib::{lemma_int_range, lemma_len_subset, set_int_range};

verus! {

/// `c` is a directed cycle of the graph: consecutive elements are joined by
/// edges, as are the last and the first (a single self-looping node counts).
pub open spec fn is_cycle(g: &DiGraph, c: Seq<usize>) -> bool {
    &&& c.len() >= 1
    &&& forall|t: int| 0 <= t < c.len() - 1 ==> g.has_edge(#[trigger] c[t], c[t + 1])
    &&& g.has_edge(c[c.len() - 1], c[0])
}

/// The graph contains some directed cycle.
pub open spec fn has_cycle(g: &DiGraph) -> bool {
    exists|c: Seq<usize>| is_cycle(g, c)
}

/// `ord` is a topological order: every node exactly once, and every edge
/// points from an earlier position to a later one.
pub open spec fn is_topo_order(g: &DiGraph, ord: Seq<usize>) -> bool {
    &&& ord.len() == g.n()
    &&& forall|t: int| 0 <= t < ord.len() ==> (#[trigger] ord[t] as int) < g.n()
    &&& ord.no_duplicates()
    &&& forall|v: usize| (v as int) < g.n() ==> ord.contains(v)
    &&& forall|i: int, j: int|
        0 <= i < ord.len() && 0 <= j < ord.len() && g.has_edge(#[trigger] ord[i], #[trigger] ord[j])
            ==> i < j
}

/// Every predecessor of the node at position `t` of `ord` appears earlier.
spec fn preds_before(g: &DiGraph, ord: Seq<usize>, t: int) -> bool {
    forall|s: int|
        0 <= s < g.preds(ord[t] as int).len() ==> ord.subrange(0, t).contains(
            #[trigger] g.preds(ord[t] as int)[s],
        )
}

/// `w` could be placed right after the given prefix of the order: it is a
/// node, not placed yet, and all its predecessors are placed.
pub open spec fn placeable(g: &DiGraph, prefix: Seq<usize>, w: usize) -> bool {
    &&& (w as int) < g.n()
    &&& !prefix.contains(w)
    &&& forall|s: int|
        0 <= s < g.preds(w as int).len() ==> prefix.contains(#[trigger] g.preds(w as int)[s])
}

/// Position `i` of `ord` holds the smallest placeable node: the tie-breaking
/// rule that makes the order deterministic.
pub open spec fn min_eligible_at(g: &DiGraph, ord: Seq<usize>, i: int) -> bool {
    forall|w: usize| w < ord[i] ==> !placeable(g, ord.subrange(0, i), w)
}

/// `v` can be placed next: not placed yet, and every predecessor placed.
spec fn eligible(g: &DiGraph, placed: Seq<bool>, v: usize) -> bool {
    &&& !placed[v as int]
    &&& forall|s: int|
        0 <= s < g.preds(v as int).len() ==> placed[#[trigger] g.preds(v as int)[s] as int]
}

/// In a sequence of distinct indices below `n` that is shorter than `n`,
/// some index below `n` is missing.
proof fn lemma_nodes_missing(s: Seq<usize>, n: int) -> (v: usize)
    requires
        forall|i: int| 0 <= i < s.len() ==> (#[trigger] s[i] as int) < n,
        s.no_duplicates(),
        s.len() < n,
        n <= usize::MAX,
    ensures
        (v as int) < n,
        !s.contains(v),
{
    broadcast use vstd::seq_lib::group_seq_properties;
    broadcast use vstd::set::group_set_axioms;
    broadcast use vstd::seq_lib::seq_to_set_is_finite;

    let si = s.map_values(|x: usize| x as int);
    assert(si.no_duplicates()) by {
        assert forall|i: int, j: int| 0 <= i < si.len() && 0 <= j < si.len() && i != j implies si[i]
            != si[j] by {
            assert(s[i] != s[j]);
        }
    }
    si.unique_seq_to_set();
    lemma_int_range(0, n);
    if forall|v: usize| (v as int) < n ==> #[trigger] s.contains(v) {
        assert(set_int_range(0, n).subset_of(si.to_set())) by {
            assert forall|x: int| set_int_range(0, n).contains(x) implies si.to_set().contains(
                x,
            ) by {
                let v = x as usize;
                assert(s.contains(v));
                let i = choose|i: int| 0 <= i < s.len() && s[i] == v;
                assert(si[i] == x);
                assert(si.contains(x));
            }
        }
        lemma_len_subset(set_int_range(0, n), si.to_set());
        assert(false);
    }
    choose|v: usize| (v as int) < n && !s.contains(v)
}

/// In a sequence of indices below `n` that is longer than `n`, some index
/// occurs twice.
proof fn lemma_nodes_dup(s: Seq<usize>, n: int)
    requires
        forall|i: int| 0 <= i < s.len() ==> (#[trigger] s[i] as int) < n,
        n >= 0,
        s.len() > n,
    ensures
        exists|i: int, j: int| 0 <= i < j < s.len() && s[i] == s[j],
{
    broadcast use vstd::seq_lib::group_seq_properties;
    broadcast use vstd::set::group_set_axioms;
    broadcast use vstd::seq_lib::seq_to_set_is_finite;

    if !(exists|i: int, j: int| 0 <= i < j < s.len() && s[i] == s[j]) {
        assert(s.no_duplicates()) by {
            assert forall|i: int, j: int|
                0 <= i < s.len() && 0 <= j < s.len() && i != j implies s[i] != s[j] by {
                if i < j && s[i] == s[j] {
                    assert(false);
                } else if j < i && s[j] == s[i] {
                    assert(false);
                }
            }
        }
        let si = s.map_values(|x: usize| x as int);
        assert(si.no_duplicates()) by {
            assert forall|i: int, j: int|
                0 <= i < si.len() && 0 <= j < si.len() && i != j implies si[i] != si[j] by {
                assert(s[i] != s[j]);
            }
        }
        si.unique_seq_to_set();
        assert(si.to_set().subset_of(set_int_range(0, n))) by {
            assert forall|x: int| si.to_set().contains(x) implies set_int_range(0, n).contains(
                x,
            ) by {
                let i = choose|i: int| 0 <= i < si.len() && si[i] == x;
                assert((s[i] as int) < n);
            }
        }
        lemma_int_range(0, n);
        lemma_len_subset(si.to_set(), set_int_range(0, n));
        assert(false);
    }
}

/// A sequence of `n` distinct indices below `n` contains every index below `n`.
proof fn lemma_full_range(s: Seq<usize>, n: int)
    requires
        forall|i: int| 0 <= i < s.len() ==> (#[trigger] s[i] as int) < n,
        s.no_duplicates(),
        s.len() == n,
    ensures
        forall|v: usize| (v as int) < n ==> s.contains(v),
{
    broadcast use vstd::seq_lib::group_seq_properties;
    broadcast use vstd::set::group_set_axioms;
    broadcast use vstd::seq_lib::seq_to_set_is_finite;

    assert forall|v: usize| (v as int) < n implies s.contains(v) by {
        if !s.contains(v) {
            let si = s.map_values(|x: usize| x as int);
            assert(si.no_duplicates()) by {
                assert forall|i: int, j: int|
                    0 <= i < si.len() && 0 <= j < si.len() && i != j implies si[i] != si[j] by {
                    assert(s[i] != s[j]);
                }
            }
            si.unique_seq_to_set();
            let small = set_int_range(0, n).remove(v as int);
            assert(si.to_set().subset_of(small)) by {
                assert forall|x: int| si.to_set().contains(x) implies small.contains(x) by {
                    let i = choose|i: int| 0 <= i < si.len() && si[i] == x;
                    assert((s[i] as int) < n);
                    assert(s[i] != v);
                }
            }
            lemma_int_range(0, n);
            lemma_len_subset(si.to_set(), small);
            assert(small.len() == n - 1);
            assert(false);
        }
    }
}

/// When every unplaced node still has an unplaced predecessor, an unplaced
/// walk of any length can be traced backwards through predecessors.
proof fn build_unplaced_walk(g: &DiGraph, placed: Seq<bool>, len: nat) -> (w: Seq<usize>)
    requires
        g.well_formed(),
        placed.len() == g.n(),
        exists|v: usize| (v as int) < g.n() && !placed[v as int],
        forall|v: usize|
            (v as int) < g.n() && !placed[v as int] ==> exists|s: int|
                0 <= s < g.preds(v as int).len() && !placed[#[trigger] g.preds(v as int)[s] as int],
    ensures
        w.len() == len + 1,
        forall|i: int|
            0 <= i < w.len() ==> (#[trigger] w[i] as int) < g.n() && !placed[w[i] as int],
        forall|i: int| 0 <= i < w.len() - 1 ==> g.has_edge(#[trigger] w[i + 1], w[i]),
    decreases len,
{
    if len == 0 {
        let v = choose|v: usize| (v as int) < g.n() && !placed[v as int];
        seq![v]
    } else {
        let w0 = build_unplaced_walk(g, placed, (len - 1) as nat);
        let last = w0[w0.len() - 1];
        let s = choose|s: int|
            0 <= s < g.preds(last as int).len() && !placed[g.preds(last as int)[s] as int];
        let u = g.preds(last as int)[s];
        assert((u as int) < g.n());
        assert(g.preds(last as int).contains(u));
        let w = w0.push(u);
        assert(g.has_edge(u, last));
        assert forall|i: int| 0 <= i < w.len() - 1 implies g.has_edge(#[trigger] w[i + 1], w[i]) by {
            if i < w0.len() - 1 {
                assert(g.has_edge(w0[i + 1], w0[i]));
            }
        }
        w
    }
}

/// If every unplaced node still has an unplaced predecessor and at least one
/// node is unplaced, the graph has a cycle.
#[verifier::rlimit(30)]
proof fn lemma_stuck_cycle(g: &DiGraph, placed: Seq<bool>)
    requires
        g.well_formed(),
        placed.len() == g.n(),
        exists|v: usize| (v as int) < g.n() && !placed[v as int],
        forall|v: usize|
            (v as int) < g.n() && !placed[v as int] ==> exists|s: int|
                0 <= s < g.preds(v as int).len() && !placed[#[trigger] g.preds(v as int)[s] as int],
    ensures
        has_cycle(g),
{
    let n = g.n();
    let w = build_unplaced_walk(g, placed, n as nat);
    lemma_nodes_dup(w, n);
    let (i, j) = choose|i: int, j: int| 0 <= i < j < w.len() && w[i] == w[j];
    let c = Seq::new((j - i) as nat, |t: int| w[j - t]);
    assert(is_cycle(g, c)) by {
        assert forall|t: int| 0 <= t < c.len() - 1 implies g.has_edge(#[trigger] c[t], c[t + 1]) by {
            assert(g.has_edge(w[(j - t - 1) + 1], w[j - t - 1]));
        }
        assert(c[c.len() - 1] == w[i + 1]);
        assert(c[0] == w[i]);
        assert(g.has_edge(w[i + 1], w[i]));
    }
}

/// Along any edge of a topological order, position strictly increases.
proof fn lemma_edge_forward(g: &DiGraph, ord: Seq<usize>, a: usize, b: usize)
    requires
        g.well_formed(),
        is_topo_order(g, ord),
        g.has_edge(a, b),
        (a as int) < g.n(),
    ensures
        ord.contains(a),
        ord.contains(b),
        ord.index_of(a) < ord.index_of(b),
        ord[ord.index_of(a)] == a,
        ord[ord.index_of(b)] == b,
{
    assert(ord.contains(a));
    assert(ord.contains(b));
    let i = ord.index_of(a);
    let j = ord.index_of(b);
    assert(ord[i] == a && 0 <= i < ord.len());
    assert(ord[j] == b && 0 <= j < ord.len());
    assert(g.has_edge(ord[i], ord[j]));
}

/// Positions in a topological order never decrease along a cycle's spine.
proof fn lemma_cycle_climb(g: &DiGraph, ord: Seq<usize>, c: Seq<usize>, t: int)
    requires
        g.well_formed(),
        is_topo_order(g, ord),
        is_cycle(g, c),
        forall|s: int| 0 <= s < c.len() ==> (#[trigger] c[s] as int) < g.n(),
        0 <= t < c.len(),
    ensures
        ord.contains(c[0]),
        ord.contains(c[t]),
        ord.index_of(c[0]) <= ord.index_of(c[t]),
    decreases t,
{
    if t == 0 {
        assert(ord.contains(c[0]));
    } else {
        lemma_cycle_climb(g, ord, c, t - 1);
        assert(g.has_edge(c[t - 1], c[t]));
        lemma_edge_forward(g, ord, c[t - 1], c[t]);
    }
}

/// No graph with a topological order has a cycle: a cycle would have to
/// climb strictly through the order and return to its start.
pub proof fn lemma_topo_order_excludes_cycle(g: &DiGraph, ord: Seq<usize>, c: Seq<usize>)
    requires
        g.well_formed(),
        is_topo_order(g, ord),
    ensures
        !is_cycle(g, c),
{
    if is_cycle(g, c) {
        let last = c.len() - 1;
        assert forall|s: int| 0 <= s < c.len() implies (#[trigger] c[s] as int) < g.n() by {
            if s == 0 {
                assert(g.has_edge(c[last], c[0]));
            } else {
                assert(g.has_edge(c[s - 1], c[s]));
            }
        }
        g.lemma_edge_source_in_range(c[last], c[0]);
        lemma_cycle_climb(g, ord, c, last);
        lemma_edge_forward(g, ord, c[last], c[0]);
    }
}

/// Every acyclic graph has a topological order: one can be grown greedily in
/// the proof, since a stuck prefix would yield a cycle.
pub proof fn lemma_acyclic_has_order(g: &DiGraph)
    requires
        g.well_formed(),
        !has_cycle(g),
    ensures
        exists|ord: Seq<usize>| #[trigger] is_topo_order(g, ord),
{
    g.lemma_n_fits();
    let ord = build_order_from(g, Seq::<usize>::empty());
    assert(is_topo_order(g, ord));
}

/// Extends a duplicate-free prefix whose every position already has its
/// predecessors behind it into a full topological order.
proof fn build_order_from(g: &DiGraph, prefix: Seq<usize>) -> (ord: Seq<usize>)
    requires
        g.well_formed(),
        !has_cycle(g),
        prefix.len() <= g.n(),
        prefix.no_duplicates(),
        forall|t: int| 0 <= t < prefix.len() ==> (#[trigger] prefix[t] as int) < g.n(),
        forall|t: int| 0 <= t < prefix.len() ==> #[trigger] preds_before(g, prefix, t),
    ensures
        is_topo_order(g, ord),
    decreases g.n() - prefix.len(),
{
    g.lemma_n_fits();
    let n = g.n();
    if prefix.len() == n {
        lemma_full_range(prefix, n);
        assert forall|i: int, j: int|
            0 <= i < prefix.len() && 0 <= j < prefix.len() && g.has_edge(
                #[trigger] prefix[i],
                #[trigger] prefix[j],
            ) implies i < j by {
            let u = prefix[i];
            assert(preds_before(g, prefix, j));
            assert(g.preds(prefix[j] as int).contains(u));
            let s = choose|s: int|
                0 <= s < g.preds(prefix[j] as int).len() && g.preds(prefix[j] as int)[s] == u;
            assert(prefix.subrange(0, j).contains(g.preds(prefix[j] as int)[s]));
            let jj = choose|jj: int|
                0 <= jj < j && prefix.subrange(0, j)[jj] == g.preds(prefix[j] as int)[s];
            assert(prefix[jj] == prefix[i]);
            if jj != i {
                assert(prefix[jj] != prefix[i]);
            }
        }
        prefix
    } else {
        let placed = Seq::new(n as nat, |w: int| prefix.contains(w as usize));
        let missing = lemma_nodes_missing(prefix, n);
        assert(!placed[missing as int]);
        if forall|w: usize|
            (w as int) < g.n() && !placed[w as int] ==> exists|s: int|
                0 <= s < g.preds(w as int).len() && !placed[#[trigger] g.preds(
                    w as int,
                )[s] as int] {
            lemma_stuck_cycle(g, placed);
            assert(false);
            prefix
        } else {
            let w = choose|w: usize|
                (w as int) < g.n() && !placed[w as int] && !(exists|s: int|
                    0 <= s < g.preds(w as int).len() && !placed[#[trigger] g.preds(
                        w as int,
                    )[s] as int]);
            assert(!prefix.contains(w));
            let next = prefix.push(w);
            assert(next.no_duplicates()) by {
                assert forall|i: int, j: int|
                    0 <= i < next.len() && 0 <= j < next.len() && i != j implies next[i]
                    != next[j] by {
                    if i < prefix.len() && j < prefix.len() {
                        assert(prefix[i] != prefix[j]);
                    } else if j == prefix.len() {
                        if next[i] == w {
                            assert(prefix.contains(w));
                        }
                    } else {
                        if next[j] == w {
                            assert(prefix.contains(w));
                        }
                    }
                }
            }
            assert forall|t: int| 0 <= t < next.len() implies #[trigger] preds_before(
                g,
                next,
                t,
            ) by {
                if t < prefix.len() {
                    assert(preds_before(g, prefix, t));
                    assert(next.subrange(0, t) =~= prefix.subrange(0, t));
                    assert(next[t] == prefix[t]);
                    assert forall|s: int|
                        0 <= s < g.preds(next[t] as int).len() implies next.subrange(0, t).contains(
                        #[trigger] g.preds(next[t] as int)[s],
                    ) by {
                        assert(prefix.subrange(0, t).contains(g.preds(prefix[t] as int)[s]));
                    }
                } else {
                    assert(next[t] == w);
                    assert(next.subrange(0, t) =~= prefix);
                    assert forall|s: int|
                        0 <= s < g.preds(next[t] as int).len() implies next.subrange(0, t).contains(
                        #[trigger] g.preds(next[t] as int)[s],
                    ) by {
                        let u = g.preds(w as int)[s];
                        assert((u as int) < g.n());
                        if !placed[u as int] {
                            assert(0 <= s < g.preds(w as int).len() && !placed[g.preds(
                                w as int,
                            )[s] as int]);
                        }
                        assert(prefix.contains(u));
                    }
                }
            }
            build_order_from(g, next)
        }
    }
}

/// The node at any position of a topological order is placeable right after
/// the positions before it.
proof fn lemma_order_placeable(g: &DiGraph, ord: Seq<usize>, t: int)
    requires
        g.well_formed(),
        is_topo_order(g, ord),
        0 <= t < ord.len(),
    ensures
        placeable(g, ord.subrange(0, t), ord[t]),
{
    let prefix = ord.subrange(0, t);
    if prefix.contains(ord[t]) {
        let j = choose|j: int| 0 <= j < prefix.len() && prefix[j] == ord[t];
        assert(ord[j] == ord[t] && j != t);
        assert(false);
    }
    assert forall|s: int| 0 <= s < g.preds(ord[t] as int).len() implies prefix.contains(
        #[trigger] g.preds(ord[t] as int)[s],
    ) by {
        let u = g.preds(ord[t] as int)[s];
        assert(g.preds(ord[t] as int).contains(u));
        assert(g.has_edge(u, ord[t]));
        assert((u as int) < g.n());
        assert(ord.contains(u));
        let j = choose|j: int| 0 <= j < ord.len() && ord[j] == u;
        assert(g.has_edge(ord[j], ord[t]));
        assert(j < t);
        assert(prefix[j] == u);
    }
}

/// Equal prefixes: two orders that both follow the smallest-eligible rule
/// agree on their first `i` positions.
proof fn lemma_topo_prefix_eq(g: &DiGraph, a: Seq<usize>, b: Seq<usize>, i: int)
    requires
        g.well_formed(),
        is_topo_order(g, a),
        is_topo_order(g, b),
        forall|t: int| 0 <= t < a.len() ==> #[trigger] min_eligible_at(g, a, t),
        forall|t: int| 0 <= t < b.len() ==> #[trigger] min_eligible_at(g, b, t),
        0 <= i <= a.len(),
    ensures
        a.subrange(0, i) == b.subrange(0, i),
    decreases i,
{
    if i == 0 {
        assert(a.subrange(0, 0) =~= b.subrange(0, 0));
    } else {
        lemma_topo_prefix_eq(g, a, b, i - 1);
        let prefix = a.subrange(0, i - 1);
        assert(b.subrange(0, i - 1) == prefix);
        lemma_order_placeable(g, a, i - 1);
        lemma_order_placeable(g, b, i - 1);
        assert(min_eligible_at(g, a, i - 1));
        assert(min_eligible_at(g, b, i - 1));
        assert(placeable(g, prefix, b[i - 1]));
        assert(placeable(g, prefix, a[i - 1]));
        assert(!(b[i - 1] < a[i - 1]));
        assert(!(a[i - 1] < b[i - 1]));
        assert(a[i - 1] == b[i - 1]);
        assert(a.subrange(0, i) =~= prefix.push(a[i - 1]));
        assert(b.subrange(0, i) =~= b.subrange(0, i - 1).push(b[i - 1]));
    }
}

/// The smallest-eligible tie-breaking makes the order deterministic: a graph
/// has at most one topological order that follows it, so the sorter's output
/// is reproducible for a given graph.
pub proof fn lemma_topo_order_unique(g: &DiGraph, a: Seq<usize>, b: Seq<usize>)
    requires
        g.well_formed(),
        is_topo_order(g, a),
        is_topo_order(g, b),
        forall|t: int| 0 <= t < a.len() ==> #[trigger] min_eligible_at(g, a, t),
        forall|t: int| 0 <= t < b.len() ==> #[trigger] min_eligible_at(g, b, t),
    ensures
        a == b,
{
    lemma_topo_prefix_eq(g, a, b, a.len() as int);
    assert(a.subrange(0, a.len() as int) =~= a);
    assert(b.subrange(0, b.len() as int) =~= b);
}

/// Whether every predecessor of `v` is already placed.
fn all_preds_placed(g: &DiGraph, placed: &Vec<bool>, v: usize) -> (r: bool)
    requires
        g.well_formed(),
        (v as int) < g.n(),
        placed@.len() == g.n(),
    ensures
        r == (forall|s: int|
            0 <= s < g.preds(v as int).len() ==> placed@[#[trigger] g.preds(v as int)[s] as int]),
{
    let preds = g.pred_list(v);
    let m = preds.len();
    let mut s: usize = 0;
    while s < m
        invariant
            g.well_formed(),
            (v as int) < g.n(),
            placed@.len() == g.n(),
            preds@ == g.preds(v as int),
            m == preds@.len(),
            s <= m,
            forall|t: int| 0 <= t < s ==> placed@[#[trigger] g.preds(v as int)[t] as int],
        decreases m - s,
    {
        let u = preds[s];
        assert((u as int) < g.n());
        if !placed[u] {
            return false;
        }
        s += 1;
    }
    true
}

/// Produces the topological order of the graph — every node once, every edge
/// pointing forwards, ties broken by ascending node index — or `None` exactly
/// when the graph contains a cycle.
pub fn topological_sort(g: &DiGraph) -> (r: Option<Vec<usize>>)
    requires
        g.well_formed(),
    ensures
        match r {
            Some(ord) => {
                &&& is_topo_order(g, ord@)
                &&& !has_cycle(g)
                &&& forall|i: int| 0 <= i < ord@.len() ==> #[trigger] min_eligible_at(g, ord@, i)
            },
            None => has_cycle(g),
        },
{
    let n = g.node_count();
    let mut placed: Vec<bool> = crate::filled(n, false);
    let mut order: Vec<usize> = Vec::new();
    while order.len() < n
        invariant
            g.well_formed(),
            n as int == g.n(),
            placed@.len() == n as int,
            order@.len() <= n as int,
            forall|v: usize|
                (v as int) < n as int ==> (placed@[v as int] <==> #[trigger] order@.contains(v)),
            order@.no_duplicates(),
            forall|t: int| 0 <= t < order@.len() ==> (#[trigger] order@[t] as int) < n as int,
            forall|t: int| 0 <= t < order@.len() ==> #[trigger] preds_before(g, order@, t),
            forall|t: int| 0 <= t < order@.len() ==> #[trigger] min_eligible_at(g, order@, t),
        decreases n as int - order@.len(),
    {
        let mut found: Option<usize> = None;
        let mut v: usize = 0;
        while v < n && found.is_none()
            invariant
                g.well_formed(),
                n as int == g.n(),
                placed@.len() == n as int,
                v <= n,
                match found {
                    Some(f) => (f as int) < n as int && eligible(g, placed@, f) && (forall|
                        w: usize,
                    |
                        w < f ==> !eligible(g, placed@, w)),
                    None => forall|w: usize| w < v ==> !eligible(g, placed@, w),
                },
            decreases n - v + (if found is None { 1int } else { 0int }),
        {
            if !placed[v] {
                if all_preds_placed(g, &placed, v) {
                    found = Some(v);
                } else {
                    v += 1;
                }
            } else {
                v += 1;
            }
        }
        match found {
            Some(f) => {
                let ghost old_placed = placed@;
                let ghost old_order = order@;
                placed[f] = true;
                order.push(f);
                proof {
                    assert(!old_order.contains(f));
                    assert forall|w: usize| (w as int) < n as int implies (placed@[w as int]
                        <==> #[trigger] order@.contains(w)) by {
                        lemma_push_contains(old_order, f, w);
                    }
                    assert(order@.no_duplicates()) by {
                        assert forall|i: int, j: int|
                            0 <= i < order@.len() && 0 <= j < order@.len() && i
                                != j implies order@[i] != order@[j] by {
                            if i < old_order.len() && j < old_order.len() {
                                assert(old_order[i] != old_order[j]);
                            } else if j == old_order.len() {
                                if order@[i] == f {
                                    assert(old_order.contains(f));
                                }
                            } else {
                                if order@[j] == f {
                                    assert(old_order.contains(f));
                                }
                            }
                        }
                    }
                    assert forall|t: int| 0 <= t < order@.len() implies #[trigger] min_eligible_at(
                        g,
                        order@,
                        t,
                    ) by {
                        if t < old_order.len() {
                            assert(order@.subrange(0, t) =~= old_order.subrange(0, t));
                            assert(order@[t] == old_order[t]);
                            assert(min_eligible_at(g, old_order, t));
                            assert forall|w: usize| w < order@[t] implies !placeable(
                                g,
                                order@.subrange(0, t),
                                w,
                            ) by {
                                assert(!placeable(g, old_order.subrange(0, t), w));
                            }
                        } else {
                            assert(order@.subrange(0, t) =~= old_order);
                            assert forall|w: usize| w < order@[t] implies !placeable(
                                g,
                                order@.subrange(0, t),
                                w,
                            ) by {
                                assert(!eligible(g, old_placed, w));
                                if placeable(g, old_order, w) {
                                    assert(!old_order.contains(w));
                                    assert(!old_placed[w as int]);
                                    assert forall|s: int|
                                        0 <= s < g.preds(w as int).len() implies old_placed[
                                    #[trigger] g.preds(w as int)[s] as int] by {
                                        assert(old_order.contains(g.preds(w as int)[s]));
                                        assert((g.preds(w as int)[s] as int) < n as int);
                                    }
                                    assert(eligible(g, old_placed, w));
                                }
                            }
                        }
                    }
                    assert forall|t: int| 0 <= t < order@.len() implies #[trigger] preds_before(
                        g,
                        order@,
                        t,
                    ) by {
                        if t < old_order.len() {
                            assert(preds_before(g, old_order, t));
                            assert(order@.subrange(0, t) =~= old_order.subrange(0, t));
                            assert(order@[t] == old_order[t]);
                            assert forall|s: int|
                                0 <= s < g.preds(order@[t] as int).len() implies order@.subrange(
                                0,
                                t,
                            ).contains(#[trigger] g.preds(order@[t] as int)[s]) by {
                                assert(old_order.subrange(0, t).contains(
                                    g.preds(old_order[t] as int)[s],
                                ));
                            }
                        } else {
                            assert(order@[t] == f);
                            assert(order@.subrange(0, t) =~= old_order);
                            assert forall|s: int|
                                0 <= s < g.preds(order@[t] as int).len() implies order@.subrange(
                                0,
                                t,
                            ).contains(#[trigger] g.preds(order@[t] as int)[s]) by {
                                let u = g.preds(f as int)[s];
                                assert(old_placed[u as int]);
                                assert(old_order.contains(u));
                            }
                        }
                    }
                }
            },
            None => {
                proof {
                    let missing = lemma_nodes_missing(order@, n as int);
                    assert(!placed@[missing as int]);
                    assert forall|w: usize|
                        (w as int) < g.n() && !placed@[w as int] implies exists|s: int|
                        0 <= s < g.preds(w as int).len() && !placed@[#[trigger] g.preds(
                            w as int,
                        )[s] as int] by {
                        assert(!eligible(g, placed@, w));
                    }
                    lemma_stuck_cycle(g, placed@);
                }
                return None;
            },
        }
    }
    proof {
        lemma_full_range(order@, n as int);
        assert forall|i: int, j: int|
            0 <= i < order@.len() && 0 <= j < order@.len() && g.has_edge(
                #[trigger] order@[i],
                #[trigger] order@[j],
            ) implies i < j by {
            let u = order@[i];
            assert(preds_before(g, order@, j));
            assert(g.preds(order@[j] as int).contains(u));
            let s = choose|s: int|
                0 <= s < g.preds(order@[j] as int).len() && g.preds(order@[j] as int)[s] == u;
            assert(order@.subrange(0, j).contains(g.preds(order@[j] as int)[s]));
            let jj = choose|jj: int|
                0 <= jj < j && order@.subrange(0, j)[jj] == g.preds(order@[j] as int)[s];
            assert(order@[jj] == order@[i]);
            if jj != i {
                assert(order@[jj] != order@[i]);
            }
        }
        assert(is_topo_order(g, order@));
        if has_cycle(g) {
            let c = choose|c: Seq<usize>| is_cycle(g, c);
            lemma_topo_order_excludes_cycle(g, order@, c);
        }
    }
    Some(order)
}

} // verus!
