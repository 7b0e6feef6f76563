//! K longest critical paths in a dependency DAG: longest-path distances by
//! dynamic programming over a topological order, then the top `k` nodes by
//! distance (ties by ascending index), each with one reconstructed path.

use crate::graph::DiGraph;
use crate::ranking::{lemma_ranked_ensures, ranked, sort_pairs};
use crate::topo::{has_cycle, is_cycle, is_topo_order, topological_sort};
use vstd::prelude::*;

verus! {

/// A single critical path through the graph.
#[derive(Debug, Clone)]
pub struct CriticalPath {
    /// Node indices in path order (source to sink)
    pub nodes: Vec<usize>,
    /// Length of the path (number of nodes)
    pub length: usize,
}

/// Result of the k critical paths computation.
#[derive(Debug, Clone)]
pub struct KPathsResult {
    /// The k longest paths found
    pub paths: Vec<CriticalPath>,
    /// Total number of nodes in the graph
    pub total_nodes: usize,
    /// Maximum path length found
    pub max_length: usize,
}

/// The distance rule at node `v`: 0 at a node without predecessors, and one
/// more than the largest predecessor distance (attained) otherwise.
pub open spec fn dist_ok_at(g: &DiGraph, dist: Seq<usize>, v: int) -> bool {
    if g.preds(v).len() == 0 {
        dist[v] == 0
    } else {
        &&& forall|s: int|
            0 <= s < g.preds(v).len() ==> dist[#[trigger] g.preds(v)[s] as int] + 1 <= dist[v]
        &&& exists|s: int|
            0 <= s < g.preds(v).len() && dist[v] == dist[#[trigger] g.preds(v)[s] as int] + 1
    }
}

/// `dist[v]` is the length in edges of the longest path ending at `v`; on an
/// acyclic graph this characterisation has exactly one solution.
pub open spec fn is_dag_dist(g: &DiGraph, dist: Seq<usize>) -> bool {
    &&& dist.len() == g.n()
    &&& forall|v: int| 0 <= v < g.n() ==> #[trigger] dist_ok_at(g, dist, v)
}

/// The candidate list `(node, dist[node])` in ascending node order.
pub open spec fn cand_seq(dist: Seq<usize>) -> Seq<(usize, usize)> {
    Seq::new(dist.len(), |v: int| (v as usize, dist[v]))
}

/// Candidates that survive the zero-distance filter.
pub open spec fn keep_positive() -> spec_fn((usize, usize)) -> bool {
    |c: (usize, usize)| c.1 > 0
}

/// `t` is the least predecessor-list index of `w` whose distance attains
/// `dist[w]`: every earlier entry falls short.
pub open spec fn is_first_best_at(g: &DiGraph, dist: Seq<usize>, w: usize, t: int) -> bool {
    &&& 0 <= t < g.preds(w as int).len()
    &&& dist[g.preds(w as int)[t] as int] + 1 == dist[w as int]
    &&& forall|q: int|
        0 <= q < t ==> dist[#[trigger] g.preds(w as int)[q] as int] + 1 != dist[w as int]
}

/// `u` is the predecessor the reconstruction steps to from `w`: the entry at
/// the least predecessor-list index attaining `dist[w]`, the one a
/// strict-improvement scan over the predecessor list settles on.
pub open spec fn is_chosen_pred(g: &DiGraph, dist: Seq<usize>, w: usize, u: usize) -> bool {
    exists|t: int| #[trigger] is_first_best_at(g, dist, w, t) && g.preds(w as int)[t] == u
}

/// Only one predecessor of `w` sits at the least attaining index, so the
/// reconstructed step out of `w` is unique.
pub proof fn lemma_chosen_pred_unique(
    g: &DiGraph,
    dist: Seq<usize>,
    w: usize,
    u1: usize,
    u2: usize,
)
    requires
        is_chosen_pred(g, dist, w, u1),
        is_chosen_pred(g, dist, w, u2),
    ensures
        u1 == u2,
{
    let t1 = choose|t: int| #[trigger] is_first_best_at(g, dist, w, t) && g.preds(w as int)[t]
        == u1;
    let t2 = choose|t: int| #[trigger] is_first_best_at(g, dist, w, t) && g.preds(w as int)[t]
        == u2;
    if t1 < t2 {
        assert(dist[g.preds(w as int)[t1] as int] + 1 != dist[w as int]);
    } else if t2 < t1 {
        assert(dist[g.preds(w as int)[t2] as int] + 1 != dist[w as int]);
    }
}

/// `p` is the longest path the reconstruction yields for `sink`: it starts
/// at distance 0, each step follows a real edge, raises the distance by one,
/// and steps through the chosen (first-maximal) predecessor chain, ending at
/// `sink`.
pub open spec fn path_to(g: &DiGraph, dist: Seq<usize>, sink: usize, p: Seq<usize>) -> bool {
    &&& p.len() == dist[sink as int] + 1
    &&& p[p.len() - 1] == sink
    &&& forall|i: int|
        0 <= i < p.len() ==> (#[trigger] p[i] as int) < g.n() && dist[p[i] as int] == i
    &&& forall|i: int| 0 <= i < p.len() - 1 ==> g.has_edge(#[trigger] p[i], p[i + 1])
    &&& forall|i: int| 0 <= i < p.len() - 1 ==> is_chosen_pred(g, dist, #[trigger] p[i + 1], p[i])
}

/// Two paths that `path_to` accepts for the same sink are equal: the chosen
/// predecessor chain leaves no freedom.
pub proof fn lemma_path_to_unique(
    g: &DiGraph,
    dist: Seq<usize>,
    sink: usize,
    p1: Seq<usize>,
    p2: Seq<usize>,
)
    requires
        path_to(g, dist, sink, p1),
        path_to(g, dist, sink, p2),
    ensures
        p1 == p2,
{
    assert forall|i: int| 0 <= i < p1.len() implies p1[i] == p2[i] by {
        lemma_path_to_eq_at(g, dist, sink, p1, p2, i);
    }
    assert(p1 =~= p2);
}

/// The two paths agree at position `i` (backwards from the shared sink).
proof fn lemma_path_to_eq_at(
    g: &DiGraph,
    dist: Seq<usize>,
    sink: usize,
    p1: Seq<usize>,
    p2: Seq<usize>,
    i: int,
)
    requires
        path_to(g, dist, sink, p1),
        path_to(g, dist, sink, p2),
        0 <= i < p1.len(),
    ensures
        p1[i] == p2[i],
    decreases p1.len() - i,
{
    if i < p1.len() - 1 {
        lemma_path_to_eq_at(g, dist, sink, p1, p2, i + 1);
        assert(is_chosen_pred(g, dist, p1[i + 1], p1[i]));
        assert(is_chosen_pred(g, dist, p2[i + 1], p2[i]));
        lemma_chosen_pred_unique(g, dist, p1[i + 1], p1[i], p2[i]);
    }
}

/// What the result holds on an acyclic graph, given the distance table: the
/// candidates are ranked (distance descending, ties by ascending index),
/// truncated to `k` and only then filtered to positive distance; each kept
/// candidate yields one reconstructed longest path.
pub open spec fn k_paths_from(g: &DiGraph, dist: Seq<usize>, k: usize, r: KPathsResult) -> bool {
    let sorted = ranked(cand_seq(dist));
    let top = sorted.take(
        if k as int <= g.n() {
            k as int
        } else {
            g.n()
        },
    );
    let kept = top.filter(keep_positive());
    &&& r.max_length as int == (if g.n() == 0 || k == 0 {
        0int
    } else {
        sorted[0].1 + 1
    })
    &&& r.paths@.len() == kept.len()
    &&& forall|j: int|
        0 <= j < kept.len() ==> {
            &&& (#[trigger] r.paths@[j]).length as int == kept[j].1 + 1
            &&& r.paths@[j].nodes@.len() == r.paths@[j].length as int
            &&& path_to(g, dist, kept[j].0, r.paths@[j].nodes@)
        }
}

/// The full contract of `k_critical_paths`: the node count always comes
/// back; a cyclic graph yields the defined empty result; an acyclic graph
/// yields the ranked, truncated, filtered longest paths.
pub open spec fn k_paths_post(g: &DiGraph, k: usize, r: KPathsResult) -> bool {
    &&& r.total_nodes as int == g.n()
    &&& has_cycle(g) ==> r.paths@.len() == 0 && r.max_length == 0
    &&& !has_cycle(g) ==> exists|dist: Seq<usize>|
        #[trigger] is_dag_dist(g, dist) && k_paths_from(g, dist, k, r)
}

/// Two results agree field for field: same node count, same maximal length,
/// and the same paths (node sequences and lengths alike).
pub open spec fn k_results_agree(r1: KPathsResult, r2: KPathsResult) -> bool {
    &&& r1.total_nodes == r2.total_nodes
    &&& r1.max_length == r2.max_length
    &&& r1.paths@.len() == r2.paths@.len()
    &&& forall|j: int|
        0 <= j < r1.paths@.len() ==> (#[trigger] r1.paths@[j]).nodes@ == r2.paths@[j].nodes@
            && r1.paths@[j].length == r2.paths@[j].length
}

/// The analysis is deterministic: any two results that meet `k_paths_post`
/// for the same graph and the same `k` agree field for field. In particular,
/// two calls of `k_critical_paths` on structurally equal inputs return
/// structurally equal results, `k_critical_paths_default` returns exactly
/// what `k_critical_paths` returns for a `k` of 5, and `k_path_nodes`
/// returns exactly its node sequences.
pub proof fn lemma_k_paths_deterministic(
    g: &DiGraph,
    k: usize,
    r1: KPathsResult,
    r2: KPathsResult,
)
    requires
        g.well_formed(),
        k_paths_post(g, k, r1),
        k_paths_post(g, k, r2),
    ensures
        k_results_agree(r1, r2),
{
    if !has_cycle(g) {
        crate::topo::lemma_acyclic_has_order(g);
        let ord = choose|ord: Seq<usize>| #[trigger] is_topo_order(g, ord);
        let d1 = choose|dist: Seq<usize>|
            #[trigger] is_dag_dist(g, dist) && k_paths_from(g, dist, k, r1);
        let d2 = choose|dist: Seq<usize>|
            #[trigger] is_dag_dist(g, dist) && k_paths_from(g, dist, k, r2);
        lemma_dag_dist_unique(g, ord, d1, d2);
        assert(k_paths_from(g, d1, k, r2));
        let top = ranked(cand_seq(d1)).take(
            if k as int <= g.n() {
                k as int
            } else {
                g.n()
            },
        );
        let kept = top.filter(keep_positive());
        assert forall|j: int| 0 <= j < r1.paths@.len() implies (#[trigger] r1.paths@[j]).nodes@
            == r2.paths@[j].nodes@ && r1.paths@[j].length == r2.paths@[j].length by {
            assert(path_to(g, d1, kept[j].0, r1.paths@[j].nodes@));
            assert(path_to(g, d1, kept[j].0, r2.paths@[j].nodes@));
            lemma_path_to_unique(g, d1, kept[j].0, r1.paths@[j].nodes@, r2.paths@[j].nodes@);
        }
    }
}

/// The distance characterisation admits only one solution on a graph with a
/// topological order, so the distance table spoken of by `k_paths_post` is
/// the same whatever solution is picked.
pub proof fn lemma_dag_dist_unique(g: &DiGraph, ord: Seq<usize>, d1: Seq<usize>, d2: Seq<usize>)
    requires
        g.well_formed(),
        is_topo_order(g, ord),
        is_dag_dist(g, d1),
        is_dag_dist(g, d2),
    ensures
        d1 == d2,
{
    g.lemma_n_fits();
    assert forall|t: int| 0 <= t < ord.len() implies #[trigger] d1[ord[t] as int] == d2[
        ord[t] as int
    ] by {
        lemma_dag_dist_unique_at(g, ord, d1, d2, t);
    }
    assert forall|v: int| 0 <= v < d1.len() implies d1[v] == d2[v] by {
        let vu = v as usize;
        assert(ord.contains(vu));
        let t = choose|t: int| 0 <= t < ord.len() && ord[t] == vu;
        assert(d1[ord[t] as int] == d2[ord[t] as int]);
    }
    assert(d1 =~= d2);
}

/// Both solutions agree at position `t` of the topological order.
proof fn lemma_dag_dist_unique_at(g: &DiGraph, ord: Seq<usize>, d1: Seq<usize>, d2: Seq<usize>, t: int)
    requires
        g.well_formed(),
        is_topo_order(g, ord),
        is_dag_dist(g, d1),
        is_dag_dist(g, d2),
        0 <= t < ord.len(),
    ensures
        d1[ord[t] as int] == d2[ord[t] as int],
    decreases t,
{
    let v = ord[t];
    assert(dist_ok_at(g, d1, v as int));
    assert(dist_ok_at(g, d2, v as int));
    if g.preds(v as int).len() > 0 {
        // every predecessor sits earlier in the order, where both agree
        assert forall|s: int| 0 <= s < g.preds(v as int).len() implies d1[#[trigger] g.preds(
            v as int,
        )[s] as int] == d2[g.preds(v as int)[s] as int] by {
            let u = g.preds(v as int)[s];
            assert(g.preds(v as int).contains(u));
            assert(g.has_edge(u, v));
            assert((u as int) < g.n());
            assert(ord.contains(u));
            let j = choose|j: int| 0 <= j < ord.len() && ord[j] == u;
            assert(g.has_edge(ord[j], ord[t]));
            assert(j < t);
            lemma_dag_dist_unique_at(g, ord, d1, d2, j);
        }
        let s1 = choose|s: int|
            0 <= s < g.preds(v as int).len() && d1[v as int] == d1[g.preds(v as int)[s] as int]
                + 1;
        let s2 = choose|s: int|
            0 <= s < g.preds(v as int).len() && d2[v as int] == d2[g.preds(v as int)[s] as int]
                + 1;
        assert(d1[v as int] >= d1[g.preds(v as int)[s2] as int] + 1);
        assert(d2[v as int] >= d2[g.preds(v as int)[s1] as int] + 1);
    }
}

/// The chosen predecessor pointer of `w` names a real predecessor one
/// distance step below, or is absent exactly at distance 0.
spec fn pp_ok(g: &DiGraph, dist: Seq<usize>, pp: Seq<Option<usize>>, w: int) -> bool {
    match pp[w] {
        Some(u) => (u as int) < g.n() && g.preds(w).contains(u) && dist[u as int] + 1 == dist[w],
        None => dist[w] == 0,
    }
}

/// The chosen predecessor pointer of `w`, if any, was already processed.
spec fn pp_src_before(ord: Seq<usize>, bound: int, pp: Seq<Option<usize>>, w: int) -> bool {
    match pp[w] {
        Some(u) => ord.subrange(0, bound).contains(u),
        None => true,
    }
}

/// The predecessor pointer of `w`, if any, follows the first-maximal rule.
spec fn pp_chosen(g: &DiGraph, dist: Seq<usize>, pp: Seq<Option<usize>>, w: int) -> bool {
    match pp[w] {
        Some(u) => is_chosen_pred(g, dist, w as usize, u),
        None => true,
    }
}

/// Find the k longest paths in a DAG: distances by DP over the topological
/// order, candidates ranked by distance descending (ties by ascending node
/// index), truncated to `k` before the zero-distance filter, one path
/// reconstructed per kept candidate through the first-maximal predecessor
/// chain. On a cyclic graph the result is the defined empty value, not an
/// error. The contract pins the whole result: see
/// `lemma_k_paths_deterministic`.
#[verifier::rlimit(60)]
pub fn k_critical_paths(g: &DiGraph, k: usize) -> (r: KPathsResult)
    requires
        g.well_formed(),
    ensures
        k_paths_post(g, k, r),
{
    broadcast use vstd::seq_lib::group_seq_properties;

    let n = g.node_count();
    if n == 0 {
        let r = KPathsResult { paths: Vec::new(), total_nodes: 0, max_length: 0 };
        proof {
            assert(!has_cycle(g)) by {
                if has_cycle(g) {
                    let c = choose|c: Seq<usize>| is_cycle(g, c);
                    assert(g.has_edge(c[c.len() - 1], c[0]));
                }
            }
            let dist = Seq::<usize>::empty();
            assert(is_dag_dist(g, dist));
            lemma_ranked_ensures(cand_seq(dist));
            let sorted = ranked(cand_seq(dist));
            assert(sorted.take(0) =~= Seq::<(usize, usize)>::empty());
            assert(Seq::<(usize, usize)>::empty().filter(keep_positive()).len() == 0);
            assert(k_paths_from(g, dist, k, r));
        }
        return r;
    }
    let order = match topological_sort(g) {
        Some(o) => o,
        None => {
            return KPathsResult { paths: Vec::new(), total_nodes: n, max_length: 0 };
        },
    };
    // longest-path DP over the topological order
    let mut dist: Vec<usize> = crate::filled(n, 0);
    let mut pred_ptr: Vec<Option<usize>> = crate::filled(n, None);
    let mut idx: usize = 0;
    while idx < n
        invariant
            g.well_formed(),
            n as int == g.n(),
            is_topo_order(g, order@),
            order@.len() == n as int,
            idx <= n,
            dist@.len() == n as int,
            pred_ptr@.len() == n as int,
            forall|j: int| 0 <= j < idx ==> dist@[#[trigger] order@[j] as int] <= j,
            forall|j: int| 0 <= j < idx ==> dist_ok_at(g, dist@, #[trigger] order@[j] as int),
            forall|j: int|
                idx <= j < n ==> dist@[#[trigger] order@[j] as int] == 0 && pred_ptr@[order@[j] as int] is None,
            forall|w: int| 0 <= w < n ==> #[trigger] pp_ok(g, dist@, pred_ptr@, w),
            forall|w: int| 0 <= w < n ==> #[trigger] pp_chosen(g, dist@, pred_ptr@, w),
            forall|w: int|
                0 <= w < n ==> #[trigger] pp_src_before(order@, idx as int, pred_ptr@, w),
        decreases n - idx,
    {
        let v = order[idx];
        let ghost dist_in = dist@;
        let ghost pp_in = pred_ptr@;
        proof {
            assert(!has_cycle(g)) by {
                if has_cycle(g) {
                    let c = choose|c: Seq<usize>| is_cycle(g, c);
                    crate::topo::lemma_topo_order_excludes_cycle(g, order@, c);
                }
            }
            assert forall|t: int| 0 <= t < g.preds(v as int).len() implies #[trigger] g.preds(
                v as int,
            )[t] != v by {
                if g.preds(v as int)[t] == v {
                    assert(g.preds(v as int).contains(v));
                    assert(g.has_edge(v, v));
                    assert(is_cycle(g, seq![v]));
                }
            }
        }
        let preds = g.pred_list(v);
        let m = preds.len();
        let mut s: usize = 0;
        while s < m
            invariant
                g.well_formed(),
                n as int == g.n(),
                is_topo_order(g, order@),
                order@.len() == n as int,
                idx < n,
                v == order@[idx as int],
                (v as int) < n as int,
                preds@ == g.preds(v as int),
                m == preds@.len(),
                s <= m,
                dist@.len() == n as int,
                pred_ptr@.len() == n as int,
                forall|t: int| 0 <= t < m ==> #[trigger] preds@[t] != v,
                forall|w: int|
                    0 <= w < n && w != v as int ==> dist@[w] == dist_in[w] && pred_ptr@[w]
                        == pp_in[w],
                forall|j: int| 0 <= j < idx ==> dist_in[#[trigger] order@[j] as int] <= j,
                forall|j: int| 0 <= j < idx ==> dist_ok_at(g, dist_in, #[trigger] order@[j] as int),
                forall|j: int|
                    idx <= j < n ==> dist_in[#[trigger] order@[j] as int] == 0 && pp_in[order@[j] as int] is None,
                forall|w: int| 0 <= w < n ==> #[trigger] pp_ok(g, dist_in, pp_in, w),
                forall|w: int| 0 <= w < n ==> #[trigger] pp_chosen(g, dist_in, pp_in, w),
                forall|w: int|
                    0 <= w < n ==> #[trigger] pp_src_before(order@, idx as int, pp_in, w),
                dist@[v as int] <= idx,
                forall|t: int|
                    0 <= t < s ==> dist@[#[trigger] preds@[t] as int] + 1 <= dist@[v as int],
                pp_ok(g, dist@, pred_ptr@, v as int),
                pp_src_before(order@, idx as int, pred_ptr@, v as int),
                match pred_ptr@[v as int] {
                    Some(u) => exists|t: int|
                        0 <= t < s && #[trigger] preds@[t] == u && dist@[preds@[t] as int] + 1
                            == dist@[v as int] && (forall|q: int|
                            0 <= q < t ==> dist@[#[trigger] preds@[q] as int] + 1 < dist@[
                                v as int
                            ]),
                    None => true,
                },
            decreases m - s,
        {
            let u = preds[s];
            proof {
                assert(g.preds(v as int).contains(u));
                assert((u as int) < g.n());
                assert(g.has_edge(u, v));
                assert(order@.contains(u));
                let ju = choose|j: int| 0 <= j < order@.len() && order@[j] == u;
                assert(g.has_edge(order@[ju], order@[idx as int]));
                assert(ju < idx);
                assert(dist@[u as int] == dist_in[u as int]);
                assert(dist@[u as int] <= ju);
                assert(order@.subrange(0, idx as int)[ju] == u);
                assert(order@.subrange(0, idx as int).contains(u));
            }
            let du = dist[u];
            let ghost dv_old = dist@[v as int];
            if du + 1 > dist[v] {
                dist[v] = du + 1;
                pred_ptr[v] = Some(u);
                proof {
                    // the scan settles on its first strict improvement
                    assert(preds@[s as int] == u);
                    assert(dist@[preds@[s as int] as int] + 1 == dist@[v as int]);
                    assert forall|q: int| 0 <= q < s implies dist@[#[trigger] preds@[q] as int]
                        + 1 < dist@[v as int] by {
                        assert(preds@[q] != v);
                        assert(dist@[preds@[q] as int] + 1 <= dv_old);
                    }
                    assert((s as int) < s + 1 && preds@[s as int] == u && dist@[preds@[
                        s as int
                    ] as int] + 1 == dist@[v as int] && (forall|q: int|
                        0 <= q < s as int ==> dist@[#[trigger] preds@[q] as int] + 1 < dist@[
                            v as int
                        ]));
                }
            }
            proof {
                assert forall|t: int|
                    0 <= t < s + 1 implies dist@[#[trigger] preds@[t] as int] + 1
                    <= dist@[v as int] by {
                    assert(preds@[t] != v);
                }
            }
            s += 1;
        }
        proof {
            // the processed prefix only mentions distances that did not change
            assert forall|j: int| 0 <= j < idx + 1 implies dist_ok_at(
                g,
                dist@,
                #[trigger] order@[j] as int,
            ) by {
                if j < idx {
                    let w = order@[j];
                    assert(w != v);
                    assert forall|t: int| 0 <= t < g.preds(w as int).len() implies #[trigger] g.preds(
                        w as int,
                    )[t] != v by {
                        if g.preds(w as int)[t] == v {
                            assert(g.preds(w as int).contains(v));
                            assert(g.has_edge(v, w));
                            assert(g.has_edge(order@[idx as int], order@[j]));
                        }
                    }
                    assert(dist_ok_at(g, dist_in, w as int));
                    if g.preds(w as int).len() > 0 {
                        let t0 = choose|t: int|
                            0 <= t < g.preds(w as int).len() && dist_in[w as int] == dist_in[
                                g.preds(w as int)[t] as int
                            ] + 1;
                        assert(dist@[g.preds(w as int)[t0] as int] == dist_in[g.preds(
                            w as int,
                        )[t0] as int]);
                        assert(dist@[w as int] == dist@[g.preds(w as int)[t0] as int] + 1);
                    }
                } else {
                    // the node just processed
                    if g.preds(v as int).len() == 0 {
                        assert(dist@[v as int] == dist_in[v as int]);
                    } else {
                        assert(dist@[g.preds(v as int)[0] as int] + 1 <= dist@[v as int]);
                        assert(dist@[v as int] > 0);
                        assert(pp_ok(g, dist@, pred_ptr@, v as int));
                        let u = pred_ptr@[v as int]->Some_0;
                        assert(g.preds(v as int).contains(u));
                        let t0 = choose|t: int|
                            0 <= t < g.preds(v as int).len() && g.preds(v as int)[t] == u;
                        assert(dist@[v as int] == dist@[g.preds(v as int)[t0] as int] + 1);
                    }
                }
            }
            assert forall|w: int| 0 <= w < n implies #[trigger] pp_ok(g, dist@, pred_ptr@, w) by {
                if w != v as int {
                    assert(pp_ok(g, dist_in, pp_in, w));
                    match pp_in[w] {
                        Some(u) => {
                            assert(pp_src_before(order@, idx as int, pp_in, w));
                            let ju = choose|j: int|
                                0 <= j < idx && order@.subrange(0, idx as int)[j] == u;
                            assert(order@[ju] == u);
                            assert(u != v);
                        },
                        None => {},
                    }
                }
            }
            assert forall|w: int| 0 <= w < n implies #[trigger] pp_chosen(
                g,
                dist@,
                pred_ptr@,
                w,
            ) by {
                if w == v as int {
                    match pred_ptr@[v as int] {
                        Some(u) => {
                            let t = choose|t: int|
                                0 <= t < m && #[trigger] preds@[t] == u && dist@[preds@[t] as int]
                                    + 1 == dist@[v as int] && (forall|q: int|
                                    0 <= q < t ==> dist@[#[trigger] preds@[q] as int] + 1 < dist@[
                                        v as int
                                    ]);
                            assert(is_first_best_at(g, dist@, v, t));
                            assert(g.preds(v as int)[t] == u);
                        },
                        None => {},
                    }
                } else {
                    assert(pp_chosen(g, dist_in, pp_in, w));
                    match pp_in[w] {
                        Some(u) => {
                            let wu = w as usize;
                            assert(order@.contains(wu));
                            let j = choose|j: int| 0 <= j < order@.len() && order@[j] == wu;
                            if j >= idx {
                                assert(pp_in[order@[j] as int] is None);
                            }
                            assert forall|t: int|
                                0 <= t < g.preds(w).len() implies #[trigger] g.preds(w)[t]
                                != v by {
                                if g.preds(w)[t] == v {
                                    assert(g.preds(w).contains(v));
                                    assert(g.has_edge(v, wu));
                                    assert(g.has_edge(order@[idx as int], order@[j]));
                                }
                            }
                            let t = choose|t: int|
                                #[trigger] is_first_best_at(g, dist_in, wu, t) && g.preds(w)[t]
                                    == u;
                            assert(is_first_best_at(g, dist@, wu, t)) by {
                                assert(dist@[w] == dist_in[w]);
                                assert(dist@[g.preds(w)[t] as int] == dist_in[g.preds(
                                    w,
                                )[t] as int]);
                                assert forall|q: int|
                                    0 <= q < t implies dist@[#[trigger] g.preds(w)[q] as int] + 1
                                    != dist@[w] by {
                                    assert(g.preds(w)[q] != v);
                                    assert(dist@[g.preds(w)[q] as int] == dist_in[g.preds(
                                        w,
                                    )[q] as int]);
                                    assert(dist_in[g.preds(w)[q] as int] + 1 != dist_in[w]);
                                }
                            }
                            assert(is_chosen_pred(g, dist@, wu, u));
                        },
                        None => {},
                    }
                }
            }
            assert forall|w: int| 0 <= w < n implies #[trigger] pp_src_before(
                order@,
                idx as int + 1,
                pred_ptr@,
                w,
            ) by {
                let bigger = order@.subrange(0, idx as int + 1);
                assert forall|x: usize|
                    order@.subrange(0, idx as int).contains(x) implies bigger.contains(x) by {
                    let j = choose|j: int|
                        0 <= j < idx && order@.subrange(0, idx as int)[j] == x;
                    assert(bigger[j] == x);
                }
                if w != v as int {
                    assert(pp_src_before(order@, idx as int, pp_in, w));
                } else {
                    match pred_ptr@[w] {
                        Some(u) => {
                            assert(pp_src_before(order@, idx as int, pred_ptr@, v as int));
                        },
                        None => {},
                    }
                }
            }
        }
        idx += 1;
    }
    proof {
        assert forall|w: int| 0 <= w < n implies #[trigger] dist_ok_at(g, dist@, w) by {
            let wu = w as usize;
            assert(order@.contains(wu));
            let j = choose|j: int| 0 <= j < order@.len() && order@[j] == wu;
            assert(dist_ok_at(g, dist@, order@[j] as int));
        }
        assert forall|w: int| 0 <= w < n implies (#[trigger] dist@[w] as int) < n as int by {
            let wu = w as usize;
            assert(order@.contains(wu));
            let j = choose|j: int| 0 <= j < order@.len() && order@[j] == wu;
            assert(dist@[order@[j] as int] <= j);
        }
        assert(is_dag_dist(g, dist@));
    }
    // rank the candidates
    let mut cands: Vec<(usize, usize)> = Vec::new();
    let mut v: usize = 0;
    while v < n
        invariant
            n as int == dist@.len(),
            cands@.len() == v as int,
            v <= n,
            forall|j: int| 0 <= j < v ==> cands@[j] == (j as usize, dist@[j]),
        decreases n - v,
    {
        let d = dist[v];
        cands.push((v, d));
        v += 1;
    }
    proof {
        assert(cands@ =~= cand_seq(dist@));
    }
    let ghost the_dist = dist@;
    sort_pairs(&mut cands);
    let ghost sorted = cands@;
    proof {
        lemma_ranked_ensures(cand_seq(the_dist));
        assert(sorted.len() == n as int);
    }
    let max_length = if k == 0 {
        0
    } else {
        proof {
            assert(sorted.contains(sorted[0]));
            assert(cand_seq(the_dist).contains(sorted[0]));
            let j = choose|j: int|
                0 <= j < cand_seq(the_dist).len() && cand_seq(the_dist)[j] == sorted[0];
            assert(sorted[0].1 == the_dist[j]);
            assert(the_dist[j] < n);
        }
        let top_pair = cands[0];
        top_pair.1 + 1
    };
    cands.truncate(k);
    let ghost top = sorted.take(
        if k as int <= n as int {
            k as int
        } else {
            n as int
        },
    );
    proof {
        if k as int <= n as int {
            assert(cands@ =~= top);
        } else {
            assert(cands@ =~= top);
        }
    }
    // reconstruct one path per kept candidate
    let mut paths: Vec<CriticalPath> = Vec::new();
    let mut i: usize = 0;
    let cl = cands.len();
    while i < cl
        invariant
            g.well_formed(),
            n as int == g.n(),
            cands@ == top,
            cl == top.len(),
            i <= cl,
            the_dist == dist@,
            dist@.len() == n as int,
            pred_ptr@.len() == n as int,
            is_dag_dist(g, dist@),
            forall|w: int| 0 <= w < n ==> (#[trigger] dist@[w] as int) < n as int,
            forall|w: int| 0 <= w < n ==> #[trigger] pp_ok(g, dist@, pred_ptr@, w),
            forall|w: int| 0 <= w < n ==> #[trigger] pp_chosen(g, dist@, pred_ptr@, w),
            forall|x: (usize, usize)| top.contains(x) ==> cand_seq(the_dist).contains(x),
            paths@.len() == top.take(i as int).filter(keep_positive()).len(),
            forall|j: int|
                0 <= j < paths@.len() ==> {
                    let kept = top.take(i as int).filter(keep_positive());
                    &&& (#[trigger] paths@[j]).length as int == kept[j].1 + 1
                    &&& paths@[j].nodes@.len() == paths@[j].length as int
                    &&& path_to(g, the_dist, kept[j].0, paths@[j].nodes@)
                },
        decreases cl - i,
    {
        let c = cands[i];
        let sink = c.0;
        let d = c.1;
        proof {
            assert(top.contains(top[i as int]));
            assert(cand_seq(the_dist).contains(top[i as int]));
            let j = choose|j: int|
                0 <= j < cand_seq(the_dist).len() && cand_seq(the_dist)[j] == top[i as int];
            assert(sink as int == j && d == the_dist[j]);
            assert(top.take(i as int + 1) =~= top.take(i as int).push(top[i as int]));
            top.take(i as int).lemma_filter_push(top[i as int], keep_positive());
        }
        if d > 0 {
            let mut rev: Vec<usize> = Vec::new();
            rev.push(sink);
            let mut curr = sink;
            while pred_ptr[curr].is_some()
                invariant
                    g.well_formed(),
                    n as int == g.n(),
                    dist@.len() == n as int,
                    pred_ptr@.len() == n as int,
                    forall|w: int| 0 <= w < n ==> #[trigger] pp_ok(g, dist@, pred_ptr@, w),
                    forall|w: int| 0 <= w < n ==> #[trigger] pp_chosen(g, dist@, pred_ptr@, w),
                    (curr as int) < n as int,
                    (sink as int) < n as int,
                    rev@.len() >= 1,
                    rev@.len() == dist@[sink as int] - dist@[curr as int] + 1,
                    rev@[0] == sink,
                    rev@[rev@.len() - 1] == curr,
                    forall|t: int|
                        0 <= t < rev@.len() ==> (#[trigger] rev@[t] as int) < n as int
                            && dist@[rev@[t] as int] == dist@[sink as int] - t,
                    forall|t: int| 0 <= t < rev@.len() - 1 ==> g.has_edge(
                        #[trigger] rev@[t + 1],
                        rev@[t],
                    ),
                    forall|t: int|
                        0 <= t < rev@.len() - 1 ==> #[trigger] is_chosen_pred(
                            g,
                            dist@,
                            rev@[t],
                            rev@[t + 1],
                        ),
                decreases dist@[curr as int],
            {
                let u = match pred_ptr[curr] {
                    Some(u) => u,
                    None => 0,
                };
                proof {
                    assert(pp_ok(g, dist@, pred_ptr@, curr as int));
                    assert(pp_chosen(g, dist@, pred_ptr@, curr as int));
                    assert(g.preds(curr as int).contains(u));
                    assert(g.has_edge(u, curr));
                    assert(is_chosen_pred(g, dist@, curr, u));
                }
                let ghost rev0 = rev@;
                let ghost curr0 = curr;
                rev.push(u);
                curr = u;
                proof {
                    assert(rev@ == rev0.push(u));
                    assert(rev@[0] == rev0[0]);
                    assert(rev@[rev@.len() - 1] == u);
                    assert forall|t: int|
                        0 <= t < rev@.len() - 1 implies g.has_edge(
                        #[trigger] rev@[t + 1],
                        rev@[t],
                    ) by {
                        if t < rev0.len() - 1 {
                            assert(rev@[t + 1] == rev0[t + 1]);
                            assert(rev@[t] == rev0[t]);
                        } else {
                            assert(rev@[t] == curr0);
                            assert(rev@[t + 1] == u);
                        }
                    }
                    assert forall|t: int|
                        0 <= t < rev@.len() - 1 implies #[trigger] is_chosen_pred(
                        g,
                        dist@,
                        rev@[t],
                        rev@[t + 1],
                    ) by {
                        if t < rev0.len() - 1 {
                            assert(rev@[t + 1] == rev0[t + 1]);
                            assert(rev@[t] == rev0[t]);
                            assert(is_chosen_pred(g, dist@, rev0[t], rev0[t + 1]));
                        } else {
                            assert(rev@[t] == curr0);
                            assert(rev@[t + 1] == u);
                        }
                    }
                }
            }
            proof {
                assert(pp_ok(g, dist@, pred_ptr@, curr as int));
                assert(dist@[curr as int] == 0);
                assert(rev@.len() == dist@[sink as int] + 1);
            }
            let mut nodes: Vec<usize> = Vec::new();
            let rl = rev.len();
            let mut t = rl;
            while t > 0
                invariant
                    t <= rl,
                    rl == rev@.len(),
                    nodes@.len() == rl - t,
                    forall|j: int| 0 <= j < nodes@.len() ==> #[trigger] nodes@[j] == rev@[rl - 1
                        - j],
                decreases t,
            {
                t -= 1;
                let x = rev[t];
                nodes.push(x);
            }
            proof {
                assert(path_to(g, the_dist, sink, nodes@)) by {
                    assert(nodes@.len() == the_dist[sink as int] + 1);
                    assert(nodes@[nodes@.len() - 1] == rev@[0]);
                    assert forall|q: int| 0 <= q < nodes@.len() - 1 implies g.has_edge(
                        #[trigger] nodes@[q],
                        nodes@[q + 1],
                    ) by {
                        let tq = rl - 2 - q;
                        assert(nodes@[q] == rev@[tq + 1]);
                        assert(nodes@[q + 1] == rev@[tq]);
                        assert(g.has_edge(rev@[tq + 1], rev@[tq]));
                    }
                    assert forall|q: int|
                        0 <= q < nodes@.len() - 1 implies is_chosen_pred(
                        g,
                        the_dist,
                        #[trigger] nodes@[q + 1],
                        nodes@[q],
                    ) by {
                        let tq = rl - 2 - q;
                        assert(nodes@[q] == rev@[tq + 1]);
                        assert(nodes@[q + 1] == rev@[tq]);
                        assert(is_chosen_pred(g, dist@, rev@[tq], rev@[tq + 1]));
                    }
                }
            }
            let length = nodes.len();
            paths.push(CriticalPath { nodes, length });
        }
        i += 1;
    }
    proof {
        assert(top.take(cl as int) =~= top);
    }
    let r = KPathsResult { paths, total_nodes: n, max_length };
    proof {
        assert(!has_cycle(g)) by {
            if has_cycle(g) {
                let c = choose|c: Seq<usize>| is_cycle(g, c);
                crate::topo::lemma_topo_order_excludes_cycle(g, order@, c);
            }
        }
        assert(is_dag_dist(g, the_dist) && k_paths_from(g, the_dist, k, r));
    }
    r
}

/// Find the k longest paths with the default k of 5: the same contract as
/// `k_critical_paths` at that `k`, so by `lemma_k_paths_deterministic` the
/// result equals what that call returns.
pub fn k_critical_paths_default(g: &DiGraph) -> (r: KPathsResult)
    requires
        g.well_formed(),
    ensures
        k_paths_post(g, 5, r),
{
    k_critical_paths(g, 5)
}

/// Just the node sequences of the k longest paths: the `nodes` fields, in
/// order, of what `k_critical_paths` returns for the same arguments — the
/// backing result meets `k_paths_post`, which by `lemma_k_paths_deterministic`
/// admits one value.
pub fn k_path_nodes(g: &DiGraph, k: usize) -> (r: Vec<Vec<usize>>)
    requires
        g.well_formed(),
    ensures
        exists|kr: KPathsResult|
            #[trigger] k_paths_post(g, k, kr) && r@.len() == kr.paths@.len() && (forall|j: int|
                0 <= j < r@.len() ==> #[trigger] r@[j]@ == kr.paths@[j].nodes@),
{
    let mut full = k_critical_paths(g, k);
    let ghost kr = full;
    let mut r: Vec<Vec<usize>> = Vec::new();
    while full.paths.len() > 0
        invariant
            r@.len() + full.paths@.len() == kr.paths@.len(),
            forall|j: int| 0 <= j < r@.len() ==> #[trigger] r@[j]@ == kr.paths@[j].nodes@,
            forall|j: int|
                0 <= j < full.paths@.len() ==> #[trigger] full.paths@[j] == kr.paths@[r@.len()
                    + j],
        decreases full.paths@.len(),
    {
        let p = full.paths.remove(0);
        r.push(p.nodes);
    }
    r
}

} // verus!
