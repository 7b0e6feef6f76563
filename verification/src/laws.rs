//! Laws about whole families of graphs, proved from the public contracts:
//! what the analyses return on any simple chain `0 -> 1 -> .. -> m-1`.

use crate::graph::DiGraph;
use crate::k_paths::{
    cand_seq, dist_ok_at, is_dag_dist, k_paths_from, k_paths_post, keep_positive, path_to,
    KPathsResult,
};
use crate::parallel_cut::{
    cand_of, cut_cands, cut_post, gain_positive, new_actionable_count, node_seq, open_pred,
    ParallelCutResult,
};
use crate::ranking::{lemma_rank_total, lemma_ranked_ensures, rank_le, rank_order, ranked};
use crate::topo::{has_cycle, is_cycle, is_topo_order, lemma_topo_order_excludes_cycle};
use vstd::prelude::*;
use vstd::relations::sorted_by;
use vstd::seq_lib::lemma_sorted_unique;

verus! {

/// `g` is the simple chain `0 -> 1 -> .. -> m-1`.
pub open spec fn is_chain(g: &DiGraph, m: int) -> bool {
    &&& g.n() == m
    &&& forall|v: int|
        0 <= v < m ==> #[trigger] g.succs(v) == (if v < m - 1 {
            seq![(v + 1) as usize]
        } else {
            Seq::<usize>::empty()
        })
    &&& forall|v: int|
        0 <= v < m ==> #[trigger] g.preds(v) == (if v > 0 {
            seq![(v - 1) as usize]
        } else {
            Seq::<usize>::empty()
        })
}

/// The ascending node order is a topological order of a chain, so no chain
/// has a cycle.
pub proof fn lemma_chain_topo(g: &DiGraph, m: int)
    requires
        g.well_formed(),
        is_chain(g, m),
    ensures
        is_topo_order(g, node_seq(m)),
        !has_cycle(g),
{
    g.lemma_n_fits();
    let ord = node_seq(m);
    assert(ord.no_duplicates()) by {
        assert forall|i: int, j: int|
            0 <= i < ord.len() && 0 <= j < ord.len() && i != j implies ord[i] != ord[j] by {
            assert(ord[i] == i as usize);
            assert(ord[j] == j as usize);
        }
    }
    assert forall|v: usize| (v as int) < m implies ord.contains(v) by {
        assert(ord[v as int] == v);
    }
    assert forall|i: int, j: int|
        0 <= i < ord.len() && 0 <= j < ord.len() && g.has_edge(
            #[trigger] ord[i],
            #[trigger] ord[j],
        ) implies i < j by {
        assert(g.preds(j).contains(ord[i]));
        if j > 0 {
            let t = choose|t: int| 0 <= t < g.preds(j).len() && g.preds(j)[t] == ord[i];
            assert(g.preds(j)[t] == (j - 1) as usize);
            assert(i == j - 1);
        }
    }
    assert(is_topo_order(g, ord));
    assert(!has_cycle(g)) by {
        if has_cycle(g) {
            let c = choose|c: Seq<usize>| is_cycle(g, c);
            lemma_topo_order_excludes_cycle(g, ord, c);
        }
    }
}

/// On a chain the longest-path distance of each node is its own index.
proof fn lemma_chain_dist(g: &DiGraph, m: int, dist: Seq<usize>, v: int)
    requires
        g.well_formed(),
        is_chain(g, m),
        is_dag_dist(g, dist),
        0 <= v < m,
    ensures
        dist[v] == v,
    decreases v,
{
    assert(dist_ok_at(g, dist, v));
    if v == 0 {
        assert(g.preds(0).len() == 0);
    } else {
        lemma_chain_dist(g, m, dist, v - 1);
        let t = choose|t: int|
            0 <= t < g.preds(v).len() && dist[v] == dist[g.preds(v)[t] as int] + 1;
        assert(g.preds(v)[t] == (v - 1) as usize);
    }
}

/// On a chain of `m` nodes (`m >= 2`), asking for one critical path returns
/// exactly one path: the full chain, of length `m`, with `max_length = m`.
pub proof fn lemma_chain_single_path(g: &DiGraph, m: int, r: KPathsResult)
    requires
        g.well_formed(),
        is_chain(g, m),
        m >= 2,
        k_paths_post(g, 1, r),
    ensures
        r.paths@.len() == 1,
        r.paths@[0].nodes@ == node_seq(m),
        r.paths@[0].length == m,
        r.max_length == m,
{
    g.lemma_n_fits();
    lemma_chain_topo(g, m);
    let dist = choose|dist: Seq<usize>|
        #[trigger] is_dag_dist(g, dist) && k_paths_from(g, dist, 1, r);
    assert(is_dag_dist(g, dist) && k_paths_from(g, dist, 1, r));
    assert forall|v: int| 0 <= v < m implies (#[trigger] dist[v] as int) == v by {
        lemma_chain_dist(g, m, dist, v);
    }
    let cands = cand_seq(dist);
    assert(cands.len() == m);
    let rev = Seq::new(m as nat, |t: int| (((m - 1 - t) as usize), ((m - 1 - t) as usize)));
    assert(rev =~= cands.reverse()) by {
        assert forall|t: int| 0 <= t < m implies cands.reverse()[t] == rev[t] by {
            assert(cands[m - 1 - t] == (((m - 1 - t) as usize), dist[m - 1 - t]));
        }
    }
    cands.lemma_reverse_to_multiset();
    assert(sorted_by(rev, rank_order())) by {
        assert forall|t1: int, t2: int| 0 <= t1 < t2 < rev.len() implies rank_le(
            rev[t1],
            rev[t2],
        ) by {
            assert(rev[t1].1 == (m - 1 - t1) as usize);
            assert(rev[t2].1 == (m - 1 - t2) as usize);
        }
    }
    lemma_rank_total();
    lemma_ranked_ensures(cands);
    lemma_sorted_unique(ranked(cands), rev, rank_order());
    assert(ranked(cands) =~= rev);
    let top = ranked(cands).take(1);
    assert(top =~= Seq::<(usize, usize)>::empty().push(rev[0]));
    Seq::<(usize, usize)>::empty().lemma_filter_push(rev[0], keep_positive());
    assert(rev[0] == (((m - 1) as usize), ((m - 1) as usize)));
    assert(keep_positive()(rev[0]));
    let kept = top.filter(keep_positive());
    assert(kept =~= Seq::<(usize, usize)>::empty().push(rev[0]));
    assert(r.paths@.len() == 1);
    assert(r.paths@[0].length as int == kept[0].1 + 1);
    assert(path_to(g, dist, kept[0].0, r.paths@[0].nodes@));
    let nodes = r.paths@[0].nodes@;
    assert(nodes.len() == m);
    assert forall|i: int| 0 <= i < m implies nodes[i] == node_seq(m)[i] by {
        assert(dist[nodes[i] as int] == i);
        assert((dist[nodes[i] as int] as int) == nodes[i] as int);
    }
    assert(nodes =~= node_seq(m));
    assert(r.max_length as int == rev[0].1 + 1);
}

/// On a chain every node has at most one successor, so completing a node
/// never unblocks more than one dependent: whatever the completion state and
/// the limit, the parallel-cut suggestion list is empty.
pub proof fn lemma_chain_no_gain(
    g: &DiGraph,
    m: int,
    cs: Seq<bool>,
    limit: usize,
    r: ParallelCutResult,
)
    requires
        g.well_formed(),
        is_chain(g, m),
        cut_post(g, cs, limit, r),
    ensures
        r.items@.len() == 0,
{
    g.lemma_n_fits();
    let cands = cut_cands(g, cs);
    assert forall|j: int| 0 <= j < cands.len() implies !(gain_positive()(#[trigger] cands[j])) by {
        let base = node_seq(g.n()).filter(open_pred(cs));
        assert(cands[j] == cand_of(g, cs)(base[j]));
        let u = base[j];
        assert(base.contains(u));
        node_seq(g.n()).lemma_filter_contains_rev(open_pred(cs), u);
        let t = choose|t: int| 0 <= t < node_seq(g.n()).len() && node_seq(g.n())[t] == u;
        assert(node_seq(g.n())[t] == t as usize);
        assert((u as int) == t);
        assert((u as int) < m);
        g.succs(u as int).lemma_filter_len(crate::parallel_cut::unblock_pred(g, cs, u));
        assert(g.succs(u as int).len() <= 1);
        assert(new_actionable_count(g, cs, u) <= 1);
    }
    assert(cands.all(|c: (usize, usize)| !(gain_positive()(c))));
    cands.lemma_all_neg_filter_empty(gain_positive());
    lemma_ranked_ensures(cands.filter(gain_positive()));
    assert(ranked(cands.filter(gain_positive())).len() == 0);
}

} // verus!
