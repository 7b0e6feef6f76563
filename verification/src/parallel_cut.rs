//! Parallel-cut analysis over a caller-supplied completion state: which open
//! nodes, once completed, would unblock the most dependents, and how the
//! count of immediately workable nodes would change.

use crate::graph::DiGraph;
use crate::ranking::{lemma_ranked_ensures, ranked, sort_pairs};
use vstd::prelude::*;

verus! {

/// A node that could increase parallelisation when completed.
#[derive(Debug, Clone)]
pub struct ParallelCutItem {
    /// Node index in the graph
    pub node: usize,
    /// Net gain in parallelisation (dependents newly unblocked, minus one)
    pub parallel_gain: i32,
    /// Number of dependents that would become actionable
    pub new_actionable: usize,
}

/// Result of the parallel-cut analysis.
#[derive(Debug, Clone)]
pub struct ParallelCutResult {
    /// Nodes sorted by parallel gain descending
    pub items: Vec<ParallelCutItem>,
    /// Total open (non-closed) nodes
    pub open_nodes: usize,
    /// Current number of actionable nodes (before any changes)
    pub current_actionable: usize,
}

/// `v` is marked done; an index beyond the array counts as open.
pub open spec fn closed_at(cs: Seq<bool>, v: usize) -> bool {
    (v as int) < cs.len() && cs[v as int]
}

/// `v` is open and every predecessor of `v` is closed: it can be worked on
/// immediately.
pub open spec fn actionable(g: &DiGraph, cs: Seq<bool>, v: usize) -> bool {
    &&& !closed_at(cs, v)
    &&& forall|t: int|
        0 <= t < g.preds(v as int).len() ==> closed_at(cs, #[trigger] g.preds(v as int)[t])
}

/// Completing `v` would make `w` actionable: `w` is open and `v` is the one
/// remaining open blocker among its predecessors.
pub open spec fn unblocked_by(g: &DiGraph, cs: Seq<bool>, v: usize, w: usize) -> bool {
    &&& !closed_at(cs, w)
    &&& forall|t: int|
        0 <= t < g.preds(w as int).len() ==> (#[trigger] g.preds(w as int)[t]) != v ==> closed_at(
            cs,
            g.preds(w as int)[t],
        )
}

/// `unblocked_by` as a predicate over the successor list entries of `v`.
pub open spec fn unblock_pred(g: &DiGraph, cs: Seq<bool>, v: usize) -> spec_fn(usize) -> bool {
    |w: usize| unblocked_by(g, cs, v, w)
}

/// How many successor-list entries of `v` would become actionable if `v`
/// were completed (a dependent reached by several edges counts once per
/// edge, as the successor list keeps multiplicity).
pub open spec fn new_actionable_count(g: &DiGraph, cs: Seq<bool>, v: usize) -> int {
    g.succs(v as int).filter(unblock_pred(g, cs, v)).len() as int
}

/// The node indices `0, 1, .., n-1` in order.
pub open spec fn node_seq(n: int) -> Seq<usize> {
    Seq::new(n as nat, |i: int| i as usize)
}

/// Openness as a predicate.
pub open spec fn open_pred(cs: Seq<bool>) -> spec_fn(usize) -> bool {
    |v: usize| !closed_at(cs, v)
}

/// Actionability as a predicate.
pub open spec fn actionable_pred(g: &DiGraph, cs: Seq<bool>) -> spec_fn(usize) -> bool {
    |v: usize| actionable(g, cs, v)
}

/// Number of open nodes.
pub open spec fn open_count(g: &DiGraph, cs: Seq<bool>) -> int {
    node_seq(g.n()).filter(open_pred(cs)).len() as int
}

/// Number of actionable nodes under `cs`, straight from the definition.
pub open spec fn actionable_count(g: &DiGraph, cs: Seq<bool>) -> int {
    node_seq(g.n()).filter(actionable_pred(g, cs)).len() as int
}

/// One ranking candidate per open node, in ascending node order.
pub open spec fn cand_of(g: &DiGraph, cs: Seq<bool>) -> spec_fn(usize) -> (usize, usize) {
    |v: usize| (v, new_actionable_count(g, cs, v) as usize)
}

/// The `(node, new_actionable)` candidates of all open nodes.
pub open spec fn cut_cands(g: &DiGraph, cs: Seq<bool>) -> Seq<(usize, usize)> {
    node_seq(g.n()).filter(open_pred(cs)).map_values(cand_of(g, cs))
}

/// Candidates with positive parallel gain: at least two newly unblocked.
pub open spec fn gain_positive() -> spec_fn((usize, usize)) -> bool {
    |c: (usize, usize)| c.1 >= 2
}

/// The contract of `unblock_ranking`: every open node's candidate, ranked by
/// unblock count descending (ties by ascending node index), cut to `limit`.
pub open spec fn ranking_post(g: &DiGraph, cs: Seq<bool>, limit: usize, r: Seq<(usize, usize)>) -> bool {
    let sorted = ranked(cut_cands(g, cs));
    r == sorted.take(
        if limit as int <= sorted.len() {
            limit as int
        } else {
            sorted.len() as int
        },
    )
}

/// The contract of `parallel_cut_suggestions`: the open and actionable
/// counts, and the positive-gain candidates ranked by gain descending (ties
/// by ascending node index), cut to `limit`, each carrying its gain.
pub open spec fn cut_post(g: &DiGraph, cs: Seq<bool>, limit: usize, r: ParallelCutResult) -> bool {
    let sorted = ranked(cut_cands(g, cs).filter(gain_positive()));
    let items = sorted.take(
        if limit as int <= sorted.len() {
            limit as int
        } else {
            sorted.len() as int
        },
    );
    &&& r.open_nodes as int == open_count(g, cs)
    &&& r.current_actionable as int == actionable_count(g, cs)
    &&& r.items@.len() == items.len()
    &&& forall|j: int|
        0 <= j < items.len() ==> {
            &&& (#[trigger] r.items@[j]).node == items[j].0
            &&& r.items@[j].new_actionable == items[j].1
            &&& r.items@[j].parallel_gain as int == items[j].1 - 1
        }
}

/// Whether `v` is closed; indices beyond the array are open.
fn is_closed(cs: &[bool], v: usize) -> (r: bool)
    ensures
        r == closed_at(cs@, v),
{
    if v < cs.len() {
        cs[v]
    } else {
        false
    }
}

/// Whether every predecessor of `w` other than `v` is closed.
fn others_closed(g: &DiGraph, cs: &[bool], v: usize, w: usize) -> (r: bool)
    requires
        g.well_formed(),
        (w as int) < g.n(),
    ensures
        r == (forall|t: int|
            0 <= t < g.preds(w as int).len() ==> (#[trigger] g.preds(w as int)[t]) != v
                ==> closed_at(cs@, g.preds(w as int)[t])),
{
    let preds = g.pred_list(w);
    let m = preds.len();
    let mut t: usize = 0;
    while t < m
        invariant
            preds@ == g.preds(w as int),
            m == preds@.len(),
            t <= m,
            forall|s: int|
                0 <= s < t ==> (#[trigger] g.preds(w as int)[s]) != v ==> closed_at(
                    cs@,
                    g.preds(w as int)[s],
                ),
        decreases m - t,
    {
        let p = preds[t];
        if p != v && !is_closed(cs, p) {
            return false;
        }
        t += 1;
    }
    true
}

/// Whether every predecessor of `v` is closed.
fn all_preds_closed(g: &DiGraph, cs: &[bool], v: usize) -> (r: bool)
    requires
        g.well_formed(),
        (v as int) < g.n(),
    ensures
        r == (forall|t: int|
            0 <= t < g.preds(v as int).len() ==> closed_at(cs@, #[trigger] g.preds(v as int)[t])),
{
    let preds = g.pred_list(v);
    let m = preds.len();
    let mut t: usize = 0;
    while t < m
        invariant
            preds@ == g.preds(v as int),
            m == preds@.len(),
            t <= m,
            forall|s: int| 0 <= s < t ==> closed_at(cs@, #[trigger] g.preds(v as int)[s]),
        decreases m - t,
    {
        let p = preds[t];
        if !is_closed(cs, p) {
            return false;
        }
        t += 1;
    }
    true
}

/// How many successor-list entries of `v` completing `v` would unblock.
fn count_unblocked(g: &DiGraph, cs: &[bool], v: usize) -> (count: usize)
    requires
        g.well_formed(),
        (v as int) < g.n(),
    ensures
        count as int == new_actionable_count(g, cs@, v),
        count <= g.succs(v as int).len(),
{
    let succs = g.succ_list(v);
    let m = succs.len();
    let mut count: usize = 0;
    let mut t: usize = 0;
    while t < m
        invariant
            g.well_formed(),
            (v as int) < g.n(),
            succs@ == g.succs(v as int),
            m == succs@.len(),
            t <= m,
            count <= t,
            count as int == g.succs(v as int).take(t as int).filter(
                unblock_pred(g, cs@, v),
            ).len(),
        decreases m - t,
    {
        let w = succs[t];
        proof {
            assert((w as int) < g.n());
        }
        let unblocked = if is_closed(cs, w) {
            false
        } else {
            others_closed(g, cs, v, w)
        };
        proof {
            let pre = g.succs(v as int).take(t as int);
            assert(g.succs(v as int).take(t as int + 1) =~= pre.push(w));
            pre.lemma_filter_len_push(unblock_pred(g, cs@, v), w);
            assert(unblock_pred(g, cs@, v)(w) == unblocked_by(g, cs@, v, w));
            assert(unblocked == unblocked_by(g, cs@, v, w));
        }
        if unblocked {
            count += 1;
        }
        t += 1;
    }
    proof {
        assert(g.succs(v as int).take(m as int) =~= g.succs(v as int));
    }
    count
}

/// Find the nodes whose completion would increase parallel work: open nodes
/// whose completion unblocks at least two dependents, ranked by net gain
/// descending (ties by ascending node index), cut to `limit`; also reports
/// the open-node count and the current actionable count.
#[verifier::rlimit(30)]
pub fn parallel_cut_suggestions(g: &DiGraph, closed_set: &[bool], limit: usize) -> (r:
    ParallelCutResult)
    requires
        g.well_formed(),
        forall|v: int| 0 <= v < g.n() ==> (#[trigger] g.succs(v)).len() < 0x8000_0000,
    ensures
        cut_post(g, closed_set@, limit, r),
{
    let n = g.node_count();
    let ghost cs = closed_set@;
    let mut open_nodes: usize = 0;
    let mut current_actionable: usize = 0;
    let mut pairs: Vec<(usize, usize)> = Vec::new();
    let mut v: usize = 0;
    while v < n
        invariant
            g.well_formed(),
            n as int == g.n(),
            cs == closed_set@,
            v <= n,
            forall|w: int| 0 <= w < g.n() ==> (#[trigger] g.succs(w)).len() < 0x8000_0000,
            open_nodes as int == node_seq(v as int).filter(open_pred(cs)).len(),
            current_actionable as int == node_seq(v as int).filter(actionable_pred(g, cs)).len(),
            pairs@ == node_seq(v as int).filter(open_pred(cs)).map_values(cand_of(g, cs)).filter(
                gain_positive(),
            ),
            open_nodes <= v,
            current_actionable <= v,
        decreases n - v,
    {
        proof {
            assert(node_seq(v as int + 1) =~= node_seq(v as int).push(v));
            node_seq(v as int).lemma_filter_len_push(open_pred(cs), v);
            node_seq(v as int).lemma_filter_len_push(actionable_pred(g, cs), v);
            node_seq(v as int).lemma_filter_push(v, open_pred(cs));
            assert(open_pred(cs)(v) == !closed_at(cs, v));
            assert(actionable_pred(g, cs)(v) == actionable(g, cs, v));
        }
        let open = !is_closed(closed_set, v);
        if open {
            open_nodes += 1;
            if all_preds_closed(g, closed_set, v) {
                current_actionable += 1;
            }
            let c = count_unblocked(g, closed_set, v);
            let ghost base = node_seq(v as int).filter(open_pred(cs));
            proof {
                assert(base.push(v).map_values(cand_of(g, cs)) =~= base.map_values(
                    cand_of(g, cs),
                ).push(cand_of(g, cs)(v)));
                base.map_values(cand_of(g, cs)).lemma_filter_push(
                    cand_of(g, cs)(v),
                    gain_positive(),
                );
                assert(cand_of(g, cs)(v) == (v, c));
            }
            if c >= 2 {
                pairs.push((v, c));
            }
        }
        v += 1;
    }
    proof {
        assert(pairs@ == cut_cands(g, cs).filter(gain_positive())) by {
            assert(node_seq(n as int) == node_seq(g.n()));
        }
    }
    sort_pairs(&mut pairs);
    let ghost sorted = ranked(cut_cands(g, cs).filter(gain_positive()));
    proof {
        lemma_ranked_ensures(cut_cands(g, cs).filter(gain_positive()));
    }
    pairs.truncate(limit);
    let ghost taken = sorted.take(
        if limit as int <= sorted.len() {
            limit as int
        } else {
            sorted.len() as int
        },
    );
    proof {
        assert(pairs@ =~= taken);
        assert forall|x: (usize, usize)| taken.contains(x) implies cut_cands(g, cs).contains(
            x,
        ) by {
            let t = choose|t: int| 0 <= t < taken.len() && taken[t] == x;
            assert(sorted[t] == x);
            assert(sorted.contains(x));
            assert(cut_cands(g, cs).filter(gain_positive()).contains(x));
            cut_cands(g, cs).lemma_filter_contains_rev(gain_positive(), x);
        }
    }
    let mut items: Vec<ParallelCutItem> = Vec::new();
    let mut i: usize = 0;
    let pl = pairs.len();
    while i < pl
        invariant
            g.well_formed(),
            n as int == g.n(),
            cs == closed_set@,
            pairs@ == taken,
            pl == taken.len(),
            i <= pl,
            forall|x: (usize, usize)| taken.contains(x) ==> cut_cands(g, cs).contains(x),
            forall|w: int| 0 <= w < g.n() ==> (#[trigger] g.succs(w)).len() < 0x8000_0000,
            items@.len() == i as int,
            forall|j: int|
                0 <= j < i ==> {
                    &&& (#[trigger] items@[j]).node == taken[j].0
                    &&& items@[j].new_actionable == taken[j].1
                    &&& items@[j].parallel_gain as int == taken[j].1 - 1
                },
        decreases pl - i,
    {
        let p = pairs[i];
        proof {
            assert(taken.contains(taken[i as int]));
            assert(cut_cands(g, cs).contains(taken[i as int]));
            let j = choose|j: int|
                0 <= j < cut_cands(g, cs).len() && cut_cands(g, cs)[j] == taken[i as int];
            let base = node_seq(g.n()).filter(open_pred(cs));
            assert(cut_cands(g, cs)[j] == cand_of(g, cs)(base[j]));
            let u = base[j];
            assert(base.contains(u));
            node_seq(g.n()).lemma_filter_contains_rev(open_pred(cs), u);
            let uj = choose|t: int| 0 <= t < node_seq(g.n()).len() && node_seq(g.n())[t] == u;
            assert((u as int) < g.n());
            assert(p == taken[i as int]);
            g.succs(u as int).lemma_filter_len(unblock_pred(g, cs, u));
            assert(new_actionable_count(g, cs, u) < 0x8000_0000);
            assert(p.0 == u && p.1 as int == new_actionable_count(g, cs, u));
            assert(p.1 < 0x8000_0000);
        }
        let gain: i32 = (p.1 as i32) - 1;
        items.push(ParallelCutItem { node: p.0, parallel_gain: gain, new_actionable: p.1 });
        i += 1;
    }
    ParallelCutResult { items, open_nodes, current_actionable }
}

/// Parallel-cut suggestions with the default limit of 10.
pub fn parallel_cut_default(g: &DiGraph, closed_set: &[bool]) -> (r: ParallelCutResult)
    requires
        g.well_formed(),
        forall|v: int| 0 <= v < g.n() ==> (#[trigger] g.succs(v)).len() < 0x8000_0000,
    ensures
        cut_post(g, closed_set@, 10, r),
{
    parallel_cut_suggestions(g, closed_set, 10)
}

/// Rank the open nodes by how many dependents completing each would unblock,
/// descending (ties by ascending node index), cut to `limit`. Unlike
/// `parallel_cut_suggestions`, nodes with gain at or below zero stay in.
pub fn unblock_ranking(g: &DiGraph, closed_set: &[bool], limit: usize) -> (r: Vec<(usize, usize)>)
    requires
        g.well_formed(),
    ensures
        ranking_post(g, closed_set@, limit, r@),
{
    let n = g.node_count();
    let ghost cs = closed_set@;
    let mut pairs: Vec<(usize, usize)> = Vec::new();
    let mut v: usize = 0;
    while v < n
        invariant
            g.well_formed(),
            n as int == g.n(),
            cs == closed_set@,
            v <= n,
            pairs@ == node_seq(v as int).filter(open_pred(cs)).map_values(cand_of(g, cs)),
        decreases n - v,
    {
        proof {
            assert(node_seq(v as int + 1) =~= node_seq(v as int).push(v));
            node_seq(v as int).lemma_filter_push(v, open_pred(cs));
            assert(open_pred(cs)(v) == !closed_at(cs, v));
        }
        let open = !is_closed(closed_set, v);
        if open {
            let c = count_unblocked(g, closed_set, v);
            let ghost base = node_seq(v as int).filter(open_pred(cs));
            proof {
                assert(base.push(v).map_values(cand_of(g, cs)) =~= base.map_values(
                    cand_of(g, cs),
                ).push(cand_of(g, cs)(v)));
                assert(cand_of(g, cs)(v) == (v, c));
            }
            pairs.push((v, c));
        }
        v += 1;
    }
    proof {
        assert(pairs@ == cut_cands(g, cs)) by {
            assert(node_seq(n as int) == node_seq(g.n()));
        }
    }
    sort_pairs(&mut pairs);
    proof {
        lemma_ranked_ensures(cut_cands(g, cs));
    }
    pairs.truncate(limit);
    let ghost sorted = ranked(cut_cands(g, cs));
    proof {
        assert(pairs@ =~= sorted.take(
            if limit as int <= sorted.len() {
                limit as int
            } else {
                sorted.len() as int
            },
        ));
    }
    pairs
}

} // verus!
