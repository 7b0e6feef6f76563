//! Dense directed graph: nodes are indices `0..n`, each with an ordered
//! successor list and an ordered predecessor list that always agree.

use vstd::prelude::*;

verus! {

/// The only construction-time error: an edge endpoint that is not a node.
#[derive(Debug, Clone, Copy, PartialEq, Eq, Structural)]
pub enum GraphError {
    InvalidNodeIndex,
}

/// Directed graph over dense node indices, with both adjacency views.
pub struct DiGraph {
    labels: Vec<String>,
    succ: Vec<Vec<usize>>,
    pred: Vec<Vec<usize>>,
}

impl DiGraph {
    /// Number of nodes.
    pub closed spec fn n(&self) -> int {
        self.succ@.len() as int
    }

    /// Successor list of node `v`, in edge-insertion order.
    pub closed spec fn succs(&self, v: int) -> Seq<usize> {
        self.succ@[v]@
    }

    /// Predecessor list of node `v`, in edge-insertion order.
    pub closed spec fn preds(&self, v: int) -> Seq<usize> {
        self.pred@[v]@
    }

    /// Display label of node `v`.
    pub closed spec fn label_of(&self, v: int) -> Seq<char> {
        self.labels@[v]@
    }

    pub closed spec fn lens_ok(&self) -> bool {
        &&& self.pred@.len() == self.succ@.len()
        &&& self.labels@.len() == self.succ@.len()
    }

    /// All entries of `s` are node indices of this graph.
    pub open spec fn in_range(&self, s: Seq<usize>) -> bool {
        forall|i: int| 0 <= i < s.len() ==> (#[trigger] s[i] as int) < self.n()
    }

    /// Both adjacency views index only real nodes and are mutually
    /// consistent: `v` is a successor of `u` iff `u` is a predecessor of `v`.
    pub open spec fn well_formed(&self) -> bool {
        &&& self.lens_ok()
        &&& forall|v: int| 0 <= v < self.n() ==> self.in_range(#[trigger] self.succs(v))
        &&& forall|v: int| 0 <= v < self.n() ==> self.in_range(#[trigger] self.preds(v))
        &&& forall|u: usize, v: usize|
            (u as int) < self.n() && (v as int) < self.n() ==> ((#[trigger] self.succs(
                u as int,
            ).contains(v)) <==> (#[trigger] self.preds(v as int).contains(u)))
    }

    /// The node count is a real vector's length: at least zero, and at most
    /// the machine word's maximum.
    pub proof fn lemma_n_fits(&self)
        ensures
            0 <= self.n() <= usize::MAX,
    {
        vstd::std_specs::vec::axiom_spec_len(&self.succ);
    }

    /// There is an edge from `u` to `v`.
    pub open spec fn has_edge(&self, u: usize, v: usize) -> bool {
        (v as int) < self.n() && self.preds(v as int).contains(u)
    }

    /// The successor view tells the same edge story as the predecessor view.
    pub proof fn lemma_edge_views_agree(&self, u: usize, v: usize)
        requires
            self.well_formed(),
            (u as int) < self.n(),
        ensures
            self.has_edge(u, v) <==> ((v as int) < self.n() && self.succs(u as int).contains(v)),
    {
        if (v as int) < self.n() {
        } else {
            if self.succs(u as int).contains(v) {
                let i = choose|i: int|
                    0 <= i < self.succs(u as int).len() && self.succs(u as int)[i] == v;
                assert((self.succs(u as int)[i] as int) < self.n());
            }
        }
    }

    /// Every edge of a well-formed graph starts at a real node.
    pub proof fn lemma_edge_source_in_range(&self, u: usize, v: usize)
        requires
            self.well_formed(),
            self.has_edge(u, v),
        ensures
            (u as int) < self.n(),
    {
        let i = choose|i: int|
            0 <= i < self.preds(v as int).len() && self.preds(v as int)[i] == u;
        assert((self.preds(v as int)[i] as int) < self.n());
    }

    /// An empty graph.
    pub fn new() -> (g: DiGraph)
        ensures
            g.well_formed(),
            g.n() == 0,
    {
        DiGraph { labels: Vec::new(), succ: Vec::new(), pred: Vec::new() }
    }

    /// Number of nodes.
    pub fn node_count(&self) -> (r: usize)
        ensures
            r as int == self.n(),
    {
        self.succ.len()
    }

    /// Appends a node with the given display label; returns its dense index.
    pub fn add_node(&mut self, label: &str) -> (idx: usize)
        requires
            old(self).well_formed(),
        ensures
            final(self).well_formed(),
            final(self).n() == old(self).n() + 1,
            idx as int == old(self).n(),
            forall|v: int|
                0 <= v < old(self).n() ==> #[trigger] final(self).succs(v) == old(self).succs(v),
            forall|v: int|
                0 <= v < old(self).n() ==> #[trigger] final(self).preds(v) == old(self).preds(v),
            forall|v: int|
                0 <= v < old(self).n() ==> #[trigger] final(self).label_of(v) == old(
                    self,
                ).label_of(v),
            final(self).succs(idx as int) == Seq::<usize>::empty(),
            final(self).preds(idx as int) == Seq::<usize>::empty(),
            final(self).label_of(idx as int) == label@,
    {
        let idx = self.succ.len();
        self.labels.push(label.to_owned());
        self.succ.push(Vec::new());
        self.pred.push(Vec::new());
        proof {
            assert(final(self).succs(idx as int) =~= Seq::<usize>::empty());
            assert(final(self).preds(idx as int) =~= Seq::<usize>::empty());
            assert forall|v: int| 0 <= v < old(self).n() implies #[trigger] final(self).succs(v)
                == old(self).succs(v) by {}
            assert forall|v: int| 0 <= v < old(self).n() implies #[trigger] final(self).preds(v)
                == old(self).preds(v) by {}
            assert forall|u: usize, v: usize|
                (u as int) < final(self).n() && (v as int) < final(self).n() implies ((
            #[trigger] final(self).succs(u as int).contains(v)) <==> (#[trigger] final(self).preds(
                v as int,
            ).contains(u))) by {
                if (u as int) < idx as int && (v as int) < idx as int {
                    assert(old(self).succs(u as int).contains(v) <==> old(self).preds(
                        v as int,
                    ).contains(u));
                } else {
                    if (u as int) == idx as int {
                        assert(!final(self).succs(u as int).contains(v));
                    } else {
                        // u is an old node; its old successor list cannot name idx
                        if final(self).succs(u as int).contains(v) {
                            let i = choose|i: int|
                                0 <= i < old(self).succs(u as int).len() && old(self).succs(
                                    u as int,
                                )[i] == v;
                            assert((old(self).succs(u as int)[i] as int) < old(self).n());
                            assert((v as int) < idx as int);
                        }
                    }
                    if (v as int) == idx as int {
                        assert(!final(self).preds(v as int).contains(u));
                    } else {
                        if final(self).preds(v as int).contains(u) {
                            let i = choose|i: int|
                                0 <= i < old(self).preds(v as int).len() && old(self).preds(
                                    v as int,
                                )[i] == u;
                            assert((old(self).preds(v as int)[i] as int) < old(self).n());
                            assert((u as int) < idx as int);
                        }
                    }
                }
            }
        }
        idx
    }

    /// Records the edge `(u, v)` in both adjacency views, or fails with
    /// `InvalidNodeIndex`, touching neither view, if an endpoint is out of
    /// range.
    pub fn add_edge(&mut self, u: usize, v: usize) -> (r: Result<(), GraphError>)
        requires
            old(self).well_formed(),
        ensures
            final(self).well_formed(),
            final(self).n() == old(self).n(),
            forall|w: int|
                0 <= w < old(self).n() ==> #[trigger] final(self).label_of(w) == old(
                    self,
                ).label_of(w),
            match r {
                Ok(()) => {
                    &&& (u as int) < old(self).n()
                    &&& (v as int) < old(self).n()
                    &&& final(self).succs(u as int) == old(self).succs(u as int).push(v)
                    &&& final(self).preds(v as int) == old(self).preds(v as int).push(u)
                    &&& forall|w: int|
                        0 <= w < old(self).n() && w != u as int ==> #[trigger] final(self).succs(w)
                            == old(self).succs(w)
                    &&& forall|w: int|
                        0 <= w < old(self).n() && w != v as int ==> #[trigger] final(self).preds(w)
                            == old(self).preds(w)
                },
                Err(e) => {
                    &&& ((u as int) >= old(self).n() || (v as int) >= old(self).n())
                    &&& e == GraphError::InvalidNodeIndex
                    &&& *final(self) == *old(self)
                },
            },
    {
        let n = self.succ.len();
        if u >= n || v >= n {
            return Err(GraphError::InvalidNodeIndex);
        }
        self.succ[u].push(v);
        self.pred[v].push(u);
        proof {
            assert(final(self).succs(u as int) == old(self).succs(u as int).push(v));
            assert(final(self).preds(v as int) == old(self).preds(v as int).push(u));
            assert forall|w: int|
                0 <= w < old(self).n() && w != u as int implies #[trigger] final(self).succs(w)
                == old(self).succs(w) by {}
            assert forall|w: int|
                0 <= w < old(self).n() && w != v as int implies #[trigger] final(self).preds(w)
                == old(self).preds(w) by {}
            assert forall|w: int| 0 <= w < final(self).n() implies final(self).in_range(
                #[trigger] final(self).succs(w),
            ) by {
                lemma_push_in_range(old(self), old(self).succs(u as int), v);
                assert(old(self).in_range(old(self).succs(w)));
            }
            assert forall|w: int| 0 <= w < final(self).n() implies final(self).in_range(
                #[trigger] final(self).preds(w),
            ) by {
                lemma_push_in_range(old(self), old(self).preds(v as int), u);
                assert(old(self).in_range(old(self).preds(w)));
            }
            assert forall|a: usize, b: usize|
                (a as int) < final(self).n() && (b as int) < final(self).n() implies ((
            #[trigger] final(self).succs(a as int).contains(b)) <==> (#[trigger] final(self).preds(
                b as int,
            ).contains(a))) by {
                lemma_push_contains(old(self).succs(u as int), v, b);
                lemma_push_contains(old(self).preds(v as int), u, a);
                assert(old(self).succs(a as int).contains(b) <==> old(self).preds(
                    b as int,
                ).contains(a));
            }
        }
        Ok(())
    }

    /// Successor list of `v`, or `InvalidNodeIndex` if `v` is out of range.
    pub fn successors(&self, v: usize) -> (r: Result<&Vec<usize>, GraphError>)
        ensures
            match r {
                Ok(l) => (v as int) < self.n() && l@ == self.succs(v as int),
                Err(e) => (v as int) >= self.n() && e == GraphError::InvalidNodeIndex,
            },
    {
        if v < self.succ.len() {
            Ok(&self.succ[v])
        } else {
            Err(GraphError::InvalidNodeIndex)
        }
    }

    /// Predecessor list of `v`, or `InvalidNodeIndex` if `v` is out of range.
    pub fn predecessors(&self, v: usize) -> (r: Result<&Vec<usize>, GraphError>)
        requires
            self.well_formed(),
        ensures
            match r {
                Ok(l) => (v as int) < self.n() && l@ == self.preds(v as int),
                Err(e) => (v as int) >= self.n() && e == GraphError::InvalidNodeIndex,
            },
    {
        if v < self.pred.len() {
            Ok(&self.pred[v])
        } else {
            Err(GraphError::InvalidNodeIndex)
        }
    }

    /// Display label of `v`, or `InvalidNodeIndex` if `v` is out of range.
    pub fn label(&self, v: usize) -> (r: Result<&String, GraphError>)
        requires
            self.well_formed(),
        ensures
            match r {
                Ok(l) => (v as int) < self.n() && l@ == self.label_of(v as int),
                Err(e) => (v as int) >= self.n() && e == GraphError::InvalidNodeIndex,
            },
    {
        if v < self.labels.len() {
            Ok(&self.labels[v])
        } else {
            Err(GraphError::InvalidNodeIndex)
        }
    }

    /// Successor list of `v` for in-crate callers that know `v` is in range.
    pub(crate) fn succ_list(&self, v: usize) -> (r: &Vec<usize>)
        requires
            self.well_formed(),
            (v as int) < self.n(),
        ensures
            r@ == self.succs(v as int),
    {
        &self.succ[v]
    }

    /// Predecessor list of `v` for in-crate callers that know `v` is in range.
    pub(crate) fn pred_list(&self, v: usize) -> (r: &Vec<usize>)
        requires
            self.well_formed(),
            (v as int) < self.n(),
        ensures
            r@ == self.preds(v as int),
    {
        &self.pred[v]
    }
}

/// Pushing an in-range index onto an in-range list keeps it in range.
proof fn lemma_push_in_range(g: &DiGraph, s: Seq<usize>, x: usize)
    requires
        g.in_range(s),
        (x as int) < g.n(),
    ensures
        g.in_range(s.push(x)),
{
    assert forall|i: int| 0 <= i < s.push(x).len() implies (#[trigger] s.push(x)[i] as int)
        < g.n() by {
        if i < s.len() {
            assert(s.push(x)[i] == s[i]);
        }
    }
}

/// A pushed sequence contains exactly the old elements and the new one.
pub proof fn lemma_push_contains(s: Seq<usize>, x: usize, y: usize)
    ensures
        s.push(x).contains(y) <==> (s.contains(y) || y == x),
{
    if s.contains(y) {
        let i = choose|i: int| 0 <= i < s.len() && s[i] == y;
        assert(s.push(x)[i] == y);
    }
    assert(s.push(x)[s.len() as int] == x);
    if s.push(x).contains(y) {
        let i = choose|i: int| 0 <= i < s.push(x).len() && s.push(x)[i] == y;
        if i < s.len() {
            assert(s[i] == y);
        }
    }
}

} // verus!
