//! Dependency-graph analysis: topological ordering, k-longest critical
//! paths, and parallel-cut / unblock ranking over a completion state.

pub mod graph;
pub mod ranking;
pub mod topo;
pub mod k_paths;
pub mod parallel_cut;
pub mod laws;

use vstd::prelude::*;

verus! {

/// A vector of `n` copies of `x`.
pub(crate) fn filled<T: Copy>(n: usize, x: T) -> (r: Vec<T>)
    ensures
        r@.len() == n,
        forall|i: int| 0 <= i < n ==> r@[i] == x,
{
    let mut r: Vec<T> = Vec::new();
    let mut i: usize = 0;
    while i < n
        invariant
            i <= n,
            r@.len() == i,
            forall|j: int| 0 <= j < i ==> r@[j] == x,
        decreases n - i,
    {
        r.push(x);
        i += 1;
    }
    r
}

} // verus!
