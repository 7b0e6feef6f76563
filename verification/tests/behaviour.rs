use depgraph::graph::DiGraph;
use depgraph::k_paths::{k_critical_paths, k_critical_paths_default, k_path_nodes};
use depgraph::parallel_cut::{parallel_cut_default, parallel_cut_suggestions, unblock_ranking};

fn make_graph(edges: &[(usize, usize)]) -> DiGraph {
    let mut g = DiGraph::new();
    let max_node = edges.iter().flat_map(|(a, b)| [*a, *b]).max().unwrap_or(0);
    for i in 0..=max_node {
        g.add_node(&format!("n{}", i));
    }
    for (from, to) in edges {
        let _ = g.add_edge(*from, *to);
    }
    g
}

#[test]
fn test_empty_graph_all_operations() {
    let g = DiGraph::new();
    let closed: Vec<bool> = vec![];

    let kp = k_critical_paths(&g, 5);
    assert!(kp.paths.is_empty());
    assert_eq!(kp.total_nodes, 0);
    assert_eq!(kp.max_length, 0);

    let pc = parallel_cut_suggestions(&g, &closed, 10);
    assert!(pc.items.is_empty());
    assert_eq!(pc.open_nodes, 0);
    assert_eq!(pc.current_actionable, 0);

    assert!(unblock_ranking(&g, &closed, 10).is_empty());
}

#[test]
fn test_k_zero_is_wellformed() {
    let g = make_graph(&[(0, 1), (1, 2)]);
    let result = k_critical_paths(&g, 0);
    assert!(result.paths.is_empty());
    assert_eq!(result.total_nodes, 3);
    assert_eq!(result.max_length, 0);
}

#[test]
fn test_limit_zero_is_wellformed() {
    let g = make_graph(&[(0, 1), (0, 2), (0, 3)]);
    let closed = vec![false; 4];
    let result = parallel_cut_suggestions(&g, &closed, 0);
    assert!(result.items.is_empty());
    assert_eq!(result.open_nodes, 4);
    assert_eq!(result.current_actionable, 1);
}

#[test]
fn test_short_closed_set_defaults_to_open() {
    // Fork: 0 -> 1, 0 -> 2, 0 -> 3; closed_set shorter than node count
    let g = make_graph(&[(0, 1), (0, 2), (0, 3)]);
    let closed = vec![false; 2];
    let result = parallel_cut_suggestions(&g, &closed, 10);
    assert_eq!(result.open_nodes, 4);
    assert_eq!(result.items.len(), 1);
    assert_eq!(result.items[0].node, 0);
    assert_eq!(result.items[0].new_actionable, 3);
    assert_eq!(result.items[0].parallel_gain, 2);
}

#[test]
fn test_chain_k_one_returns_full_chain() {
    // 0 -> 1 -> 2 -> 3 -> 4, k = 1: exactly the whole chain
    let g = make_graph(&[(0, 1), (1, 2), (2, 3), (3, 4)]);
    let result = k_critical_paths(&g, 1);
    assert_eq!(result.paths.len(), 1);
    assert_eq!(result.paths[0].nodes, vec![0, 1, 2, 3, 4]);
    assert_eq!(result.paths[0].length, 5);
    assert_eq!(result.max_length, 5);
}

#[test]
fn test_default_k_is_five() {
    let g = make_graph(&[(0, 1), (2, 3), (4, 5), (6, 7), (8, 9), (10, 11), (12, 13)]);
    let result = k_critical_paths_default(&g);
    assert_eq!(result.paths.len(), 5);
}

#[test]
fn test_default_limit_is_ten() {
    // eleven forks with positive gain
    let mut edges: Vec<(usize, usize)> = Vec::new();
    for f in 0..11 {
        let base = f * 3;
        edges.push((base, base + 1));
        edges.push((base, base + 2));
    }
    let g = make_graph(&edges);
    let closed = vec![false; g.node_count()];
    let result = parallel_cut_default(&g, &closed);
    assert_eq!(result.items.len(), 10);
}

#[test]
fn test_k_path_nodes_matches_paths() {
    let g = make_graph(&[(0, 1), (1, 2), (3, 4)]);
    let full = k_critical_paths(&g, 3);
    let nodes = k_path_nodes(&g, 3);
    assert_eq!(nodes.len(), full.paths.len());
    for (i, p) in full.paths.iter().enumerate() {
        assert_eq!(nodes[i], p.nodes);
    }
}

#[test]
fn test_paths_are_real_paths() {
    // every returned sequence follows real edges, and length == node count
    let g = make_graph(&[(0, 2), (2, 4), (1, 2), (4, 5), (2, 5), (3, 5)]);
    let result = k_critical_paths(&g, 6);
    assert!(!result.paths.is_empty());
    for p in &result.paths {
        assert_eq!(p.length, p.nodes.len());
        for w in p.nodes.windows(2) {
            assert!(g.successors(w[0]).unwrap().contains(&w[1]));
        }
    }
}

#[test]
fn test_truncate_before_filter_quirk() {
    // 3 -> 4 is the only edge; nodes 0, 1, 2 are isolated.
    // With k = 2 the ranked candidates are (4, dist 1) then (0, dist 0):
    // the isolated node occupies the second slot and is filtered away only
    // after truncation, so a single path comes back even though k = 2.
    let g = make_graph(&[(3, 4)]);
    let result = k_critical_paths(&g, 2);
    assert_eq!(result.paths.len(), 1);
    assert_eq!(result.paths[0].nodes, vec![3, 4]);
}

#[test]
fn test_ranking_ties_ascending_index() {
    // two forks of equal gain: lower node index first
    let g = make_graph(&[(5, 1), (5, 2), (0, 3), (0, 4)]);
    let closed = vec![false; 6];
    let result = parallel_cut_suggestions(&g, &closed, 10);
    assert_eq!(result.items.len(), 2);
    assert_eq!(result.items[0].node, 0);
    assert_eq!(result.items[1].node, 5);
}

#[test]
fn test_unblock_ranking_keeps_zero_gain() {
    // chain: every open node unblocks at most one dependent
    let g = make_graph(&[(0, 1), (1, 2)]);
    let closed = vec![false; 3];
    let ranking = unblock_ranking(&g, &closed, 10);
    assert_eq!(ranking, vec![(0, 1), (1, 1), (2, 0)]);
}

#[test]
fn test_unblock_ranking_counts_and_limit() {
    // fork at 0, with 1 already closed
    let g = make_graph(&[(0, 1), (0, 2), (0, 3), (2, 3)]);
    let closed = vec![false, true, false, false];
    let ranking = unblock_ranking(&g, &closed, 2);
    // completing 0 unblocks 2 alone (1 is closed, 3 still waits for 2);
    // completing 2 unblocks nothing, since 3 also waits for the open 0
    assert_eq!(ranking.len(), 2);
    assert_eq!(ranking[0], (0, 1));
    assert_eq!(ranking[1], (2, 0));
}

#[test]
fn test_closed_nodes_are_not_suggested() {
    let g = make_graph(&[(0, 1), (0, 2), (0, 3)]);
    let closed = vec![true, false, false, false];
    let result = parallel_cut_suggestions(&g, &closed, 10);
    assert!(result.items.is_empty());
    assert_eq!(result.open_nodes, 3);
    assert_eq!(result.current_actionable, 3);
}

#[test]
fn test_current_actionable_independent_of_ranking() {
    // 0 closed; 1, 2 actionable; 3 blocked by both
    let g = make_graph(&[(0, 1), (0, 2), (1, 3), (2, 3)]);
    let closed = vec![true, false, false, false];
    let result = parallel_cut_suggestions(&g, &closed, 0);
    assert_eq!(result.current_actionable, 2);
    assert_eq!(result.open_nodes, 3);
}

#[test]
fn test_diamond_takes_first_maximal_predecessor() {
    // nodes 1 and 2 both attain the top distance into 3; the reconstruction
    // follows the first attaining predecessor in list order, so the path
    // runs through 1, never through 2
    let g = make_graph(&[(0, 1), (0, 2), (1, 3), (2, 3)]);
    let result = k_critical_paths(&g, 1);
    assert_eq!(result.paths.len(), 1);
    assert_eq!(result.paths[0].nodes, vec![0, 1, 3]);
}

#[test]
fn test_repeated_calls_agree() {
    let g = make_graph(&[(0, 2), (1, 2), (2, 3), (2, 4)]);
    let a = k_critical_paths(&g, 3);
    let b = k_critical_paths(&g, 3);
    assert_eq!(a.total_nodes, b.total_nodes);
    assert_eq!(a.max_length, b.max_length);
    assert_eq!(a.paths.len(), b.paths.len());
    for (p, q) in a.paths.iter().zip(b.paths.iter()) {
        assert_eq!(p.nodes, q.nodes);
        assert_eq!(p.length, q.length);
    }
}

#[test]
fn test_duplicate_edges_count_per_edge() {
    // the same edge twice is kept twice, and each occurrence counts
    let mut g = DiGraph::new();
    g.add_node("a");
    g.add_node("b");
    assert_eq!(g.add_edge(0, 1), Ok(()));
    assert_eq!(g.add_edge(0, 1), Ok(()));
    assert_eq!(g.successors(0).unwrap(), &vec![1usize, 1usize]);
    let closed = vec![false; 2];
    let result = parallel_cut_suggestions(&g, &closed, 10);
    assert_eq!(result.items.len(), 1);
    assert_eq!(result.items[0].node, 0);
    assert_eq!(result.items[0].new_actionable, 2);
    assert_eq!(result.items[0].parallel_gain, 1);
}

#[test]
fn test_cycle_keeps_total_nodes() {
    let g = make_graph(&[(0, 1), (1, 0), (2, 3)]);
    let result = k_critical_paths(&g, 5);
    assert!(result.paths.is_empty());
    assert_eq!(result.total_nodes, 4);
    assert_eq!(result.max_length, 0);
}
