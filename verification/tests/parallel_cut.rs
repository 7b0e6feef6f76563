use depgraph::graph::DiGraph;
use depgraph::parallel_cut::parallel_cut_suggestions;

fn make_graph(edges: &[(usize, usize)]) -> DiGraph {
    let mut g = DiGraph::new();
    let max_node = edges.iter().flat_map(|(a, b)| [*a, *b]).max().unwrap_or(0);
    for i in 0..=max_node {
        g.add_node(&format!("n{}", i));
    }
    for (from, to) in edges {
        let _ = g.add_edge(*from, *to);
    }
    g
}

#[test]
fn parallel_cut_test_empty_graph() {
    let g = DiGraph::new();
    let closed: Vec<bool> = vec![];
    let result = parallel_cut_suggestions(&g, &closed, 10);

    assert!(result.items.is_empty());
    assert_eq!(result.open_nodes, 0);
}

#[test]
fn parallel_cut_test_single_node() {
    let mut g = DiGraph::new();
    g.add_node("a");
    let closed = vec![false];
    let result = parallel_cut_suggestions(&g, &closed, 10);

    // Single node has no dependents, so no parallel gain
    assert!(result.items.is_empty());
    assert_eq!(result.open_nodes, 1);
}

#[test]
fn test_chain_no_gain() {
    // Chain: 0 -> 1 -> 2 -> 3
    // Completing any node only unblocks 1 dependent (gain = 0)
    let g = make_graph(&[(0, 1), (1, 2), (2, 3)]);
    let closed = vec![false; 4];
    let result = parallel_cut_suggestions(&g, &closed, 10);

    // No node has gain > 0 in a simple chain
    assert!(result.items.is_empty());
}

#[test]
fn test_fork_has_gain() {
    // Fork: 0 -> 1, 0 -> 2, 0 -> 3
    // Completing 0 unblocks 3 nodes, gain = 3 - 1 = 2
    let g = make_graph(&[(0, 1), (0, 2), (0, 3)]);
    let closed = vec![false; 4];
    let result = parallel_cut_suggestions(&g, &closed, 10);

    assert_eq!(result.items.len(), 1);
    assert_eq!(result.items[0].node, 0);
    assert_eq!(result.items[0].parallel_gain, 2); // 3 unblocked - 1 = 2
    assert_eq!(result.items[0].new_actionable, 3);
}

#[test]
fn test_partially_closed() {
    // Diamond: 0 -> 1, 0 -> 2, 1 -> 3, 2 -> 3
    // If 0 is closed, then 1 and 2 are actionable
    // Completing 1 unblocks 0 (3 still blocked by 2)
    // Completing 2 unblocks 0 (3 still blocked by 1)
    let g = make_graph(&[(0, 1), (0, 2), (1, 3), (2, 3)]);
    let closed = vec![true, false, false, false];
    let result = parallel_cut_suggestions(&g, &closed, 10);

    // Neither 1 nor 2 alone unblocks 3 (needs both)
    // So no positive gain
    assert!(result.items.is_empty());
}

#[test]
fn test_diamond_with_one_closed() {
    // Diamond: 0 -> 1, 0 -> 2, 1 -> 3, 2 -> 3
    // If 0 and 1 are closed, completing 2 unblocks 3
    let g = make_graph(&[(0, 1), (0, 2), (1, 3), (2, 3)]);
    let closed = vec![true, true, false, false];
    let result = parallel_cut_suggestions(&g, &closed, 10);

    // Node 2 is actionable and completing it unblocks 3
    // But gain = 1 - 1 = 0 (not positive)
    assert!(result.items.is_empty());
}

#[test]
fn test_multiple_forks() {
    // Two forks: 0 -> {1,2}, 3 -> {4,5,6}
    // Node 0 has gain = 2 - 1 = 1
    // Node 3 has gain = 3 - 1 = 2
    let g = make_graph(&[(0, 1), (0, 2), (3, 4), (3, 5), (3, 6)]);
    let closed = vec![false; 7];
    let result = parallel_cut_suggestions(&g, &closed, 10);

    assert!(!result.items.is_empty());
    // Node 3 should be first (higher gain)
    assert_eq!(result.items[0].node, 3);
    assert_eq!(result.items[0].parallel_gain, 2);
}

#[test]
fn test_limit_respected() {
    // Many forks
    let g = make_graph(&[
        (0, 1),
        (0, 2),
        (3, 4),
        (3, 5),
        (6, 7),
        (6, 8),
        (9, 10),
        (9, 11),
    ]);
    let closed = vec![false; 12];
    let result = parallel_cut_suggestions(&g, &closed, 2);

    assert!(result.items.len() <= 2);
}

#[test]
fn test_current_actionable_count() {
    // Fork: 0 -> 1, 0 -> 2
    // Initially only 0 is actionable
    let g = make_graph(&[(0, 1), (0, 2)]);
    let closed = vec![false; 3];
    let result = parallel_cut_suggestions(&g, &closed, 10);

    assert_eq!(result.current_actionable, 1); // Only node 0
    assert_eq!(result.open_nodes, 3);
}
