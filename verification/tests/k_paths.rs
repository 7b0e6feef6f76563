use depgraph::graph::DiGraph;
use depgraph::k_paths::k_critical_paths;

fn make_graph(edges: &[(usize, usize)]) -> DiGraph {
    let mut g = DiGraph::new();
    let max_node = edges.iter().flat_map(|(a, b)| [*a, *b]).max().unwrap_or(0);
    for i in 0..=max_node {
        g.add_node(&format!("n{}", i));
    }
    for (from, to) in edges {
        let _ = g.add_edge(*from, *to);
    }
    g
}

#[test]
fn k_paths_test_empty_graph() {
    let g = DiGraph::new();
    let result = k_critical_paths(&g, 5);
    assert!(result.paths.is_empty());
    assert_eq!(result.total_nodes, 0);
}

#[test]
fn k_paths_test_single_node() {
    let mut g = DiGraph::new();
    g.add_node("a");
    let result = k_critical_paths(&g, 5);
    assert!(result.paths.is_empty()); // No paths for isolated node
    assert_eq!(result.total_nodes, 1);
}

#[test]
fn test_single_edge() {
    let g = make_graph(&[(0, 1)]);
    let result = k_critical_paths(&g, 5);

    assert_eq!(result.paths.len(), 1);
    assert_eq!(result.paths[0].nodes, vec![0, 1]);
    assert_eq!(result.paths[0].length, 2);
    assert_eq!(result.max_length, 2);
}

#[test]
fn test_chain() {
    // Chain: 0 -> 1 -> 2 -> 3
    let g = make_graph(&[(0, 1), (1, 2), (2, 3)]);
    let result = k_critical_paths(&g, 5);

    assert!(!result.paths.is_empty());
    // The longest path should be the entire chain
    assert_eq!(result.paths[0].nodes, vec![0, 1, 2, 3]);
    assert_eq!(result.paths[0].length, 4);
    assert_eq!(result.max_length, 4);
}

#[test]
fn test_diamond() {
    // Diamond: 0 -> 1 -> 3, 0 -> 2 -> 3
    let g = make_graph(&[(0, 1), (0, 2), (1, 3), (2, 3)]);
    let result = k_critical_paths(&g, 5);

    // Should find one path of length 3
    assert!(!result.paths.is_empty());
    assert_eq!(result.paths[0].length, 3);
    assert_eq!(result.max_length, 3);
}

#[test]
fn test_multiple_paths() {
    // Two independent chains:
    // 0 -> 1 -> 2 (length 3)
    // 3 -> 4 (length 2)
    let g = make_graph(&[(0, 1), (1, 2), (3, 4)]);
    let result = k_critical_paths(&g, 5);

    assert!(result.paths.len() >= 2);
    // First path should be the longer one
    assert_eq!(result.paths[0].length, 3);
    assert!(result.paths[1].length >= 2);
}

#[test]
fn test_k_limit() {
    // Create many paths
    let g = make_graph(&[(0, 1), (2, 3), (4, 5), (6, 7), (8, 9)]);
    let result = k_critical_paths(&g, 2);

    assert!(result.paths.len() <= 2);
}

#[test]
fn test_cycle_returns_empty() {
    // Cycle: 0 -> 1 -> 2 -> 0
    let g = make_graph(&[(0, 1), (1, 2), (2, 0)]);
    let result = k_critical_paths(&g, 5);

    // Should return empty for cyclic graph
    assert!(result.paths.is_empty());
}
