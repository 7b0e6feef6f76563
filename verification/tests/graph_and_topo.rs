use depgraph::graph::{DiGraph, GraphError};
use depgraph::topo::topological_sort;

fn make_graph(edges: &[(usize, usize)]) -> DiGraph {
    let mut g = DiGraph::new();
    let max_node = edges.iter().flat_map(|(a, b)| [*a, *b]).max().unwrap_or(0);
    for i in 0..=max_node {
        g.add_node(&format!("n{}", i));
    }
    for (from, to) in edges {
        let _ = g.add_edge(*from, *to);
    }
    g
}

#[test]
fn test_add_node_returns_dense_indices() {
    let mut g = DiGraph::new();
    assert_eq!(g.node_count(), 0);
    assert_eq!(g.add_node("a"), 0);
    assert_eq!(g.add_node("b"), 1);
    assert_eq!(g.add_node("c"), 2);
    assert_eq!(g.node_count(), 3);
    assert_eq!(g.label(1).unwrap().as_str(), "b");
}

#[test]
fn test_add_edge_out_of_range_is_rejected() {
    let mut g = DiGraph::new();
    g.add_node("a");
    g.add_node("b");
    assert_eq!(g.add_edge(0, 2), Err(GraphError::InvalidNodeIndex));
    assert_eq!(g.add_edge(5, 0), Err(GraphError::InvalidNodeIndex));
    // the failed calls must not have recorded anything
    assert!(g.successors(0).unwrap().is_empty());
    assert!(g.predecessors(1).unwrap().is_empty());
    assert_eq!(g.add_edge(0, 1), Ok(()));
    assert_eq!(g.successors(0).unwrap(), &vec![1usize]);
    assert_eq!(g.predecessors(1).unwrap(), &vec![0usize]);
}

#[test]
fn test_traversal_out_of_range_is_rejected() {
    let mut g = DiGraph::new();
    g.add_node("a");
    assert!(g.successors(1).is_err());
    assert!(g.predecessors(1).is_err());
    assert!(g.label(1).is_err());
}

#[test]
fn test_adjacency_views_agree() {
    let g = make_graph(&[(0, 1), (0, 2), (2, 1), (1, 1)]);
    for u in 0..g.node_count() {
        for v in 0..g.node_count() {
            let forward = g.successors(u).unwrap().contains(&v);
            let backward = g.predecessors(v).unwrap().contains(&u);
            assert_eq!(forward, backward);
        }
    }
}

#[test]
fn test_topo_empty_graph() {
    let g = DiGraph::new();
    assert_eq!(topological_sort(&g), Some(vec![]));
}

#[test]
fn test_topo_order_respects_edges() {
    // 2 -> 0, 2 -> 1, 0 -> 3, 1 -> 3
    let g = make_graph(&[(2, 0), (2, 1), (0, 3), (1, 3)]);
    let order = topological_sort(&g).unwrap();
    assert_eq!(order.len(), 4);
    let pos = |v: usize| order.iter().position(|&x| x == v).unwrap();
    assert!(pos(2) < pos(0));
    assert!(pos(2) < pos(1));
    assert!(pos(0) < pos(3));
    assert!(pos(1) < pos(3));
    // ties broken by ascending node index: 2 first, then 0, 1, then 3
    assert_eq!(order, vec![2, 0, 1, 3]);
}

#[test]
fn test_topo_cycle_reports_none() {
    let g = make_graph(&[(0, 1), (1, 2), (2, 0)]);
    assert_eq!(topological_sort(&g), None);
}

#[test]
fn test_topo_self_loop_is_a_cycle() {
    let g = make_graph(&[(0, 1), (1, 1)]);
    assert_eq!(topological_sort(&g), None);
}
