use reg_alloc::interference::InterferenceGraph;
use reg_alloc::liveness::{LivenessAnalysis, LivenessBlock};
use std::collections::HashSet;

#[test]
fn test_empty_graph() {
    let g = InterferenceGraph::new();
    assert_eq!(g.node_count(), 0);
}

#[test]
fn test_add_nodes() {
    let mut g = InterferenceGraph::new();
    g.add_node(1);
    g.add_node(2);
    assert_eq!(g.node_count(), 2);
    assert_eq!(g.edge_count(), 0);
}

#[test]
fn test_add_edge() {
    let mut g = InterferenceGraph::new();
    g.add_node(1);
    g.add_node(2);
    g.add_edge(1, 2);
    assert!(g.interferes(1, 2));
    assert!(g.interferes(2, 1));
    assert_eq!(g.degree(1), 1);
    assert_eq!(g.degree(2), 1);
}

#[test]
fn test_remove_node() {
    let mut g = InterferenceGraph::new();
    g.add_node(1);
    g.add_node(2);
    g.add_edge(1, 2);
    g.remove_node(1);
    assert_eq!(g.node_count(), 1);
    assert_eq!(g.degree(2), 0);
}

#[test]
fn test_find_low_degree() {
    let mut g = InterferenceGraph::new();
    g.add_node(1);
    g.add_node(2);
    g.add_node(3);
    g.add_edge(1, 2);
    g.add_edge(1, 3);
    // Node 2 has degree 1, node 3 has degree 1
    assert!(g.find_low_degree(2).is_some());
}

#[test]
fn test_no_self_edge() {
    let mut g = InterferenceGraph::new();
    g.add_node(1);
    g.add_edge(1, 1);
    assert_eq!(g.degree(1), 0);
}

// Further cases.

fn sorted(mut v: Vec<u32>) -> Vec<u32> {
    v.sort();
    v
}

#[test]
fn add_edge_creates_missing_nodes_once() {
    let mut g = InterferenceGraph::new();
    g.add_edge(4, 7);
    g.add_edge(7, 4);
    g.add_edge(4, 7);
    assert_eq!(g.node_count(), 2);
    assert_eq!(g.edge_count(), 1);
    assert_eq!(g.degree(4), 1);
    assert_eq!(g.degree(7), 1);
    // A self edge on an absent node creates nothing.
    g.add_edge(9, 9);
    assert_eq!(g.node_count(), 2);
    assert!(!g.interferes(9, 9));
}

#[test]
fn add_node_twice_keeps_edges() {
    let mut g = InterferenceGraph::new();
    g.add_edge(1, 2);
    g.add_node(1);
    assert!(g.interferes(1, 2));
    assert_eq!(g.degree(1), 1);
    assert_eq!(g.node_count(), 2);
}

#[test]
fn edge_count_counts_each_pair_once() {
    let mut g = InterferenceGraph::new();
    for (a, b) in [(1, 2), (1, 3), (2, 3), (3, 4)] {
        g.add_edge(a, b);
    }
    assert_eq!(g.edge_count(), 4);
    assert_eq!(g.degree(3), 3);
    assert_eq!(g.degree(99), 0);
}

#[test]
fn remove_node_returns_neighbours_and_drops_edges() {
    let mut g = InterferenceGraph::new();
    g.add_edge(1, 2);
    g.add_edge(1, 3);
    g.add_edge(2, 3);
    let nb = g.remove_node(1);
    let expected: HashSet<u32> = [2, 3].into_iter().collect();
    assert_eq!(nb, expected);
    assert_eq!(g.node_count(), 2);
    assert_eq!(g.edge_count(), 1);
    assert!(!g.interferes(2, 1));
    assert!(g.interferes(2, 3));
    // Removing an absent node returns no neighbours and changes nothing.
    assert!(g.remove_node(42).is_empty());
    assert_eq!(g.node_count(), 2);
}

#[test]
fn neighbors_and_nodes_list_each_once() {
    let mut g = InterferenceGraph::new();
    g.add_edge(5, 6);
    g.add_edge(5, 7);
    g.add_node(8);
    assert_eq!(sorted(g.neighbors(5)), vec![6, 7]);
    assert_eq!(sorted(g.neighbors(8)), Vec::<u32>::new());
    assert_eq!(sorted(g.neighbors(1)), Vec::<u32>::new());
    assert_eq!(sorted(g.nodes()), vec![5, 6, 7, 8]);
}

#[test]
fn find_low_degree_respects_the_bound() {
    let mut g = InterferenceGraph::new();
    g.add_edge(1, 2);
    g.add_edge(1, 3);
    // Only nodes of degree < 2 qualify: 2 and 3.
    let v = g.find_low_degree(2).unwrap();
    assert!(v == 2 || v == 3);
    assert_eq!(g.find_low_degree(1), None);
    assert_eq!(InterferenceGraph::new().find_low_degree(5), None);
}

#[test]
fn default_and_clone() {
    let g = InterferenceGraph::default();
    assert_eq!(g.node_count(), 0);
    let mut h = InterferenceGraph::new();
    h.add_edge(1, 2);
    let c = h.clone();
    h.remove_node(1);
    assert!(c.interferes(1, 2));
    assert_eq!(c.node_count(), 2);
}

fn set(v: &[u32]) -> HashSet<u32> {
    v.iter().copied().collect()
}

#[test]
fn graph_from_liveness_links_overlapping_ranges() {
    // vreg 1 spans blocks 0..1, vreg 2 spans 1..2, vreg 3 spans 3..3.
    let blocks = vec![
        LivenessBlock { id: 0, defs: set(&[1]), uses: set(&[]), successors: vec![1] },
        LivenessBlock { id: 1, defs: set(&[2]), uses: set(&[1]), successors: vec![2] },
        LivenessBlock { id: 2, defs: set(&[]), uses: set(&[2]), successors: vec![3] },
        LivenessBlock { id: 3, defs: set(&[3]), uses: set(&[3]), successors: vec![] },
    ];
    let analysis = LivenessAnalysis::analyze(&blocks);
    let g = InterferenceGraph::from_liveness(&analysis);
    assert_eq!(g.node_count(), 3);
    assert!(g.interferes(1, 2));
    assert!(g.interferes(2, 1));
    assert!(!g.interferes(1, 3));
    assert!(!g.interferes(2, 3));
    assert_eq!(g.edge_count(), 1);
    assert_eq!(g.degree(3), 0);
}

#[test]
fn degrees_sum_to_twice_the_edge_count() {
    let mut g = InterferenceGraph::new();
    for (a, b) in [(1, 2), (2, 3), (3, 1), (3, 4), (5, 6)] {
        g.add_edge(a, b);
    }
    g.add_node(9);
    let total: usize = g.nodes().iter().map(|v| g.degree(*v)).sum();
    assert_eq!(total, 2 * g.edge_count());
    assert_eq!(g.edge_count(), 5);
    g.remove_node(3);
    let total: usize = g.nodes().iter().map(|v| g.degree(*v)).sum();
    assert_eq!(total, 2 * g.edge_count());
    assert_eq!(g.edge_count(), 2);
}

#[test]
fn checked_edge_count_matches_edge_count() {
    let mut g = InterferenceGraph::new();
    assert_eq!(g.checked_edge_count(), Some(0));
    g.add_edge(1, 2);
    g.add_edge(2, 3);
    g.add_node(4);
    assert_eq!(g.checked_edge_count(), Some(2));
    assert_eq!(g.checked_edge_count(), Some(g.edge_count()));
}
