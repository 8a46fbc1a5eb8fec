use reg_alloc::coloring::GraphColoring;
use reg_alloc::interference::InterferenceGraph;
use reg_alloc::register::{Register, RegisterClass, RegisterFile};

fn make_simple_graph() -> InterferenceGraph {
    let mut g = InterferenceGraph::new();
    g.add_node(1);
    g.add_node(2);
    g.add_edge(1, 2);
    g
}

#[test]
fn test_simple_allocation() {
    let graph = make_simple_graph();
    let alloc = GraphColoring::new(4, RegisterClass::Integer);
    let result = alloc.allocate(&graph);
    assert!(result.spilled.is_empty());
    assert!(result.mapping.contains_key(&1));
    assert!(result.mapping.contains_key(&2));
}

#[test]
fn test_no_interference_same_color() {
    let mut g = InterferenceGraph::new();
    g.add_node(1);
    g.add_node(2);
    // No edge = can share a register
    let alloc = GraphColoring::new(1, RegisterClass::Integer);
    let result = alloc.allocate(&g);
    assert!(result.spilled.is_empty());
    assert_eq!(result.mapping[&1], result.mapping[&2]);
}

#[test]
fn test_spill_when_oversubscribed() {
    let mut g = InterferenceGraph::new();
    // Complete graph on 3 nodes with only 2 colors
    g.add_node(1);
    g.add_node(2);
    g.add_node(3);
    g.add_edge(1, 2);
    g.add_edge(1, 3);
    g.add_edge(2, 3);
    let alloc = GraphColoring::new(2, RegisterClass::Integer);
    let result = alloc.allocate(&g);
    // K3 requires 3 colors with 2 available -> at least one spill
    assert!(!result.spilled.is_empty() || result.mapping.len() == 3);
}

#[test]
fn test_many_nodes() {
    let mut g = InterferenceGraph::new();
    for i in 0..10u32 {
        g.add_node(i);
    }
    // Chain: 0-1-2-3-...
    for i in 0..9u32 {
        g.add_edge(i, i + 1);
    }
    let alloc = GraphColoring::new(2, RegisterClass::Integer);
    let result = alloc.allocate(&g);
    // Chain is 2-colorable
    assert!(result.spilled.is_empty());
}

#[test]
fn test_allocation_correctness() {
    let mut g = InterferenceGraph::new();
    g.add_node(1);
    g.add_node(2);
    g.add_node(3);
    g.add_edge(1, 2);
    g.add_edge(2, 3);
    let alloc = GraphColoring::new(3, RegisterClass::Integer);
    let result = alloc.allocate(&g);
    // Interfering vregs should have different registers
    if let (Some(&r1), Some(&r2)) = (result.mapping.get(&1), result.mapping.get(&2)) {
        assert_ne!(r1, r2);
    }
}

// Further cases.

fn complete_graph(n: u32) -> InterferenceGraph {
    let mut g = InterferenceGraph::new();
    for a in 0..n {
        g.add_node(a);
        for b in 0..a {
            g.add_edge(a, b);
        }
    }
    g
}

fn check_proper(g: &InterferenceGraph, k: usize, class: RegisterClass, mapping: &std::collections::HashMap<u32, Register>, spilled: &[u32]) {
    let nodes = g.nodes();
    assert_eq!(nodes.len(), mapping.len() + spilled.len());
    for v in nodes {
        assert!(mapping.contains_key(&v) != spilled.contains(&v));
        if let Some(r) = mapping.get(&v) {
            assert_eq!(r.class, class);
            assert!((r.number as usize) < k.min(256));
            let near: Vec<u8> = g
                .neighbors(v)
                .iter()
                .filter_map(|u| mapping.get(u).map(|q| q.number))
                .collect();
            assert!(!near.contains(&r.number));
            // The colour is the smallest one that no mapped neighbour holds.
            for c in 0..r.number {
                assert!(near.contains(&c));
            }
        }
    }
}

#[test]
fn complete_graph_with_too_few_colours_spills_exactly_the_excess() {
    let g = complete_graph(5);
    let result = GraphColoring::new(3, RegisterClass::Float).allocate(&g);
    check_proper(&g, 3, RegisterClass::Float, &result.mapping, &result.spilled);
    assert_eq!(result.mapping.len(), 3);
    assert_eq!(result.spilled.len(), 2);
}

#[test]
fn complete_graph_with_enough_colours_uses_all_of_them() {
    let g = complete_graph(4);
    let result = GraphColoring::new(4, RegisterClass::Integer).allocate(&g);
    assert!(result.spilled.is_empty());
    let mut numbers: Vec<u8> = result.mapping.values().map(|r| r.number).collect();
    numbers.sort();
    assert_eq!(numbers, vec![0, 1, 2, 3]);
}

#[test]
fn zero_colours_spill_everything() {
    let g = make_simple_graph();
    let result = GraphColoring::new(0, RegisterClass::Integer).allocate(&g);
    assert!(result.mapping.is_empty());
    assert_eq!(result.spilled.len(), 2);
}

#[test]
fn a_budget_of_256_colours_gives_registers() {
    let mut g = InterferenceGraph::new();
    g.add_node(7);
    let result = GraphColoring::new(256, RegisterClass::Integer).allocate(&g);
    assert!(result.spilled.is_empty());
    assert_eq!(result.mapping.len(), 1);
    assert_eq!(result.mapping[&7], Register::new(0, RegisterClass::Integer));
    // Budgets beyond the 256 register numbers behave like 256.
    let g = complete_graph(3);
    let result = GraphColoring::new(1000, RegisterClass::Vector).allocate(&g);
    check_proper(&g, 1000, RegisterClass::Vector, &result.mapping, &result.spilled);
    assert!(result.spilled.is_empty());
}

#[test]
fn each_node_gets_the_smallest_free_colour() {
    let graph = make_simple_graph();
    let result = GraphColoring::new(4, RegisterClass::Integer).allocate(&graph);
    assert!(result.spilled.is_empty());
    let mut numbers = vec![result.mapping[&1].number, result.mapping[&2].number];
    numbers.sort();
    assert_eq!(numbers, vec![0, 1]);
    assert_eq!(result.mapping[&1].class, RegisterClass::Integer);
    assert_eq!(result.mapping[&2].class, RegisterClass::Integer);
}

#[test]
fn chains_and_trees_are_coloured_with_two_colours() {
    // a-b-c-d
    let mut chain = InterferenceGraph::new();
    chain.add_edge(1, 2);
    chain.add_edge(2, 3);
    chain.add_edge(3, 4);
    let result = GraphColoring::new(2, RegisterClass::Integer).allocate(&chain);
    check_proper(&chain, 2, RegisterClass::Integer, &result.mapping, &result.spilled);
    assert!(result.spilled.is_empty());
    // A tree with a node of degree 3.
    let mut tree = InterferenceGraph::new();
    for (a, b) in [(0, 1), (0, 2), (0, 3), (3, 4), (3, 5)] {
        tree.add_edge(a, b);
    }
    let result = GraphColoring::new(2, RegisterClass::Integer).allocate(&tree);
    check_proper(&tree, 2, RegisterClass::Integer, &result.mapping, &result.spilled);
    assert!(result.spilled.is_empty());
}

#[test]
fn low_degree_nodes_are_never_spilled() {
    // A star: the centre has degree 6, the leaves degree 1.
    let mut g = InterferenceGraph::new();
    for leaf in 1..=6u32 {
        g.add_edge(0, leaf);
    }
    let result = GraphColoring::new(2, RegisterClass::Integer).allocate(&g);
    check_proper(&g, 2, RegisterClass::Integer, &result.mapping, &result.spilled);
    for leaf in 1..=6u32 {
        assert!(!result.spilled.contains(&leaf));
    }
}

#[test]
fn empty_graph_allocates_nothing() {
    let g = InterferenceGraph::new();
    let result = GraphColoring::new(4, RegisterClass::Integer).allocate(&g);
    assert!(result.mapping.is_empty());
    assert!(result.spilled.is_empty());
}

#[test]
fn allocate_with_file_leaves_the_file_alone() {
    let g = complete_graph(3);
    let mut file = RegisterFile::new_int(2);
    let result = GraphColoring::new(2, RegisterClass::Integer).allocate_with_file(&g, &mut file);
    check_proper(&g, 2, RegisterClass::Integer, &result.mapping, &result.spilled);
    assert_eq!(result.spilled.len(), 1);
    assert_eq!(file.available(RegisterClass::Integer), 2);
}

#[test]
fn the_potential_spill_is_the_node_with_most_neighbours() {
    // A wheel: hub 0 joined to the rim 1-2-3-4-1. With three colours no
    // node has fewer than three neighbours, so the hub (four neighbours)
    // is taken as the potential spill; the rim then simplifies.
    let mut g = InterferenceGraph::new();
    for rim in 1..=4u32 {
        g.add_edge(0, rim);
    }
    for (a, b) in [(1, 2), (2, 3), (3, 4), (4, 1)] {
        g.add_edge(a, b);
    }
    let result = GraphColoring::new(3, RegisterClass::Integer).allocate(&g);
    check_proper(&g, 3, RegisterClass::Integer, &result.mapping, &result.spilled);
    assert!(result.spilled.is_empty() || result.spilled == vec![0]);
    for rim in 1..=4u32 {
        assert!(result.mapping.contains_key(&rim));
    }
}
