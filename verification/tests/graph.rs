use std::collections::HashSet;

use p2panda_auth::graph::{concurrent_bubbles, has_path, predecessor_graph, restrict_graph};
use petgraph::graph::DiGraph;
use petgraph::prelude::DiGraphMap;

fn as_set(bubble: &[u32]) -> HashSet<u32> {
    bubble.iter().cloned().collect()
}

#[test]
fn test_linear_chain_no_concurrency() {
    let mut graph = DiGraphMap::new();
    graph.add_edge(1, 2, ());
    graph.add_edge(2, 3, ());
    graph.add_edge(3, 4, ());

    let bubbles = concurrent_bubbles(&graph);
    assert!(bubbles.is_empty());
}

#[test]
fn test_bubble() {
    let mut graph = DiGraphMap::new();
    graph.add_edge(1, 2, ());
    graph.add_edge(1, 3, ());
    graph.add_edge(2, 4, ());
    graph.add_edge(3, 4, ());

    let bubbles = concurrent_bubbles(&graph);

    // 2 and 3 are concurrent.
    assert_eq!(bubbles.len(), 1);
    let expected: HashSet<_> = [2, 3].into_iter().collect();
    assert_eq!(as_set(&bubbles[0]), expected);
}

#[test]
fn test_two_bubbles() {
    let mut graph = DiGraphMap::new();
    // Bubble 1: 1 → 2, 1 → 3, 2 → 4, 3 → 4
    graph.add_edge(1, 2, ());
    graph.add_edge(1, 3, ());
    graph.add_edge(2, 4, ());
    graph.add_edge(3, 4, ());
    // Bubble 2: 4 → 5, 4 → 6, 5 → 7, 6 → 7
    graph.add_edge(4, 5, ());
    graph.add_edge(4, 6, ());
    graph.add_edge(5, 7, ());
    graph.add_edge(6, 7, ());

    let bubbles = concurrent_bubbles(&graph);
    assert_eq!(bubbles.len(), 2);

    let b1: HashSet<_> = [2, 3].into_iter().collect();
    let b2: HashSet<_> = [5, 6].into_iter().collect();

    let sets: Vec<HashSet<u32>> = bubbles.iter().map(|b| as_set(b)).collect();
    assert!(sets.contains(&b1));
    assert!(sets.contains(&b2));
}

#[test]
fn complex_bubble() {
    //       A
    //     /   \
    //    B     C
    //   / \     \
    //  D   E     F
    //   \ /     /
    //    G     H
    //     \   /
    //       I
    //       |
    //       J
    //
    // Operation identifiers: A = 0, B = 1, ..., J = 9.

    let mut graph = DiGraph::new();

    let a = graph.add_node(0u32);
    let b = graph.add_node(1u32);
    let c = graph.add_node(2u32);
    let d = graph.add_node(3u32);
    let e = graph.add_node(4u32);
    let f = graph.add_node(5u32);
    let g = graph.add_node(6u32);
    let h = graph.add_node(7u32);
    let i = graph.add_node(8u32);
    let j = graph.add_node(9u32);

    graph.extend_with_edges(&[
        (a, b),
        (a, c),
        (b, d),
        (b, e),
        (d, g),
        (e, g),
        (c, f),
        (f, h),
        (h, i),
        (g, i),
        (i, j),
    ]);

    let graph_map = DiGraphMap::from_graph(graph);
    let concurrent_bubbles = concurrent_bubbles(&graph_map);

    assert_eq!(concurrent_bubbles.len(), 1);
    let bubble = concurrent_bubbles.first().unwrap();
    for id in &[1u32, 2, 3, 4, 5, 6, 7] {
        assert!(bubble.contains(id));
    }
}

#[test]
fn bubble_members_are_concurrent_chains() {
    // 1 → 2 → 4 and 1 → 3: 3 is concurrent with 2 and with 4, while 2 and 4 are not concurrent;
    // all three are linked through 3.
    let mut graph = DiGraphMap::new();
    graph.add_edge(1, 2, ());
    graph.add_edge(2, 4, ());
    graph.add_edge(1, 3, ());

    let bubbles = concurrent_bubbles(&graph);
    assert_eq!(bubbles.len(), 1);
    let expected: HashSet<u32> = [2, 3, 4].into_iter().collect();
    assert_eq!(as_set(&bubbles[0]), expected);
    // Bubbles are led by their first operation in node order.
    assert_eq!(bubbles[0][0], 2);
}

#[test]
fn path_between_operations() {
    let mut graph = DiGraphMap::new();
    graph.add_edge(1, 2, ());
    graph.add_edge(2, 3, ());
    graph.add_edge(1, 4, ());

    assert!(has_path(&graph, 1, 3));
    assert!(!has_path(&graph, 3, 1));
    assert!(!has_path(&graph, 4, 3));
    // Every operation reaches itself.
    assert!(has_path(&graph, 4, 4));
    // An unknown operation only reaches itself.
    assert!(has_path(&graph, 9, 9));
    assert!(!has_path(&graph, 9, 1));
}

#[test]
fn empty_graph_has_no_bubbles() {
    let graph: DiGraphMap<u32, ()> = DiGraphMap::new();
    assert!(concurrent_bubbles(&graph).is_empty());
}

#[test]
fn predecessor_graph_keeps_dependencies_only() {
    //  1 -> 2 -> 4
    //  1 -> 3 -> 4
    //  3 -> 5
    let mut graph: DiGraphMap<u32, ()> = DiGraphMap::new();
    graph.add_edge(1, 2, ());
    graph.add_edge(1, 3, ());
    graph.add_edge(2, 4, ());
    graph.add_edge(3, 4, ());
    graph.add_edge(3, 5, ());

    let reduced = predecessor_graph(&graph, &[2]);
    let nodes: HashSet<u32> = reduced.nodes().collect();
    assert_eq!(nodes, as_set(&[1, 2]));
    assert!(reduced.contains_edge(1, 2));
    assert_eq!(reduced.edge_count(), 1);

    let reduced = predecessor_graph(&graph, &[4, 5]);
    assert_eq!(reduced.node_count(), 5);
    assert_eq!(reduced.edge_count(), 5);
}

#[test]
fn restrict_graph_removes_other_nodes_with_their_edges() {
    let mut graph: DiGraphMap<u32, ()> = DiGraphMap::new();
    graph.add_edge(1, 2, ());
    graph.add_edge(2, 3, ());
    graph.add_edge(1, 3, ());

    let restricted = restrict_graph(&graph, &vec![1, 3]);
    let nodes: HashSet<u32> = restricted.nodes().collect();
    assert_eq!(nodes, as_set(&[1, 3]));
    assert!(restricted.contains_edge(1, 3));
    assert!(!restricted.contains_edge(1, 2));
    assert_eq!(restricted.edge_count(), 1);
}
