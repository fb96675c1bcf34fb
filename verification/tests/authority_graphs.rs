use p2panda_auth::group::authority_graphs::AuthorityGraphs;
use petgraph::graphmap::DiGraphMap;

#[test]
fn graph_builds() {
    let a = 'A';
    let b = 'B';
    let group = 'G';

    let op0: u32 = 0;
    let op1: u32 = 1;

    // No dependencies between nodes, all are concurrent.
    let dep_graph = DiGraphMap::<u32, ()>::new();

    let mut authority = AuthorityGraphs::new(dep_graph);

    // A removes B
    // B removes A
    authority.add_removal(group, a, b, op0);
    authority.add_removal(group, b, a, op1);

    // Manually build the graph.
    authority.build_graph(&group);

    let graph = authority.authority_graph(&group).unwrap();

    let a_op0 = (a, op0);
    let b_op0 = (b, op0);
    let b_op1 = (b, op1);
    let a_op1 = (a, op1);

    assert_eq!(graph.edge_count(), 4);

    assert!(graph.contains_edge(&a_op0, &b_op0));
    assert!(graph.contains_edge(&b_op0, &b_op1));
    assert!(graph.contains_edge(&b_op1, &a_op1));
    assert!(graph.contains_edge(&a_op1, &a_op0));
}

#[test]
fn removal_cycle() {
    let a = 'A';
    let b = 'B';
    let c = 'C';
    let group = 'G';

    let op0: u32 = 0;
    let op1: u32 = 1;
    let op2: u32 = 2;
    let op3: u32 = 3;
    let op4: u32 = 4;
    let op5: u32 = 5;

    // Operation dependency graph:
    //
    //    0
    //  / | \
    // 1  2  3
    //  \ | /
    //    4
    //    |
    //    5
    //
    let mut dep_graph = DiGraphMap::<u32, ()>::new();
    dep_graph.add_node(op0);
    dep_graph.add_node(op1);
    dep_graph.add_node(op2);
    dep_graph.add_node(op3);
    dep_graph.add_node(op4);
    dep_graph.add_node(op5);

    dep_graph.add_edge(op0, op1, ());
    dep_graph.add_edge(op0, op2, ());
    dep_graph.add_edge(op0, op3, ());
    dep_graph.add_edge(op1, op4, ());
    dep_graph.add_edge(op2, op4, ());
    dep_graph.add_edge(op3, op4, ());
    dep_graph.add_edge(op4, op5, ());

    // Cycle:
    //
    // 1: A remove B
    // 2: B remove C
    // 3: C remove A
    //
    let mut authority = AuthorityGraphs::new(dep_graph);

    authority.add_removal(group, a, b, op1);
    authority.add_removal(group, b, c, op2);
    authority.add_removal(group, c, a, op3);

    // This removal is not part of a cycle.
    authority.add_removal(group, c, a, op5);

    assert!(!authority.is_cycle(&group, &op0));
    assert!(authority.is_cycle(&group, &op1));
    assert!(authority.is_cycle(&group, &op2));
    assert!(authority.is_cycle(&group, &op3));
    assert!(!authority.is_cycle(&group, &op4));
    assert!(!authority.is_cycle(&group, &op5));
}

#[test]
fn remove_delegate_cycle() {
    let a = 'A';
    let b = 'B';
    let c = 'C';
    let group = 'G';

    let op0: u32 = 0;
    let op1: u32 = 1;
    let op2: u32 = 2;
    let op3: u32 = 3;

    // Operation dependency graph:
    //
    // 0
    // | \
    // 1  3
    // |
    // 2
    //
    let mut dep_graph = DiGraphMap::<u32, ()>::new();
    dep_graph.add_node(op0);
    dep_graph.add_node(op1);
    dep_graph.add_node(op2);

    dep_graph.add_edge(op0, op1, ());
    dep_graph.add_edge(op1, op2, ());
    dep_graph.add_edge(op0, op3, ());

    // Cycle:
    //
    // 1: B delegate C
    // 2: C remove A
    // 3: A remove B
    //
    let mut authority = AuthorityGraphs::new(dep_graph);
    authority.add_delegation(group, b, c, op1);
    authority.add_removal(group, c, a, op2);
    authority.add_removal(group, a, b, op3);

    assert!(authority.is_cycle(&group, &op1));
    assert!(authority.is_cycle(&group, &op2));
    assert!(authority.is_cycle(&group, &op3));
}

#[test]
fn multi_delegate_chains() {
    let a = 'A';
    let b = 'B';
    let c = 'C';
    let d = 'D';
    let e = 'E';
    let group = 'G';

    let op0: u32 = 0;
    let op1: u32 = 1;
    let op2: u32 = 2;
    let op3: u32 = 3;
    let op4: u32 = 4;

    // Operation dependency graph:
    //
    // 0  1  2
    //       |
    //       3
    //       |
    //       4
    //
    let mut dep_graph = DiGraphMap::<u32, ()>::new();
    dep_graph.add_node(op0);
    dep_graph.add_node(op1);
    dep_graph.add_node(op2);
    dep_graph.add_node(op3);
    dep_graph.add_node(op4);

    dep_graph.add_edge(op2, op3, ());
    dep_graph.add_edge(op3, op4, ());

    // Cycle:
    //
    // 0: A remove B
    // 1: B remove C
    // 2: C delegate D
    // 3: D delegate E
    // 4: E remove A
    //
    let mut authority = AuthorityGraphs::new(dep_graph);

    authority.add_removal(group, a, b, op0);
    authority.add_removal(group, b, c, op1);
    authority.add_delegation(group, c, d, op2);
    authority.add_delegation(group, d, e, op3);
    authority.add_removal(group, e, a, op4);

    // Now the transitive cycle A -> B -> C -> A should be detected.
    assert!(authority.is_cycle(&group, &op0));
    assert!(authority.is_cycle(&group, &op1));
    assert!(authority.is_cycle(&group, &op2));
    assert!(authority.is_cycle(&group, &op3));
    assert!(authority.is_cycle(&group, &op4));
}

#[test]
fn self_removal_is_ignored_and_changes_refresh_cycles() {
    let group = 'G';
    let mut authority = AuthorityGraphs::new(DiGraphMap::<u32, ()>::new());

    // Removing oneself is not recorded.
    authority.add_removal(group, 'A', 'A', 0);
    assert!(!authority.is_cycle(&group, &0));
    assert!(authority.authority_graph(&group).is_none());

    // A single removal is no cycle.
    authority.add_removal(group, 'A', 'B', 1);
    assert!(!authority.is_cycle(&group, &1));
    assert!(authority.authority_graph(&group).is_some());

    // A concurrent counter-removal closes the cycle; the cached result is refreshed.
    authority.add_removal(group, 'B', 'A', 2);
    assert!(authority.authority_graph(&group).is_none());
    assert!(authority.is_cycle(&group, &1));
    assert!(authority.is_cycle(&group, &2));

    // Other groups are not affected.
    assert!(!authority.is_cycle(&'H', &1));
}
