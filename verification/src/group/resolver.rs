//! Strong remove group resolver implementation.
use std::marker::PhantomData;

use petgraph::graphmap::DiGraphMap;
use vstd::prelude::*;
use vstd::std_specs::cmp::PartialEqSpec;

use crate::access::AccessLevel;
use crate::graph::{
    acyclic, all_bubbles, bubble_views, concurrent, concurrent_bubbles, concurrent_operations, contains_node, copy_graph,
    graph_edges, graph_nodes, is_bubble, lemma_acyclic_subgraph, lemma_bubble_component, lemma_bubble_not_reentered,
    ancestors, edges_within, is_concurrency_chain, is_path, is_sink, lemma_ancestors_shrink, lemma_edge_reaches, lemma_fresh_sink, lemma_reaches_sink, lemma_reaches_trans, sink_nodes, lemma_linked_same_nodes, lemma_lone_component, lemma_order_reaches, linked, node_list, reaches, respects_edges,
    restrict_graph, topological_order, tips, lemma_tips,
};
use crate::group::action::GroupAction;
use crate::group::authority_graphs::{cycle_op, lemma_cycle_op_same_changes, same_elements, AuthorityGraphs, Change};
use crate::group::crdt::{
    apply_action, apply_outcome, apply_remove_unsafe, clones_exact, lemma_apply_outcome_unique, merged_view, result_state,
    GroupCrdtInnerError, MembersView, StateChangeResult,
};
use crate::group::member::{member_id, GroupMember};
use crate::group::operation_graph::{
    action_applicable, added_operation, applicable_to, concurrent_to, dependencies_recorded, dependency_edges,
    first_entry, is_empty_inner, first_key_index, lemma_counters_fit, lemma_state_at_independent,
    local_validation, manager_group_action, process_succeeds, processed, put_entry, same_nodes, state_before, tips_recorded, GroupCrdtInnerState,
};
use crate::group::state::{conditions_ordered, has_key, is_member_spec, MemberState};
use crate::traits::{IdentityHandle, Operation, Resolver};

verus! {

/// The operation recorded with identifier `id`: the first entry with this key.
pub open spec fn stored<M>(operations: Seq<(u32, M)>, id: u32) -> M {
    operations[first_key_index(operations, id)].1
}

proof fn lemma_push_contains(s: Seq<u32>, v: u32, x: u32)
    ensures
        s.push(v).contains(x) <==> (s.contains(x) || x == v),
{
    if s.push(v).contains(x) {
        let j = choose|j: int| 0 <= j < s.push(v).len() && s.push(v)[j] == x;
        if j < s.len() {
            assert(s[j] == x);
        }
    }
    if s.contains(x) {
        let j = choose|j: int| 0 <= j < s.len() && s[j] == x;
        assert(s.push(v)[j] == x);
    }
    if x == v {
        assert(s.push(v)[s.len() as int] == x);
    }
}

/// Every recorded operation is stored under its own identifier.
pub open spec fn operation_ids_match<ID: Copy, C, M: Operation<ID, u32, C>>(operations: Seq<(u32, M)>) -> bool {
    forall|j: int| 0 <= j < operations.len() ==> (#[trigger] operations[j]).1.operation_id() == operations[j].0
}

/// Below a position holding key `k` there is a first position holding it.
proof fn lemma_first_key<V>(s: Seq<(u32, V)>, k: u32, i: int)
    requires
        0 <= i < s.len(),
        s[i].0 == k,
    ensures
        exists|f: int| 0 <= f <= i && s[f].0 == k && forall|j: int| 0 <= j < f ==> s[j].0 != k,
    decreases i,
{
    if exists|j: int| 0 <= j < i && s[j].0 == k {
        let j = choose|j: int| 0 <= j < i && s[j].0 == k;
        lemma_first_key(s, k, j);
    } else {
        assert(0 <= i <= i && s[i].0 == k && forall|j: int| 0 <= j < i ==> s[j].0 != k);
    }
}

proof fn lemma_stored_id<ID: Copy, C, M: Operation<ID, u32, C>>(operations: Seq<(u32, M)>, id: u32)
    requires
        operation_ids_match(operations),
        has_key(operations, id),
    ensures
        stored(operations, id).operation_id() == id,
{
    let i = choose|i: int| 0 <= i < operations.len() && operations[i].0 == id;
    lemma_first_key(operations, id, i);
    let f = first_key_index(operations, id);
    assert(0 <= f < operations.len() && operations[f].0 == id);
    assert(operations[f].1.operation_id() == operations[f].0);
}

/// The operation recorded with identifier `id`, if any.
fn get_operation<M>(operations: &Vec<(u32, M)>, id: u32) -> (r: Option<&M>)
    ensures
        match r {
            Some(op) => has_key(operations@, id) && *op == stored(operations@, id),
            None => !has_key(operations@, id),
        },
{
    match first_entry(operations, id) {
        Some(i) => Some(&operations[i].1),
        None => None,
    }
}

/// The member removed by the action, or demoted by it below `Manage` access.
pub open spec fn removed_manager<ID, C>(action: GroupAction<ID, C>) -> Option<ID> {
    match action {
        GroupAction::Remove { member } => Some(member_id(member)),
        GroupAction::Demote { member, access } => if access.level != AccessLevel::Manage {
            Some(member_id(member))
        } else {
            None
        },
        _ => None,
    }
}

/// The member added with `Manage` access by the action, or promoted to it.
pub open spec fn added_manager<ID, C>(action: GroupAction<ID, C>) -> Option<ID> {
    match action {
        GroupAction::Add { member, access } => if access.level == AccessLevel::Manage {
            Some(member_id(member))
        } else {
            None
        },
        GroupAction::Promote { member, access } => if access.level == AccessLevel::Manage {
            Some(member_id(member))
        } else {
            None
        },
        _ => None,
    }
}

/// The member removed by the operation, or demoted by it below `Manage` access.
fn removed_or_demoted_manager<ID: IdentityHandle, C, M: Operation<ID, u32, C>>(operation: &M) -> (r: Option<ID>)
    ensures
        r == removed_manager(operation.operation_action()),
{
    match operation.action() {
        GroupAction::Remove { member } => Some(member.id()),
        GroupAction::Demote { member, access } => if !access.is_manage() {
            Some(member.id())
        } else {
            None
        },
        _ => None,
    }
}

/// The member added with `Manage` access by the operation, or promoted to it.
fn added_or_promoted_manager<ID: IdentityHandle, C, M: Operation<ID, u32, C>>(operation: &M) -> (r: Option<ID>)
    ensures
        r == added_manager(operation.operation_action()),
{
    match operation.action() {
        GroupAction::Add { member, access } => if access.is_manage() {
            Some(member.id())
        } else {
            None
        },
        GroupAction::Promote { member, access } => if access.is_manage() {
            Some(member.id())
        } else {
            None
        },
        _ => None,
    }
}

/// The operation adds `removed` to group `group_id` again.
pub open spec fn readds<ID: Copy, C, M: Operation<ID, u32, C>>(group_id: ID, removed: ID, operation: M) -> bool {
    &&& operation.operation_group() == group_id
    &&& operation.operation_action() matches GroupAction::Add { member, .. } && member_id(member) == removed
}

/// The operation is an action of `removed` in group `group_id`.
pub open spec fn acts_in<ID: Copy, C, M: Operation<ID, u32, C>>(group_id: ID, removed: ID, operation: M) -> bool {
    operation.operation_group() == group_id && operation.operation_author() == removed
}

/// Returns `true` if the operation adds `removed` to group `group_id` again.
fn is_readd<ID: IdentityHandle, C, M: Operation<ID, u32, C>>(group_id: ID, removed: ID, operation: &M) -> (r: bool)
    ensures
        r == readds(group_id, removed, *operation),
{
    if !group_id.is_same(&operation.group_id()) {
        return false;
    }
    match operation.action() {
        GroupAction::Add { member, .. } => member.id().is_same(&removed),
        _ => false,
    }
}

/// Returns `true` if the operation is an action of `removed` in group `group_id`.
fn is_removed<ID: IdentityHandle, C, M: Operation<ID, u32, C>>(group_id: ID, removed: ID, operation: &M) -> (r: bool)
    ensures
        r == acts_in(group_id, removed, *operation),
{
    group_id.is_same(&operation.group_id()) && operation.author().is_same(&removed)
}

/// Removals registered for group `g` by the operations `nodes`, in order: the author, the removed
/// member and the operation, where an author removing itself is left out.
pub open spec fn removal_changes<ID: Copy, C, M: Operation<ID, u32, C>>(
    operations: Seq<(u32, M)>,
    nodes: Seq<u32>,
    g: ID,
) -> Seq<Change<ID>>
    decreases nodes.len(),
{
    if nodes.len() == 0 {
        Seq::empty()
    } else {
        let rest = removal_changes(operations, nodes.drop_last(), g);
        let id = nodes.last();
        let op = stored(operations, id);
        match removed_manager(op.operation_action()) {
            Some(m) => if op.operation_group() == g && op.operation_author() != m {
                rest.push((op.operation_author(), m, id))
            } else {
                rest
            },
            None => rest,
        }
    }
}

/// Delegations registered for group `g` by the operations `nodes`, in order: the author, the
/// member added or promoted to `Manage` access and the operation.
pub open spec fn delegation_changes<ID: Copy, C, M: Operation<ID, u32, C>>(
    operations: Seq<(u32, M)>,
    nodes: Seq<u32>,
    g: ID,
) -> Seq<Change<ID>>
    decreases nodes.len(),
{
    if nodes.len() == 0 {
        Seq::empty()
    } else {
        let rest = delegation_changes(operations, nodes.drop_last(), g);
        let id = nodes.last();
        let op = stored(operations, id);
        match added_manager(op.operation_action()) {
            Some(m) => if op.operation_group() == g {
                rest.push((op.operation_author(), m, id))
            } else {
                rest
            },
            None => rest,
        }
    }
}

/// Every node is a recorded operation.
pub open spec fn all_recorded<M>(operations: Seq<(u32, M)>, nodes: Seq<u32>) -> bool {
    forall|j: int| 0 <= j < nodes.len() ==> has_key(operations, #[trigger] nodes[j])
}

/// The authority graphs of the operations of a bubble: every removal or demotion of a manager,
/// and every addition or promotion of a manager, registered in node order.
///
/// Fails when a node is not a recorded operation.
fn build_authority_graphs<ID: IdentityHandle, C, M: Operation<ID, u32, C>>(
    operations: &Vec<(u32, M)>,
    bubble_graph: &DiGraphMap<u32, ()>,
) -> (r: Result<AuthorityGraphs<ID>, GroupCrdtInnerError<u32>>)
    ensures
        match r {
            Ok(ag) => {
                &&& ag.wf()
                &&& ag.deps() == graph_edges(*bubble_graph)
                &&& all_recorded(operations@, graph_nodes(*bubble_graph))
                &&& forall|g: ID| #[trigger] ag.removals_of(g) == removal_changes(operations@, graph_nodes(*bubble_graph), g)
                &&& forall|g: ID| #[trigger] ag.delegations_of(g) == delegation_changes(operations@, graph_nodes(*bubble_graph), g)
            },
            Err(e) => e matches GroupCrdtInnerError::OperationNotFound(id) && graph_nodes(*bubble_graph).contains(id)
                && !has_key(operations@, id),
        },
{
    let ghost ops = operations@;
    let mut ag: AuthorityGraphs<ID> = AuthorityGraphs::new(copy_graph(bubble_graph));
    let nodes = node_list(bubble_graph);
    let mut i: usize = 0;
    while i < nodes.len()
        invariant
            i <= nodes@.len(),
            ops == operations@,
            nodes@ == graph_nodes(*bubble_graph),
            ag.wf(),
            ag.deps() == graph_edges(*bubble_graph),
            all_recorded(ops, nodes@.take(i as int)),
            forall|g: ID| #[trigger] ag.removals_of(g) == removal_changes(ops, nodes@.take(i as int), g),
            forall|g: ID| #[trigger] ag.delegations_of(g) == delegation_changes(ops, nodes@.take(i as int), g),
        decreases nodes@.len() - i,
    {
        let id = nodes[i];
        let ghost prefix = nodes@.take(i + 1);
        proof {
            assert(prefix.drop_last() =~= nodes@.take(i as int));
            assert(prefix.last() == id);
        }
        let operation = match get_operation(operations, id) {
            Some(operation) => operation,
            None => {
                proof {
                    assert(nodes@.contains(id));
                }
                return Err(GroupCrdtInnerError::OperationNotFound(id));
            },
        };
        let author = operation.author();
        let group_id = operation.group_id();
        match removed_or_demoted_manager(operation) {
            Some(removed) => ag.add_removal(group_id, author, removed, id),
            None => {},
        }
        match added_or_promoted_manager(operation) {
            Some(added) => ag.add_delegation(group_id, author, added, id),
            None => {},
        }
        proof {
            assert forall|j: int| 0 <= j < prefix.len() implies has_key(ops, #[trigger] prefix[j]) by {
                if j < i {
                    assert(prefix[j] == nodes@.take(i as int)[j]);
                }
            }
        }
        i = i + 1;
    }
    proof {
        assert(nodes@.take(nodes@.len() as int) =~= nodes@);
    }
    Ok(ag)
}

/// The operation `r` (by its action) is part of a mutual remove cycle: it removes, demotes, adds
/// or promotes a manager, and it is in a cycle of the authority graph of its group.
pub open spec fn mutual_remove<ID: Copy, C, M: Operation<ID, u32, C>>(
    operation: M,
    removals: Seq<Change<ID>>,
    delegations: Seq<Change<ID>>,
    deps: Set<(u32, u32)>,
) -> bool {
    (removed_manager(operation.operation_action()) is Some || added_manager(operation.operation_action()) is Some)
        && cycle_op(removals, delegations, deps, operation.operation_id())
}

/// Returns `true` if the operation with identifier `id` removes, demotes, adds or promotes a
/// manager and is part of a mutual remove cycle of its group.
fn is_mutual_remove<ID: IdentityHandle, C, M: Operation<ID, u32, C>>(operation: &M, authority_graphs: &mut AuthorityGraphs<ID>) -> (r: bool)
    requires
        old(authority_graphs).wf(),
    ensures
        final(authority_graphs).wf(),
        final(authority_graphs).deps() == old(authority_graphs).deps(),
        forall|g: ID| #[trigger] final(authority_graphs).removals_of(g) == old(authority_graphs).removals_of(g),
        forall|g: ID| #[trigger] final(authority_graphs).delegations_of(g) == old(authority_graphs).delegations_of(g),
        r == mutual_remove(
            *operation,
            old(authority_graphs).removals_of(operation.operation_group()),
            old(authority_graphs).delegations_of(operation.operation_group()),
            old(authority_graphs).deps(),
        ),
{
    let removed = removed_or_demoted_manager(operation);
    let added = added_or_promoted_manager(operation);
    if removed.is_none() && added.is_none() {
        return false;
    }
    let group_id = operation.group_id();
    authority_graphs.is_cycle(&group_id, &operation.id())
}

/// Operation `x` is filtered out because of the removal or demotion `r`: `x` is concurrent to
/// `r`, and is an action of the removed member in the same group or adds it to the group again.
pub open spec fn filtered_by<ID: Copy, C, M: Operation<ID, u32, C>>(
    operations: Seq<(u32, M)>,
    edges: Set<(u32, u32)>,
    r: u32,
    x: u32,
) -> bool {
    let remove = stored(operations, r);
    match removed_manager(remove.operation_action()) {
        Some(m) => concurrent(edges, r, x) && (acts_in(remove.operation_group(), m, stored(operations, x))
            || readds(remove.operation_group(), m, stored(operations, x))),
        None => false,
    }
}

/// Operation `x` of the bubble is filtered out because of some removal or demotion of the
/// operations `removals` of the bubble.
pub open spec fn filtered_in<ID: Copy, C, M: Operation<ID, u32, C>>(
    operations: Seq<(u32, M)>,
    graph: DiGraphMap<u32, ()>,
    bubble: Seq<u32>,
    removals: Seq<u32>,
    x: u32,
) -> bool {
    &&& bubble.contains(x)
    &&& graph_nodes(graph).contains(x)
    &&& exists|j: int| 0 <= j < removals.len() && filtered_by(operations, graph_edges(graph), #[trigger] removals[j], x)
}

/// Operation `r` of the bubble removes or demotes a manager in a mutual remove cycle.
pub open spec fn mutual_in<ID: Copy, C, M: Operation<ID, u32, C>>(
    operations: Seq<(u32, M)>,
    bubble: Seq<u32>,
    authority_graphs: AuthorityGraphs<ID>,
    r: u32,
) -> bool {
    let op = stored(operations, r);
    &&& bubble.contains(r)
    &&& removed_manager(op.operation_action()) is Some
    &&& mutual_remove(
        op,
        authority_graphs.removals_of(op.operation_group()),
        authority_graphs.delegations_of(op.operation_group()),
        authority_graphs.deps(),
    )
}

/// Construct the operation filter of a bubble based on "strong remove" rules: for every removal
/// or demotion of a manager in the bubble, the concurrent operations of the bubble which are
/// actions of the removed member in that group, or add it to the group again, are filtered out,
/// and removals which are part of a mutual remove cycle are noted. The filter and the mutual
/// removes of the state are replaced by these.
///
/// Fails when an operation of the bubble which is looked up is not recorded.
fn compute_filter<ID: IdentityHandle, C, M: Operation<ID, u32, C>>(
    y: GroupCrdtInnerState<ID, C, M>,
    bubble: &Vec<u32>,
    authority_graphs: &mut AuthorityGraphs<ID>,
) -> (r: Result<GroupCrdtInnerState<ID, C, M>, GroupCrdtInnerError<u32>>)
    requires
        old(authority_graphs).wf(),
    ensures
        final(authority_graphs).wf(),
        final(authority_graphs).deps() == old(authority_graphs).deps(),
        forall|g: ID| #[trigger] final(authority_graphs).removals_of(g) == old(authority_graphs).removals_of(g),
        forall|g: ID| #[trigger] final(authority_graphs).delegations_of(g) == old(authority_graphs).delegations_of(g),
        all_recorded(y.operations@, bubble@) ==> r is Ok,
        match r {
            Ok(z) => {
                &&& z.operations == y.operations
                &&& z.states == y.states
                &&& z.graph == y.graph
                &&& z.ignore@.no_duplicates()
                &&& z.mutual_removes@.no_duplicates()
                &&& forall|x: u32| #[trigger] z.ignore@.contains(x) <==> filtered_in(y.operations@, y.graph, bubble@, bubble@, x)
                &&& forall|x: u32| #[trigger] z.mutual_removes@.contains(x) <==> mutual_in(y.operations@, bubble@, *old(authority_graphs), x)
            },
            Err(e) => e matches GroupCrdtInnerError::OperationNotFound(id) && bubble@.contains(id) && !has_key(y.operations@, id),
        },
{
    let ghost ops = y.operations@;
    let ghost edges = graph_edges(y.graph);
    let ghost ag0 = *authority_graphs;
    let mut filter: Vec<u32> = Vec::new();
    let mut mutual_removes: Vec<u32> = Vec::new();
    let mut i: usize = 0;
    while i < bubble.len()
        invariant
            i <= bubble@.len(),
            ops == y.operations@,
            edges == graph_edges(y.graph),
            ag0 == *old(authority_graphs),
            authority_graphs.wf(),
            authority_graphs.deps() == ag0.deps(),
            forall|g: ID| #[trigger] authority_graphs.removals_of(g) == ag0.removals_of(g),
            forall|g: ID| #[trigger] authority_graphs.delegations_of(g) == ag0.delegations_of(g),
            all_recorded(ops, bubble@.take(i as int)),
            filter@.no_duplicates(),
            mutual_removes@.no_duplicates(),
            forall|x: u32| #[trigger] filter@.contains(x) <==> filtered_in(ops, y.graph, bubble@, bubble@.take(i as int), x),
            forall|x: u32|
                #[trigger] mutual_removes@.contains(x) <==> (bubble@.take(i as int).contains(x) && mutual_in(ops, bubble@, ag0, x)),
        decreases bubble@.len() - i,
    {
        let id = bubble[i];
        let ghost prev = bubble@.take(i as int);
        let ghost next = bubble@.take(i + 1);
        let ghost filter0 = filter@;
        let ghost mutual0 = mutual_removes@;
        proof {
            assert(next =~= prev.push(id));
            assert(bubble@.contains(id));
        }
        let operation = match get_operation(&y.operations, id) {
            Some(operation) => operation,
            None => return Err(GroupCrdtInnerError::OperationNotFound(id)),
        };
        match removed_or_demoted_manager(operation) {
            None => {},
            Some(removed) => {
                if is_mutual_remove(operation, authority_graphs) && !contains_node(&mutual_removes, id) {
                    mutual_removes.push(id);
                    proof {
                        assert forall|a: int, b: int|
                            0 <= a < mutual_removes@.len() && 0 <= b < mutual_removes@.len() && a != b implies mutual_removes@[a]
                            != mutual_removes@[b] by {
                            if a < mutual0.len() && b < mutual0.len() {
                            } else if a < mutual0.len() {
                                assert(mutual0[a] == mutual_removes@[a]);
                            } else if b < mutual0.len() {
                                assert(mutual0[b] == mutual_removes@[b]);
                            }
                        }
                    }
                }
                proof {
                    assert forall|x: u32| #[trigger] mutual_removes@.contains(x) <==> (mutual0.contains(x) || (x == id
                        && mutual_in(ops, bubble@, ag0, x))) by {
                        if mutual_removes@ != mutual0 {
                            lemma_push_contains(mutual0, id, x);
                        }
                    }
                }
                let group_id = operation.group_id();
                let candidates = concurrent_operations(&y.graph, id);
                let ghost pred = |n: u32| concurrent(edges, id, n);
                proof {
                    assert(candidates@ == graph_nodes(y.graph).filter(pred));
                }
                let mut k: usize = 0;
                while k < candidates.len()
                    invariant
                        k <= candidates@.len(),
                        ops == y.operations@,
                        edges == graph_edges(y.graph),
                        ag0 == *old(authority_graphs),
                        authority_graphs.wf(),
                        authority_graphs.deps() == ag0.deps(),
                        forall|g: ID| #[trigger] authority_graphs.removals_of(g) == ag0.removals_of(g),
                        forall|g: ID| #[trigger] authority_graphs.delegations_of(g) == ag0.delegations_of(g),
                        bubble@.contains(id),
                        has_key(ops, id),
                        stored(ops, id) == *operation,
                        removed_manager(operation.operation_action()) == Some(removed),
                        group_id == operation.operation_group(),
                        pred == (|n: u32| concurrent(edges, id, n)),
                        candidates@ == graph_nodes(y.graph).filter(pred),
                        forall|x: u32| #[trigger] filter@.contains(x) && !filter0.contains(x) ==> graph_nodes(y.graph).contains(x),
                        filter@.no_duplicates(),
                        forall|x: u32|
                            #[trigger] filter@.contains(x) <==> (filter0.contains(x) || (candidates@.take(k as int).contains(x)
                                && bubble@.contains(x) && filtered_by(ops, edges, id, x))),
                    decreases candidates@.len() - k,
                {
                    let c = candidates[k];
                    let ghost before = filter@;
                    proof {
                        assert(candidates@.take(k + 1) =~= candidates@.take(k as int).push(c));
                        assert(candidates@.contains(c));
                        graph_nodes(y.graph).lemma_filter_pred(pred, k as int);
                        graph_nodes(y.graph).lemma_filter_contains_rev(pred, c);
                        assert(concurrent(edges, id, c));
                    }
                    let mut pushed = false;
                    if contains_node(bubble, c) {
                        let other = match get_operation(&y.operations, c) {
                            Some(other) => other,
                            None => return Err(GroupCrdtInnerError::OperationNotFound(c)),
                        };
                        if is_removed(group_id, removed, other) || is_readd(group_id, removed, other) {
                            if !contains_node(&filter, c) {
                                filter.push(c);
                                pushed = true;
                            }
                            proof {
                                assert(filtered_by(ops, edges, id, c));
                            }
                        } else {
                            proof {
                                assert(!filtered_by(ops, edges, id, c));
                            }
                        }
                    }
                    proof {
                        assert(pushed ==> filter@ == before.push(c) && !before.contains(c) && bubble@.contains(c)
                            && filtered_by(ops, edges, id, c));
                        assert(!pushed ==> filter@ == before && (before.contains(c) || !(bubble@.contains(c) && filtered_by(
                            ops,
                            edges,
                            id,
                            c,
                        ))));
                        assert(filter@.no_duplicates()) by {
                            if pushed {
                                assert forall|a: int, b: int| 0 <= a < filter@.len() && 0 <= b < filter@.len() && a != b implies filter@[a]
                                    != filter@[b] by {
                                    if a < before.len() && b < before.len() {
                                    } else if a < before.len() {
                                        assert(filter@[b] == c);
                                        assert(before[a] == filter@[a]);
                                    } else if b < before.len() {
                                        assert(filter@[a] == c);
                                        assert(before[b] == filter@[b]);
                                    }
                                }
                            }
                        }
                        assert forall|x: u32| #[trigger] filter@.contains(x) implies before.contains(x) || x == c by {
                            if filter@ != before {
                                lemma_push_contains(before, c, x);
                            }
                        }
                        assert forall|x: u32| before.contains(x) implies #[trigger] filter@.contains(x) by {
                            if filter@ != before {
                                lemma_push_contains(before, c, x);
                            }
                        }
                        assert forall|x: u32| #[trigger] filter@.contains(x) && !filter0.contains(x) implies candidates@.take(
                            k + 1,
                        ).contains(x) && bubble@.contains(x) && filtered_by(ops, edges, id, x) by {
                            if before.contains(x) {
                                assert(candidates@.take(k as int).contains(x) && bubble@.contains(x) && filtered_by(
                                    ops,
                                    edges,
                                    id,
                                    x,
                                ));
                                let j = choose|j: int| 0 <= j < k && #[trigger] candidates@.take(k as int)[j] == x;
                                assert(candidates@.take(k + 1)[j] == x);
                            } else {
                                assert(x == c);
                                assert(candidates@.take(k + 1)[k as int] == c);
                            }
                        }
                        assert forall|x: u32|
                            filter0.contains(x) || (candidates@.take(k + 1).contains(x) && bubble@.contains(x)
                                && filtered_by(ops, edges, id, x)) implies #[trigger] filter@.contains(x) by {
                            if filter0.contains(x) {
                                assert(before.contains(x));
                            } else {
                                let j = choose|j: int| 0 <= j < k + 1 && #[trigger] candidates@.take(k + 1)[j] == x;
                                if j < k {
                                    assert(candidates@.take(k as int)[j] == x);
                                    assert(before.contains(x));
                                } else {
                                    assert(x == c);
                                    if !before.contains(x) {
                                        assert(pushed);
                                        lemma_push_contains(before, c, x);
                                    }
                                }
                            }
                        }
                    }
                    k = k + 1;
                }
                proof {
                    assert(candidates@.take(candidates@.len() as int) =~= candidates@);
                }
            },
        }
        proof {
            assert forall|j: int| 0 <= j < next.len() implies has_key(ops, #[trigger] next[j]) by {
                if j < i {
                    assert(next[j] == prev[j]);
                }
            }
            assert forall|x: u32| #[trigger] filter@.contains(x) <==> filtered_in(ops, y.graph, bubble@, next, x) by {
                if filtered_in(ops, y.graph, bubble@, next, x) {
                    let j = choose|j: int| 0 <= j < next.len() && filtered_by(ops, edges, #[trigger] next[j], x);
                    if j < i {
                        assert(prev[j] == next[j]);
                        assert(filtered_in(ops, y.graph, bubble@, prev, x));
                    } else {
                        assert(next[j] == id);
                        assert(graph_nodes(y.graph).filter(|n: u32| concurrent(edges, id, n)).contains(x));
                    }
                }
                if filter0.contains(x) {
                    let j = choose|j: int| 0 <= j < prev.len() && filtered_by(ops, edges, #[trigger] prev[j], x);
                    assert(next[j] == prev[j]);
                }
                if filter@.contains(x) && !filter0.contains(x) {
                    assert(next[i as int] == id);
                    assert(graph_nodes(y.graph).filter(|n: u32| concurrent(edges, id, n)).contains(x));
                }
            }
            assert forall|x: u32| #[trigger] mutual_removes@.contains(x) <==> (next.contains(x) && mutual_in(ops, bubble@, ag0, x)) by {
                if next.contains(x) {
                    let j = choose|j: int| 0 <= j < next.len() && next[j] == x;
                    if j < i {
                        assert(prev[j] == x);
                    }
                }
                if prev.contains(x) {
                    let j = choose|j: int| 0 <= j < prev.len() && prev[j] == x;
                    assert(next[j] == x);
                }
                if x == id {
                    assert(next[i as int] == x);
                }
                if mutual_removes@.contains(x) && !mutual0.contains(x) {
                    assert(x == id);
                }
            }
        }
        i = i + 1;
    }
    proof {
        assert(bubble@.take(bubble@.len() as int) =~= bubble@);
    }
    let GroupCrdtInnerState { operations, ignore: _, mutual_removes: _, states, graph } = y;
    Ok(GroupCrdtInnerState { operations, ignore: filter, mutual_removes, states, graph })
}

/// The group states with member `removed` of group `group_id` made inactive, if it is active.
pub open spec fn removed_unchecked<ID, C>(groups: Map<ID, MembersView<ID, C>>, group_id: ID, removed: GroupMember<ID>) -> Map<
    ID,
    MembersView<ID, C>,
> {
    let members = groups[group_id];
    groups.insert(
        group_id,
        if members.contains_key(removed) && is_member_spec(members[removed]) {
            members.insert(
                removed,
                MemberState {
                    member_counter: (members[removed].member_counter + 1) as usize,
                    access: members[removed].access,
                    access_counter: members[removed].access_counter,
                },
            )
        } else {
            members
        },
    )
}

/// The group states recorded for operation `operation` when it is re-applied: the states at its
/// dependencies with its action applied under the filter, or, for an operation of a mutual remove
/// cycle, with the removed member made inactive regardless of the membership rules.
pub open spec fn reapplied<ID: Copy, C: Clone + PartialOrd + PartialEq, M: Operation<ID, u32, C>>(
    y: GroupCrdtInnerState<ID, C, M>,
    operation: M,
    mutual: bool,
    after: Map<ID, MembersView<ID, C>>,
) -> bool {
    let base = state_before(y, operation);
    if mutual {
        after == removed_unchecked(
            base,
            operation.operation_group(),
            GroupMember::Individual(removed_manager(operation.operation_action())->0),
        )
    } else {
        exists|res: StateChangeResult<ID, C>|
            {
                &&& apply_outcome(
                    base,
                    operation.operation_group(),
                    operation.operation_id(),
                    operation.operation_author(),
                    operation.operation_action(),
                    y.ignore@,
                    res,
                )
                &&& after == #[trigger] result_state(res)@
            }
    }
}

/// The action of operation `n` does not apply to the group states at its dependencies: its group
/// is not known there, or a counter of the group's members has reached its limit.
pub open spec fn blocked_in<ID: Copy, C: Clone + PartialOrd + PartialEq, M: Operation<ID, u32, C>>(
    y: GroupCrdtInnerState<ID, C, M>,
    n: u32,
) -> bool {
    let op = stored(y.operations@, n);
    !applicable_to(state_before(y, op), op.operation_group(), op.operation_action())
}

/// `w` holds the operations and the graph of `y`, with every state resolved.
pub open spec fn settled_like<ID: Copy, C: Clone + PartialOrd + PartialEq, M: Operation<ID, u32, C>>(
    w: GroupCrdtInnerState<ID, C, M>,
    y: GroupCrdtInnerState<ID, C, M>,
) -> bool {
    w.operations == y.operations && w.graph == y.graph && settled(w)
}

/// How re-applying operation `operation_id` fails: it is not recorded; some dependency has no
/// recorded state; or its action does not apply to the states at its dependencies, or it is a
/// mutual remove which removes no manager.
pub open spec fn apply_failure<ID: Copy, C: Clone + PartialOrd + PartialEq, M: Operation<ID, u32, C>>(
    y: GroupCrdtInnerState<ID, C, M>,
    operation_id: u32,
    e: GroupCrdtInnerError<u32>,
) -> bool {
    let operation = stored(y.operations@, operation_id);
    ||| !has_key(y.operations@, operation_id) && e == GroupCrdtInnerError::<u32>::OperationNotFound(operation_id)
    ||| has_key(y.operations@, operation_id) && !dependencies_recorded(y, operation)
        && e matches GroupCrdtInnerError::StatesNotFound(_)
    ||| has_key(y.operations@, operation_id) && dependencies_recorded(y, operation) && e
        == GroupCrdtInnerError::<u32>::ActionNotApplicable(operation.operation_id()) && ((conditions_ordered::<C>()
        && clones_exact::<C>() ==> blocked_in(y, operation_id)) || (y.mutual_removes@.contains(operation_id)
        && removed_manager(operation.operation_action()) is None))
}

/// Re-apply a recorded operation: record the group states after it again, from the states at its
/// dependencies (see `reapplied`).
///
/// Fails when the operation is not recorded, when some dependency has no recorded state, and when
/// the action cannot be applied.
fn apply_operation<ID: IdentityHandle, C: Clone + PartialOrd + PartialEq, M: Operation<ID, u32, C>>(
    y: GroupCrdtInnerState<ID, C, M>,
    operation_id: u32,
) -> (r: Result<GroupCrdtInnerState<ID, C, M>, GroupCrdtInnerError<u32>>)
    ensures
        !has_key(y.operations@, operation_id) ==> r == Err::<GroupCrdtInnerState<ID, C, M>, GroupCrdtInnerError<u32>>(
            GroupCrdtInnerError::OperationNotFound(operation_id),
        ),
        match r {
            Ok(z) => {
                let operation = stored(y.operations@, operation_id);
                &&& has_key(y.operations@, operation_id)
                &&& z.operations == y.operations
                &&& z.ignore == y.ignore
                &&& z.mutual_removes == y.mutual_removes
                &&& z.graph == y.graph
                &&& z.states@.dom() == y.states@.dom().insert(operation.operation_id())
                &&& forall|o: u32|
                    o != operation.operation_id() && #[trigger] y.states@.contains_key(o) ==> z.states@[o] == y.states@[o]
                &&& conditions_ordered::<C>() && clones_exact::<C>() ==> reapplied(
                    y,
                    operation,
                    y.mutual_removes@.contains(operation_id),
                    z.states@[operation.operation_id()],
                )
            },
            Err(e) => apply_failure(y, operation_id, e),
        },
{
    let operation = match get_operation(&y.operations, operation_id) {
        Some(operation) => operation,
        None => return Err(GroupCrdtInnerError::OperationNotFound(operation_id)),
    };
    let id = operation.id();
    let group_id = operation.group_id();
    let actor = operation.author();
    let dependencies = operation.dependencies();
    let groups = match y.states.state_at(dependencies.as_slice()) {
        Ok(groups) => groups,
        Err(e) => return Err(e),
    };
    if !action_applicable(&groups, group_id, operation.action()) {
        return Err(GroupCrdtInnerError::ActionNotApplicable(id));
    }
    let groups = if !contains_node(&y.mutual_removes, operation_id) {
        proof {
            if !(operation.operation_action() is Create) {
                lemma_counters_fit(groups@[group_id], actor, operation.operation_action());
            }
        }
        let result = apply_action(groups, group_id, id, actor, operation.action(), y.ignore.as_slice());
        let ghost res = result;
        let groups = match result {
            StateChangeResult::Applied { state } => state,
            StateChangeResult::Error { state, .. } => state,
            StateChangeResult::Filtered { state } => state,
        };
        proof {
            assert(groups == result_state(res));
        }
        groups
    } else {
        let removed = match removed_or_demoted_manager(operation) {
            Some(removed) => removed,
            None => return Err(GroupCrdtInnerError::ActionNotApplicable(id)),
        };
        apply_remove_unsafe(groups, group_id, GroupMember::Individual(removed))
    };
    let GroupCrdtInnerState { operations, ignore, mutual_removes, states, graph } = y;
    let states = states.insert(id, groups);
    Ok(GroupCrdtInnerState { operations, ignore, mutual_removes, states, graph })
}

// ------------------------------------------------------------------------------------------------
// Resolved states
// ------------------------------------------------------------------------------------------------

/// The graph matches the recorded operations: every node is a recorded operation, every edge
/// joins two nodes, and every dependency of an operation has an edge to it.
pub open spec fn graph_consistent<ID: Copy, C, M: Operation<ID, u32, C>>(
    operations: Seq<(u32, M)>,
    graph: DiGraphMap<u32, ()>,
) -> bool {
    &&& forall|n: u32| #[trigger] graph_nodes(graph).contains(n) ==> has_key(operations, n)
    &&& forall|e: (u32, u32)|
        #[trigger] graph_edges(graph).contains(e) ==> graph_nodes(graph).contains(e.0) && graph_nodes(graph).contains(e.1)
    &&& forall|n: u32, i: int|
        #![trigger stored(operations, n).operation_dependencies()[i]]
        graph_nodes(graph).contains(n) && 0 <= i < stored(operations, n).operation_dependencies().len()
            ==> graph_edges(graph).contains((stored(operations, n).operation_dependencies()[i], n))
}

/// The operations linked to `n` by chains of concurrent operations of the graph.
pub open spec fn component(graph: DiGraphMap<u32, ()>, n: u32) -> Set<u32> {
    Set::new(|m: u32| linked(graph_nodes(graph), graph_edges(graph), n, m))
}

/// The edges of the graph between nodes of `keep`.
pub open spec fn kept_edges(graph: DiGraphMap<u32, ()>, keep: Set<u32>) -> Set<(u32, u32)> {
    graph_edges(graph).filter(
        |e: (u32, u32)|
            !(graph_nodes(graph).contains(e.0) && !keep.contains(e.0)) && !(graph_nodes(graph).contains(e.1)
                && !keep.contains(e.1)),
    )
}

/// Operation `n` is filtered out by the strong remove rules: some removal or demotion of the graph
/// concurrent to it filters it (see `filtered_by`).
pub open spec fn strongly_filtered<ID: Copy, C, M: Operation<ID, u32, C>>(
    operations: Seq<(u32, M)>,
    graph: DiGraphMap<u32, ()>,
    n: u32,
) -> bool {
    exists|r: u32| graph_nodes(graph).contains(r) && #[trigger] filtered_by(operations, graph_edges(graph), r, n)
}

/// Operation `n` removes or demotes a manager in a mutual remove cycle: it has concurrent
/// operations, and it is in a cycle of the authority graph of the operations linked to it by
/// chains of concurrent operations (see `mutual_remove`).
pub open spec fn in_mutual_cycle<ID: Copy, C, M: Operation<ID, u32, C>>(
    operations: Seq<(u32, M)>,
    graph: DiGraphMap<u32, ()>,
    n: u32,
) -> bool {
    let comp = component(graph, n);
    let op = stored(operations, n);
    let g = op.operation_group();
    &&& exists|m: u32| m != n && #[trigger] comp.contains(m)
    &&& removed_manager(op.operation_action()) is Some
    &&& exists|s: Seq<u32>|
        #[trigger] s.to_set() == comp && mutual_remove(
            op,
            removal_changes(operations, s, g),
            delegation_changes(operations, s, g),
            kept_edges(graph, comp),
        )
}

/// A filter holding `id` exactly when `filtered`.
pub open spec fn filter_of(filtered: bool, id: u32) -> Seq<u32> {
    if filtered {
        seq![id]
    } else {
        Seq::empty()
    }
}

/// The state recorded for node `n` is the one a rebuild gives it: the states at its dependencies
/// with its action applied under the strong remove rules, or, in a mutual remove cycle, with the
/// removed member made inactive regardless of the membership rules.
pub open spec fn resolved_at<ID: Copy, C: Clone + PartialOrd + PartialEq, M: Operation<ID, u32, C>>(
    y: GroupCrdtInnerState<ID, C, M>,
    n: u32,
) -> bool {
    let op = stored(y.operations@, n);
    let base = state_before(y, op);
    let after = y.states@[n];
    if in_mutual_cycle(y.operations@, y.graph, n) {
        after == removed_unchecked(
            base,
            op.operation_group(),
            GroupMember::Individual(removed_manager(op.operation_action())->0),
        )
    } else {
        exists|res: StateChangeResult<ID, C>|
            {
                &&& apply_outcome(
                    base,
                    op.operation_group(),
                    op.operation_id(),
                    op.operation_author(),
                    op.operation_action(),
                    filter_of(strongly_filtered(y.operations@, y.graph, n), op.operation_id()),
                    res,
                )
                &&& after == #[trigger] result_state(res)@
            }
    }
}

/// The operations `done` are nodes with resolved states, and the dependencies of each of them
/// are among them.
pub open spec fn resolved_within<ID: Copy, C: Clone + PartialOrd + PartialEq, M: Operation<ID, u32, C>>(
    y: GroupCrdtInnerState<ID, C, M>,
    done: Set<u32>,
) -> bool {
    forall|n: u32|
        #[trigger] done.contains(n) ==> {
            &&& graph_nodes(y.graph).contains(n)
            &&& y.states@.contains_key(n)
            &&& resolved_at(y, n)
            &&& forall|i: int|
                0 <= i < stored(y.operations@, n).operation_dependencies().len() ==> done.contains(
                    #[trigger] stored(y.operations@, n).operation_dependencies()[i],
                )
        }
}

/// Every operation of the graph has the state a rebuild gives it.
pub open spec fn settled<ID: Copy, C: Clone + PartialOrd + PartialEq, M: Operation<ID, u32, C>>(
    y: GroupCrdtInnerState<ID, C, M>,
) -> bool {
    forall|n: u32| #[trigger] graph_nodes(y.graph).contains(n) ==> y.states@.contains_key(n) && resolved_at(y, n)
}

/// The removal registered by operation `id` for group `g`, if it is `c`.
pub open spec fn removal_entry<ID: Copy, C, M: Operation<ID, u32, C>>(
    operations: Seq<(u32, M)>,
    id: u32,
    g: ID,
    c: Change<ID>,
) -> bool {
    let op = stored(operations, id);
    removed_manager(op.operation_action()) matches Some(m) && op.operation_group() == g && op.operation_author() != m
        && c == (op.operation_author(), m, id)
}

/// The delegation registered by operation `id` for group `g`, if it is `c`.
pub open spec fn delegation_entry<ID: Copy, C, M: Operation<ID, u32, C>>(
    operations: Seq<(u32, M)>,
    id: u32,
    g: ID,
    c: Change<ID>,
) -> bool {
    let op = stored(operations, id);
    added_manager(op.operation_action()) matches Some(m) && op.operation_group() == g && c == (
        op.operation_author(),
        m,
        id,
    )
}

proof fn lemma_removal_changes_contains<ID: Copy, C, M: Operation<ID, u32, C>>(
    operations: Seq<(u32, M)>,
    nodes: Seq<u32>,
    g: ID,
    c: Change<ID>,
)
    ensures
        removal_changes(operations, nodes, g).contains(c) <==> exists|id: u32|
            nodes.contains(id) && #[trigger] removal_entry(operations, id, g, c),
    decreases nodes.len(),
{
    if nodes.len() > 0 {
        let rest = nodes.drop_last();
        let id = nodes.last();
        lemma_removal_changes_contains(operations, rest, g, c);
        assert(nodes =~= rest.push(id));
        assert forall|x: u32| nodes.contains(x) <==> (rest.contains(x) || x == id) by {
            lemma_push_contains(rest, id, x);
        }
        let prev = removal_changes(operations, rest, g);
        assert forall|x: Change<ID>| prev.push(x).contains(c) <==> (prev.contains(c) || c == x) by {
            if prev.push(x).contains(c) {
                let j = choose|j: int| 0 <= j < prev.push(x).len() && prev.push(x)[j] == c;
                if j < prev.len() {
                    assert(prev[j] == c);
                }
            }
            if prev.contains(c) {
                let j = choose|j: int| 0 <= j < prev.len() && prev[j] == c;
                assert(prev.push(x)[j] == c);
            }
            if c == x {
                assert(prev.push(x)[prev.len() as int] == c);
            }
        }
        if removal_changes(operations, nodes, g).contains(c) && !prev.contains(c) {
            assert(removal_entry(operations, id, g, c));
        }
    }
}

proof fn lemma_delegation_changes_contains<ID: Copy, C, M: Operation<ID, u32, C>>(
    operations: Seq<(u32, M)>,
    nodes: Seq<u32>,
    g: ID,
    c: Change<ID>,
)
    ensures
        delegation_changes(operations, nodes, g).contains(c) <==> exists|id: u32|
            nodes.contains(id) && #[trigger] delegation_entry(operations, id, g, c),
    decreases nodes.len(),
{
    if nodes.len() > 0 {
        let rest = nodes.drop_last();
        let id = nodes.last();
        lemma_delegation_changes_contains(operations, rest, g, c);
        assert(nodes =~= rest.push(id));
        assert forall|x: u32| nodes.contains(x) <==> (rest.contains(x) || x == id) by {
            lemma_push_contains(rest, id, x);
        }
        let prev = delegation_changes(operations, rest, g);
        assert forall|x: Change<ID>| prev.push(x).contains(c) <==> (prev.contains(c) || c == x) by {
            if prev.push(x).contains(c) {
                let j = choose|j: int| 0 <= j < prev.push(x).len() && prev.push(x)[j] == c;
                if j < prev.len() {
                    assert(prev[j] == c);
                }
            }
            if prev.contains(c) {
                let j = choose|j: int| 0 <= j < prev.len() && prev[j] == c;
                assert(prev.push(x)[j] == c);
            }
            if c == x {
                assert(prev.push(x)[prev.len() as int] == c);
            }
        }
        if delegation_changes(operations, nodes, g).contains(c) && !prev.contains(c) {
            assert(delegation_entry(operations, id, g, c));
        }
    }
}

/// Operations listed in any order register the same removals and delegations.
proof fn lemma_changes_same_elements<ID: Copy, C, M: Operation<ID, u32, C>>(
    operations: Seq<(u32, M)>,
    s: Seq<u32>,
    t: Seq<u32>,
    g: ID,
)
    requires
        s.to_set() == t.to_set(),
    ensures
        same_elements(removal_changes(operations, s, g), removal_changes(operations, t, g)),
        same_elements(delegation_changes(operations, s, g), delegation_changes(operations, t, g)),
{
    assert forall|x: u32| s.contains(x) <==> t.contains(x) by {
        assert(s.to_set().contains(x) == s.contains(x));
        assert(t.to_set().contains(x) == t.contains(x));
        assert(s.to_set().contains(x) == t.to_set().contains(x));
    }
    assert forall|c: Change<ID>| removal_changes(operations, s, g).contains(c) <==> removal_changes(operations, t, g).contains(c) by {
        lemma_removal_changes_contains(operations, s, g, c);
        lemma_removal_changes_contains(operations, t, g, c);
    }
    assert forall|c: Change<ID>| delegation_changes(operations, s, g).contains(c) <==> delegation_changes(operations, t, g).contains(c) by {
        lemma_delegation_changes_contains(operations, s, g, c);
        lemma_delegation_changes_contains(operations, t, g, c);
    }
}

/// Within a bubble, the filter of the bubble holds exactly the operations filtered out by the
/// strong remove rules.
proof fn lemma_filtered_in_bubble<ID: Copy, C, M: Operation<ID, u32, C>>(
    operations: Seq<(u32, M)>,
    graph: DiGraphMap<u32, ()>,
    bubble: Seq<u32>,
    x: u32,
)
    requires
        is_bubble(graph_nodes(graph), graph_edges(graph), bubble),
        bubble.contains(x),
    ensures
        filtered_in(operations, graph, bubble, bubble, x) == strongly_filtered(operations, graph, x),
{
    let nodes = graph_nodes(graph);
    let edges = graph_edges(graph);
    assert(nodes.contains(x));
    if filtered_in(operations, graph, bubble, bubble, x) {
        let j = choose|j: int| 0 <= j < bubble.len() && filtered_by(operations, edges, #[trigger] bubble[j], x);
        assert(bubble.contains(bubble[j]));
        assert(nodes.contains(bubble[j]));
    }
    if strongly_filtered(operations, graph, x) {
        let r = choose|r: u32| nodes.contains(r) && #[trigger] filtered_by(operations, edges, r, x);
        assert(concurrent(edges, r, x));
        assert(concurrent(edges, x, r));
        assert(bubble.contains(r));
        let j = choose|j: int| 0 <= j < bubble.len() && bubble[j] == r;
        assert(filtered_by(operations, edges, bubble[j], x));
    }
}

/// The nodes of a bubble are the operations linked to any one of them.
proof fn lemma_component_of_bubble<ID: Copy, C, M: Operation<ID, u32, C>>(
    graph: DiGraphMap<u32, ()>,
    bubble: Seq<u32>,
    x: u32,
)
    requires
        is_bubble(graph_nodes(graph), graph_edges(graph), bubble),
        bubble.contains(x),
    ensures
        component(graph, x) == bubble.to_set(),
        exists|m: u32| m != x && #[trigger] component(graph, x).contains(m),
{
    assert forall|m: u32| component(graph, x).contains(m) == bubble.to_set().contains(m) by {
        lemma_bubble_component(graph_nodes(graph), graph_edges(graph), bubble, x, m);
    }
    assert(component(graph, x) =~= bubble.to_set());
    assert(bubble[0] != bubble[1]);
    assert(bubble.to_set().contains(bubble[0]) && bubble.to_set().contains(bubble[1]));
    if bubble[0] != x {
        assert(component(graph, x).contains(bubble[0]));
    } else {
        assert(component(graph, x).contains(bubble[1]));
    }
}

/// Within a bubble, the mutual removes found with the authority graphs of the bubble are exactly
/// the operations in mutual remove cycles.
proof fn lemma_mutual_in_bubble<ID: Copy, C, M: Operation<ID, u32, C>>(
    operations: Seq<(u32, M)>,
    graph: DiGraphMap<u32, ()>,
    bubble: Seq<u32>,
    bubble_graph: DiGraphMap<u32, ()>,
    authority_graphs: AuthorityGraphs<ID>,
    x: u32,
)
    requires
        is_bubble(graph_nodes(graph), graph_edges(graph), bubble),
        bubble.contains(x),
        graph_nodes(bubble_graph).to_set() == graph_nodes(graph).to_set().filter(|n: u32| bubble.contains(n)),
        graph_edges(bubble_graph) == graph_edges(graph).filter(
            |e: (u32, u32)|
                !(graph_nodes(graph).contains(e.0) && !bubble.contains(e.0)) && !(graph_nodes(graph).contains(e.1)
                    && !bubble.contains(e.1)),
        ),
        authority_graphs.deps() == graph_edges(bubble_graph),
        forall|g: ID| #[trigger] authority_graphs.removals_of(g) == removal_changes(operations, graph_nodes(bubble_graph), g),
        forall|g: ID| #[trigger] authority_graphs.delegations_of(g) == delegation_changes(operations, graph_nodes(bubble_graph), g),
    ensures
        mutual_in(operations, bubble, authority_graphs, x) == in_mutual_cycle(operations, graph, x),
{
    let comp = component(graph, x);
    lemma_component_of_bubble::<ID, C, M>(graph, bubble, x);
    let bnodes = graph_nodes(bubble_graph);
    assert forall|n: u32| bnodes.to_set().contains(n) == comp.contains(n) by {
        assert(comp.contains(n) == bubble.to_set().contains(n));
        if bubble.contains(n) {
            assert(graph_nodes(graph).contains(n));
            assert(graph_nodes(graph).to_set().contains(n));
        }
    }
    assert(bnodes.to_set() =~= comp);
    assert(kept_edges(graph, comp) =~= graph_edges(bubble_graph)) by {
        assert forall|e: (u32, u32)| kept_edges(graph, comp).contains(e) == graph_edges(bubble_graph).contains(e) by {
            assert(comp.contains(e.0) == bubble.to_set().contains(e.0));
            assert(comp.contains(e.1) == bubble.to_set().contains(e.1));
        }
    }
    let op = stored(operations, x);
    let g = op.operation_group();
    if mutual_in(operations, bubble, authority_graphs, x) {
        assert(mutual_remove(
            op,
            removal_changes(operations, bnodes, g),
            delegation_changes(operations, bnodes, g),
            kept_edges(graph, comp),
        ));
        assert(in_mutual_cycle(operations, graph, x));
    }
    if in_mutual_cycle(operations, graph, x) {
        let s = choose|s: Seq<u32>|
            #[trigger] s.to_set() == comp && mutual_remove(
                op,
                removal_changes(operations, s, g),
                delegation_changes(operations, s, g),
                kept_edges(graph, comp),
            );
        lemma_changes_same_elements(operations, s, bnodes, g);
        lemma_cycle_op_same_changes(
            removal_changes(operations, s, g),
            delegation_changes(operations, s, g),
            removal_changes(operations, bnodes, g),
            delegation_changes(operations, bnodes, g),
            kept_edges(graph, comp),
            op.operation_id(),
        );
    }
}

/// Recording the state of one more operation, re-applied from the resolved states of its
/// dependencies under the strong remove rules, keeps the recorded states resolved.
proof fn lemma_resolved_step<ID: Copy, C: Clone + PartialOrd + PartialEq, M: Operation<ID, u32, C>>(
    y: GroupCrdtInnerState<ID, C, M>,
    z: GroupCrdtInnerState<ID, C, M>,
    done: Set<u32>,
    x: u32,
)
    requires
        resolved_within(y, done),
        !done.contains(x),
        graph_nodes(y.graph).contains(x),
        stored(y.operations@, x).operation_id() == x,
        forall|i: int|
            0 <= i < stored(y.operations@, x).operation_dependencies().len() ==> done.contains(
                #[trigger] stored(y.operations@, x).operation_dependencies()[i],
            ),
        z.operations == y.operations,
        z.graph == y.graph,
        z.states@.dom() == y.states@.dom().insert(x),
        forall|o: u32| o != x && #[trigger] y.states@.contains_key(o) ==> z.states@[o] == y.states@[o],
        y.ignore@.contains(x) == strongly_filtered(y.operations@, y.graph, x),
        y.mutual_removes@.contains(x) == in_mutual_cycle(y.operations@, y.graph, x),
        reapplied(y, stored(y.operations@, x), y.mutual_removes@.contains(x), z.states@[x]),
    ensures
        resolved_within(z, done.insert(x)),
{
    let v = z.states@[x];
    assert(z.states@ =~= y.states@.insert(x, v));
    let ops = y.operations@;
    assert forall|n: u32| #[trigger] done.insert(x).contains(n) implies {
        &&& graph_nodes(z.graph).contains(n)
        &&& z.states@.contains_key(n)
        &&& resolved_at(z, n)
        &&& forall|i: int|
            0 <= i < stored(z.operations@, n).operation_dependencies().len() ==> done.insert(x).contains(
                #[trigger] stored(z.operations@, n).operation_dependencies()[i],
            )
    } by {
        let op = stored(ops, n);
        let deps = op.operation_dependencies();
        assert(!deps.contains(x)) by {
            if deps.contains(x) {
                let i = choose|i: int| 0 <= i < deps.len() && deps[i] == x;
                assert(done.contains(deps[i]));
            }
        }
        lemma_state_at_independent(y.states@, deps, x, v);
        assert(state_before(z, op) == state_before(y, op));
        if n != x {
            assert(done.contains(n));
            assert(z.states@[n] == y.states@[n]);
            assert(resolved_at(y, n));
        } else {
            let sf = strongly_filtered(ops, y.graph, x);
            assert(filter_of(sf, x).contains(x) == sf) by {
                if sf {
                    assert(filter_of(sf, x)[0] == x);
                }
            }
            if !in_mutual_cycle(ops, y.graph, x) {
                let res = choose|res: StateChangeResult<ID, C>|
                    {
                        &&& apply_outcome(
                            state_before(y, op),
                            op.operation_group(),
                            op.operation_id(),
                            op.operation_author(),
                            op.operation_action(),
                            y.ignore@,
                            res,
                        )
                        &&& v == #[trigger] result_state(res)@
                    };
                assert(apply_outcome(
                    state_before(z, op),
                    op.operation_group(),
                    op.operation_id(),
                    op.operation_author(),
                    op.operation_action(),
                    filter_of(sf, op.operation_id()),
                    res,
                ));
            }
        }
    }
}

/// The conditions under which re-applying a bubble keeps the recorded states resolved: a graph
/// without cycles matching the recorded operations, exact clones and ordered conditions, the
/// operations `done` resolved, none of them in the bubble, and every dependency of an operation
/// of the bubble either in the bubble or among `done`.
spec fn bubble_ready<ID: Copy, C: Clone + PartialOrd + PartialEq, M: Operation<ID, u32, C>>(
    y: GroupCrdtInnerState<ID, C, M>,
    bubble: Seq<u32>,
    done: Set<u32>,
) -> bool {
    &&& acyclic(graph_edges(y.graph))
    &&& operation_ids_match(y.operations@)
    &&& graph_consistent(y.operations@, y.graph)
    &&& conditions_ordered::<C>()
    &&& clones_exact::<C>()
    &&& is_bubble(graph_nodes(y.graph), graph_edges(y.graph), bubble)
    &&& resolved_within(y, done)
    &&& forall|x: u32| #[trigger] bubble.contains(x) ==> !done.contains(x)
    &&& forall|x: u32, i: int|
        #![trigger bubble.contains(x), stored(y.operations@, x).operation_dependencies()[i]]
        bubble.contains(x) && 0 <= i < stored(y.operations@, x).operation_dependencies().len() ==> bubble.contains(
            stored(y.operations@, x).operation_dependencies()[i],
        ) || done.contains(stored(y.operations@, x).operation_dependencies()[i])
}

/// What re-applying the operations of a bubble relies on, once its filter and mutual removes are
/// known: the conditions of `bubble_ready` on what does not change, and a filter and mutual
/// removes which agree with the strong remove rules on the bubble.
spec fn bubble_facts<ID: Copy, C: Clone + PartialOrd + PartialEq, M: Operation<ID, u32, C>>(
    operations: Seq<(u32, M)>,
    graph: DiGraphMap<u32, ()>,
    bubble: Seq<u32>,
    done: Set<u32>,
    ignore: Seq<u32>,
    mutual_removes: Seq<u32>,
) -> bool {
    &&& acyclic(graph_edges(graph))
    &&& operation_ids_match(operations)
    &&& graph_consistent(operations, graph)
    &&& conditions_ordered::<C>()
    &&& clones_exact::<C>()
    &&& is_bubble(graph_nodes(graph), graph_edges(graph), bubble)
    &&& forall|x: u32| #[trigger] bubble.contains(x) ==> !done.contains(x)
    &&& forall|x: u32, i: int|
        #![trigger bubble.contains(x), stored(operations, x).operation_dependencies()[i]]
        bubble.contains(x) && 0 <= i < stored(operations, x).operation_dependencies().len() ==> bubble.contains(
            stored(operations, x).operation_dependencies()[i],
        ) || done.contains(stored(operations, x).operation_dependencies()[i])
    &&& forall|x: u32|
        #[trigger] bubble.contains(x) ==> (ignore.contains(x) == strongly_filtered(operations, graph, x)) && (
        mutual_removes.contains(x) == in_mutual_cycle(operations, graph, x))
}

/// Resolved states stay resolved whatever the filter and mutual removes held by the state.
proof fn lemma_resolved_same<ID: Copy, C: Clone + PartialOrd + PartialEq, M: Operation<ID, u32, C>>(
    y: GroupCrdtInnerState<ID, C, M>,
    z: GroupCrdtInnerState<ID, C, M>,
    done: Set<u32>,
)
    requires
        resolved_within(y, done),
        z.operations == y.operations,
        z.states == y.states,
        z.graph == y.graph,
    ensures
        resolved_within(z, done),
{
    assert forall|n: u32| #[trigger] done.contains(n) implies resolved_at(z, n) by {
        assert(resolved_at(y, n));
        assert(state_before(z, stored(z.operations@, n)) == state_before(y, stored(y.operations@, n)));
    }
}

/// In a sequence without duplicates, the position of an element is where it stands.
proof fn lemma_index_of_distinct(s: Seq<u32>, i: int)
    requires
        s.no_duplicates(),
        0 <= i < s.len(),
    ensures
        s.index_of(s[i]) == i,
{
    assert(s.contains(s[i]));
}

/// Re-apply the operations of a bubble of concurrent operations: build the authority graphs of
/// the bubble, compute its filter and mutual removes (see `compute_filter`), then re-apply its
/// operations in a topological order of the bubble's graph.
#[verifier::rlimit(50)]
#[verifier::spinoff_prover]
fn process_bubble<ID: IdentityHandle, C: Clone + PartialOrd + PartialEq, M: Operation<ID, u32, C>>(
    y: GroupCrdtInnerState<ID, C, M>,
    bubble: &Vec<u32>,
    Ghost(done): Ghost<Set<u32>>,
) -> (r: Result<GroupCrdtInnerState<ID, C, M>, GroupCrdtInnerError<u32>>)
    ensures
        match r {
            Ok(z) => {
                &&& z.operations == y.operations
                &&& z.graph == y.graph
                &&& z.ignore@.no_duplicates()
                &&& z.mutual_removes@.no_duplicates()
                &&& forall|x: u32| #[trigger] z.ignore@.contains(x) <==> filtered_in(y.operations@, y.graph, bubble@, bubble@, x)
                &&& forall|x: u32|
                    #[trigger] z.mutual_removes@.contains(x) ==> bubble@.contains(x) && removed_manager(
                        stored(y.operations@, x).operation_action(),
                    ) is Some
                &&& y.states@.dom().subset_of(z.states@.dom())
                &&& acyclic(graph_edges(y.graph)) && operation_ids_match(y.operations@) ==> forall|x: u32|
                    bubble@.contains(x) && #[trigger] graph_nodes(y.graph).contains(x) ==> z.states@.contains_key(x)
                &&& bubble_ready(y, bubble@, done) ==> resolved_within(z, done.union(bubble@.to_set()))
            },
            Err(e) => bubble_ready(y, bubble@, done) && C::obeys_eq_spec() ==> (e matches GroupCrdtInnerError::<
                u32,
            >::ActionNotApplicable(n) && bubble@.contains(n) && graph_nodes(y.graph).contains(n) && forall|
                w: GroupCrdtInnerState<ID, C, M>,
            | #[trigger] settled_like(w, y) ==> blocked_in(w, n)),
        },
{
    let ghost states0 = y.states@;
    let ghost ready = bubble_ready(y, bubble@, done);
    let bubble_graph = restrict_graph(&y.graph, bubble);
    proof {
        if acyclic(graph_edges(y.graph)) {
            lemma_acyclic_subgraph(graph_edges(bubble_graph), graph_edges(y.graph));
        }
    }
    let mut authority_graphs = match build_authority_graphs(&y.operations, &bubble_graph) {
        Ok(authority_graphs) => authority_graphs,
        Err(e) => {
            proof {
                if ready {
                    match e {
                        GroupCrdtInnerError::OperationNotFound(id) => {
                            assert(graph_nodes(bubble_graph).to_set().contains(id));
                            assert(graph_nodes(y.graph).to_set().contains(id));
                            assert(graph_nodes(y.graph).contains(id));
                        },
                        _ => {},
                    }
                }
            }
            return Err(e);
        },
    };
    let ghost ag0 = authority_graphs;
    let ghost ops = y.operations@;
    let ghost operations = y.operations;
    let ghost graph = y.graph;
    let ghost y0 = y;
    proof {
        if ready {
            assert forall|j: int| 0 <= j < bubble@.len() implies has_key(ops, #[trigger] bubble@[j]) by {
                assert(bubble@.contains(bubble@[j]));
            }
        }
    }
    let mut y = match compute_filter(y, bubble, &mut authority_graphs) {
        Ok(y) => y,
        Err(e) => return Err(e),
    };
    let ghost ignore = y.ignore;
    let ghost mutual_removes = y.mutual_removes;
    proof {
        assert(forall|x: u32| #[trigger] ignore@.contains(x) <==> filtered_in(ops, graph, bubble@, bubble@, x));
        assert forall|x: u32| #[trigger] mutual_removes@.contains(x) implies bubble@.contains(x) && removed_manager(
            stored(ops, x).operation_action(),
        ) is Some by {}
        if ready {
            assert forall|x: u32| #[trigger] bubble@.contains(x) implies (ignore@.contains(x) == strongly_filtered(
                ops,
                graph,
                x,
            )) && (mutual_removes@.contains(x) == in_mutual_cycle(ops, graph, x)) by {
                lemma_filtered_in_bubble(ops, graph, bubble@, x);
                lemma_mutual_in_bubble(ops, graph, bubble@, bubble_graph, ag0, x);
            }
            assert(bubble_facts(ops, graph, bubble@, done, ignore@, mutual_removes@));
            lemma_resolved_same(y0, y, done);
        }
    }
    let order = topological_order(&bubble_graph);
    let mut i: usize = 0;
    proof {
        if ready {
            assert(done.union(order@.take(0).to_set()) =~= done);
        }
    }
    #[verifier::loop_isolation(false)]
    while i < order.len()
        invariant
            i <= order@.len(),
            y.operations == operations,
            operations@ == ops,
            y.graph == graph,
            y.ignore == ignore,
            y.mutual_removes == mutual_removes,
            y0.operations == operations,
            y0.graph == graph,
            states0.dom().subset_of(y.states@.dom()),
            operation_ids_match(ops) ==> forall|j: int| 0 <= j < i ==> y.states@.contains_key(#[trigger] order@[j]),
            order@.no_duplicates(),
            forall|n: u32| #[trigger] order@.contains(n) ==> graph_nodes(bubble_graph).contains(n),
            respects_edges(graph_edges(bubble_graph), order@),
            graph_nodes(bubble_graph).to_set() == graph_nodes(graph).to_set().filter(|n: u32| bubble@.contains(n)),
            graph_edges(bubble_graph) == graph_edges(graph).filter(
                |e: (u32, u32)|
                    !(graph_nodes(graph).contains(e.0) && !bubble@.contains(e.0)) && !(graph_nodes(graph).contains(e.1)
                        && !bubble@.contains(e.1)),
            ),
            ready ==> bubble_facts(ops, graph, bubble@, done, ignore@, mutual_removes@),
            ready ==> resolved_within(y, done.union(order@.take(i as int).to_set())),
        decreases order@.len() - i,
    {
        let ghost before = y;
        let id = order[i];
        let ghost d0 = done.union(order@.take(i as int).to_set());
        proof {
            assert(order@.contains(id));
            if ready {
                assert(graph_nodes(bubble_graph).to_set().contains(id));
                assert(bubble@.contains(id));
                assert(graph_nodes(graph).contains(id));
                let deps = stored(ops, id).operation_dependencies();
                assert forall|k: int| 0 <= k < deps.len() implies d0.contains(#[trigger] deps[k]) by {
                    let d = deps[k];
                    if bubble@.contains(d) {
                        assert(graph_edges(graph).contains((d, id)));
                        assert(graph_nodes(graph).contains(d));
                        assert(graph_edges(bubble_graph).contains((d, id)));
                        lemma_index_of_distinct(order@, i as int);
                        let j = order@.index_of(d);
                        assert(0 <= j < i);
                        assert(order@.take(i as int)[j] == d);
                        assert(order@.take(i as int).contains(d));
                    }
                }
            }
        }
        y = match apply_operation(y, id) {
            Ok(y) => y,
            Err(e) => {
                proof {
                    if ready && C::obeys_eq_spec() {
                        let op = stored(ops, id);
                        lemma_stored_id(ops, id);
                        assert(dependencies_recorded(before, op)) by {
                            assert forall|k: int| 0 <= k < op.operation_dependencies().len() implies before.states@.contains_key(
                                #[trigger] op.operation_dependencies()[k],
                            ) by {
                                assert(d0.contains(op.operation_dependencies()[k]));
                            }
                        }
                        assert(mutual_removes@.contains(id) == in_mutual_cycle(ops, graph, id));
                        assert(blocked_in(before, id));
                        lemma_blocked_everywhere(before, d0, id);
                        assert forall|w: GroupCrdtInnerState<ID, C, M>| #[trigger] settled_like(w, y0) implies blocked_in(w, id) by {
                            assert(settled_like(w, before));
                        }
                    }
                }
                return Err(e);
            },
        };
        proof {
            if operation_ids_match(ops) {
                lemma_stored_id(ops, id);
                assert forall|j: int| 0 <= j < i + 1 implies y.states@.contains_key(#[trigger] order@[j]) by {
                    if j < i {
                        assert(before.states@.contains_key(order@[j]));
                    }
                }
            }
            if ready {
                assert(!d0.contains(id)) by {
                    if order@.take(i as int).contains(id) {
                        let j = choose|j: int| 0 <= j < i && order@.take(i as int)[j] == id;
                        assert(order@[j] == id);
                    }
                }
                lemma_resolved_step(before, y, d0, id);
                assert(d0.insert(id) =~= done.union(order@.take(i + 1).to_set())) by {
                    assert(order@.take(i + 1) =~= order@.take(i as int).push(id));
                    assert forall|x: u32| order@.take(i + 1).contains(x) == (order@.take(i as int).contains(x) || x == id) by {
                        lemma_push_contains(order@.take(i as int), id, x);
                    }
                }
            }
        }
        i = i + 1;
    }
    proof {
        if acyclic(graph_edges(graph)) && operation_ids_match(ops) {
            assert forall|x: u32| bubble@.contains(x) && #[trigger] graph_nodes(graph).contains(x) implies y.states@.contains_key(x) by {
                assert(graph_nodes(graph).to_set().contains(x));
                assert(graph_nodes(bubble_graph).to_set().contains(x));
                assert(graph_nodes(bubble_graph).contains(x));
                assert(order@.contains(x));
                let j = choose|j: int| 0 <= j < order@.len() && order@[j] == x;
                assert(y.states@.contains_key(order@[j]));
            }
        }
        if ready {
            assert(order@.take(order@.len() as int) =~= order@);
            assert forall|x: u32| done.union(order@.to_set()).contains(x) == done.union(bubble@.to_set()).contains(x) by {
                if bubble@.contains(x) {
                    assert(graph_nodes(graph).contains(x));
                    assert(graph_nodes(graph).to_set().contains(x));
                    assert(graph_nodes(bubble_graph).to_set().contains(x));
                    assert(graph_nodes(bubble_graph).contains(x));
                    assert(order@.contains(x));
                }
                if order@.contains(x) {
                    assert(graph_nodes(bubble_graph).contains(x));
                    assert(graph_nodes(bubble_graph).to_set().contains(x));
                }
            }
            assert(done.union(order@.to_set()) =~= done.union(bubble@.to_set()));
        }
    }
    Ok(y)
}

/// The conditions under which a rebuild gives every operation the state the strong remove rules
/// give it: a graph without cycles matching the recorded operations, each stored under its own
/// identifier, exact clones and ordered conditions.
pub open spec fn rebuild_ready<ID: Copy, C: Clone + PartialOrd + PartialEq, M: Operation<ID, u32, C>>(
    operations: Seq<(u32, M)>,
    graph: DiGraphMap<u32, ()>,
) -> bool {
    &&& acyclic(graph_edges(graph))
    &&& operation_ids_match(operations)
    &&& graph_consistent(operations, graph)
    &&& conditions_ordered::<C>()
    &&& clones_exact::<C>()
}

/// An operation in no bubble is neither filtered out nor in a mutual remove cycle.
proof fn lemma_outside_bubbles<ID: Copy, C, M: Operation<ID, u32, C>>(
    operations: Seq<(u32, M)>,
    graph: DiGraphMap<u32, ()>,
    views: Seq<Seq<u32>>,
    x: u32,
)
    requires
        all_bubbles(graph_nodes(graph), graph_edges(graph), views),
        graph_nodes(graph).contains(x),
        forall|b: int| 0 <= b < views.len() ==> !(#[trigger] views[b]).contains(x),
    ensures
        !strongly_filtered(operations, graph, x),
        !in_mutual_cycle(operations, graph, x),
{
    let nodes = graph_nodes(graph);
    let edges = graph_edges(graph);
    if strongly_filtered(operations, graph, x) {
        let r = choose|r: u32| nodes.contains(r) && #[trigger] filtered_by(operations, edges, r, x);
        assert(concurrent(edges, r, x));
        assert(concurrent(edges, x, r));
        let b = choose|b: int| 0 <= b < views.len() && #[trigger] views[b].contains(x);
        assert(views[b].contains(x));
    }
    if in_mutual_cycle(operations, graph, x) {
        let m = choose|m: u32| m != x && #[trigger] component(graph, x).contains(m);
        lemma_lone_component(nodes, edges, views, x, m);
    }
}

/// When a rebuild reaches the first operation of a bubble in a topological order, the bubble is
/// ready to be re-applied: none of its operations is done yet, and every dependency of them
/// outside the bubble comes earlier in the order.
proof fn lemma_bubble_ready<ID: Copy, C: Clone + PartialOrd + PartialEq, M: Operation<ID, u32, C>>(
    y: GroupCrdtInnerState<ID, C, M>,
    views: Seq<Seq<u32>>,
    order: Seq<u32>,
    i: int,
    b: int,
    done: Set<u32>,
    processed: Seq<usize>,
)
    requires
        rebuild_ready(y.operations@, y.graph),
        all_bubbles(graph_nodes(y.graph), graph_edges(y.graph), views),
        0 <= b < views.len(),
        0 <= i < order.len(),
        views[b].contains(order[i]),
        !processed.contains(b as usize),
        order.no_duplicates(),
        respects_edges(graph_edges(y.graph), order),
        resolved_within(y, done),
        forall|j: int| 0 <= j < i ==> done.contains(#[trigger] order[j]),
        forall|x: u32, b2: int|
            #![trigger done.contains(x), views[b2].contains(x)]
            done.contains(x) && 0 <= b2 < views.len() && views[b2].contains(x) ==> processed.contains(b2 as usize),
    ensures
        bubble_ready(y, views[b], done),
{
    let nodes = graph_nodes(y.graph);
    let edges = graph_edges(y.graph);
    let ops = y.operations@;
    let bubble = views[b];
    let x = order[i];
    assert(is_bubble(nodes, edges, bubble));
    assert forall|x2: u32| #[trigger] bubble.contains(x2) implies !done.contains(x2) by {
        if done.contains(x2) {
            assert(views[b].contains(x2));
        }
    }
    assert forall|x2: u32, k: int|
        #![trigger bubble.contains(x2), stored(ops, x2).operation_dependencies()[k]]
        bubble.contains(x2) && 0 <= k < stored(ops, x2).operation_dependencies().len() implies bubble.contains(
            stored(ops, x2).operation_dependencies()[k],
        ) || done.contains(stored(ops, x2).operation_dependencies()[k]) by {
        let d = stored(ops, x2).operation_dependencies()[k];
        assert(nodes.contains(x2));
        assert(edges.contains((d, x2)));
        assert(nodes.contains(d));
        if !bubble.contains(d) {
            assert(bubble.contains(x));
            if concurrent(edges, x, d) {
                assert(bubble.contains(d));
            }
            lemma_bubble_not_reentered(nodes, edges, bubble, x, x2, d);
            assert(reaches(edges, d, x));
            lemma_order_reaches(edges, order, d, x);
            lemma_index_of_distinct(order, i);
            let j = order.index_of(d);
            assert(order[j] == d);
            assert(j != i);
            assert(done.contains(order[j]));
        }
    }
}

/// Position of the first bubble holding operation `id`, if any.
fn find_bubble(bubbles: &Vec<Vec<u32>>, id: u32) -> (r: Option<usize>)
    ensures
        match r {
            Some(b) => b < bubbles@.len() && bubbles@[b as int]@.contains(id),
            None => forall|b: int| 0 <= b < bubbles@.len() ==> !(#[trigger] bubbles@[b])@.contains(id),
        },
{
    let mut b: usize = 0;
    while b < bubbles.len()
        invariant
            b <= bubbles@.len(),
            forall|j: int| 0 <= j < b ==> !(#[trigger] bubbles@[j])@.contains(id),
        decreases bubbles@.len() - b,
    {
        if contains_node(&bubbles[b], id) {
            return Some(b);
        }
        b = b + 1;
    }
    None
}

/// Returns `true` if `x` occurs in `v`.
fn contains_index(v: &Vec<usize>, x: usize) -> (r: bool)
    ensures
        r == v@.contains(x),
{
    let mut i: usize = 0;
    while i < v.len()
        invariant
            i <= v@.len(),
            forall|j: int| 0 <= j < i ==> v@[j] != x,
        decreases v@.len() - i,
    {
        if v[i] == x {
            return true;
        }
        i = i + 1;
    }
    false
}

/// What a rebuild by the strong remove rules promises: operations and graph unchanged, no state
/// forgotten, on a graph without cycles a state for every operation, the filter and mutual removes
/// within the graph, the filter empty or that of one bubble, and, when the graph is ready for
/// rebuilds, every state resolved.
pub open spec fn strong_rebuild<ID: Copy, C: Clone + PartialOrd + PartialEq, M: Operation<ID, u32, C>>(
    y: GroupCrdtInnerState<ID, C, M>,
    z: GroupCrdtInnerState<ID, C, M>,
) -> bool {
    &&& z.operations == y.operations
    &&& z.graph == y.graph
    &&& y.states@.dom().subset_of(z.states@.dom())
    &&& acyclic(graph_edges(y.graph)) && operation_ids_match(y.operations@) ==> forall|n: u32|
        #[trigger] graph_nodes(y.graph).contains(n) ==> z.states@.contains_key(n)
    &&& acyclic(graph_edges(y.graph)) && operation_ids_match(y.operations@) ==> tips_recorded(z)
    &&& forall|x: u32| #[trigger] z.ignore@.contains(x) ==> graph_nodes(z.graph).contains(x)
    &&& z.ignore@.len() == 0 || exists|b: Seq<u32>|
        #[trigger] is_bubble(graph_nodes(y.graph), graph_edges(y.graph), b) && forall|x: u32|
            #[trigger] z.ignore@.contains(x) <==> filtered_in(y.operations@, y.graph, b, b, x)
    &&& forall|x: u32| #[trigger] z.mutual_removes@.contains(x) ==> graph_nodes(z.graph).contains(x)
    &&& rebuild_ready(y.operations@, y.graph) ==> settled(z)
}

/// A rebuild by the strong remove rules succeeds: the graph is ready for rebuilds, equality of
/// conditions follows its specification, and where every state is resolved no operation's action
/// fails to apply to the states at its dependencies.
pub open spec fn rebuild_completes<ID: Copy, C: Clone + PartialOrd + PartialEq, M: Operation<ID, u32, C>>(
    y: GroupCrdtInnerState<ID, C, M>,
) -> bool {
    &&& rebuild_ready(y.operations@, y.graph)
    &&& C::obeys_eq_spec()
    &&& exists|w: GroupCrdtInnerState<ID, C, M>|
        #[trigger] settled_like(w, y) && forall|n: u32| #[trigger] graph_nodes(y.graph).contains(n) ==> !blocked_in(w, n)
}

/// An implementation of `Resolver` which follows the strong remove ruleset.
///
/// Concurrent operations are identified and processed; any which should be invalidated are added
/// to the operation filter and not applied to the group state. Once an operation has been
/// filtered, any operations which depended on any resulting state will not be applied to group
/// state either.
///
/// ## Strong Remove Concurrency Rules
///
/// ### Removals
///
/// If a removal has occurred, filter any concurrent operations by the removed member, as long as
/// it's 1) not a predecessor of the remove operation, and 2) not a mutual removal (see below).
///
/// ### Mutual removals
///
/// Mutual removes can occur directly (A removes B, B removes A) or in a cycle (A removes B, B
/// removes C, C removes A), cycles may even include delegations by removed members. The result of
/// all of these cases should be that all members which were part of the cycle should be removed
/// from the group.
///
/// ### Re-adding member concurrently
///
/// If Alice removes Charlie and Bob removes then adds Charlie concurrently, Charlie is removed
/// from the group and all their concurrent actions should be filtered.
///
/// ### Filtering of transitively dependent operations
///
/// When an operation is "explicitly" filtered it may cause dependent operations to become
/// invalid, these operations should not be applied to the group state.
pub struct StrongRemove<ID, C, M> {
    _phantom: PhantomData<(ID, C, M)>,
}

impl<ID: IdentityHandle, C: Clone + PartialOrd + PartialEq, M: Operation<ID, u32, C>> Resolver<ID, u32, C, M> for StrongRemove<
    ID,
    C,
    M,
> {
    type State = GroupCrdtInnerState<ID, C, M>;

    type Error = GroupCrdtInnerError<u32>;

    open spec fn rebuilds(y: Self::State, operation: M) -> bool {
        concurrent_to(y, operation.operation_dependencies())
    }

    open spec fn rebuilt(before: Self::State, after: Self::State) -> bool {
        strong_rebuild(before, after)
    }

    open spec fn decides(y: Self::State, operation: M) -> bool {
        true
    }

    open spec fn completes(y: Self::State) -> bool {
        rebuild_completes(y)
    }

    /// A rebuild is required when the operation's dependencies are not exactly the tips of the
    /// operation graph.
    fn rebuild_required(y: &Self::State, operation: &M) -> (r: Result<bool, Self::Error>)
        ensures
            r == Ok::<bool, Self::Error>(concurrent_to(*y, operation.operation_dependencies())),
    {
        let dependencies = operation.dependencies();
        Ok(!same_nodes(&y.heads(), &dependencies))
    }

    /// Process the group operation graph, producing a new filter and re-building all state
    /// accordingly: the filter is cleared, then the operations are re-applied in a topological
    /// order of the graph, where the first operation of each bubble of concurrent operations
    /// re-applies the whole bubble with its own filter (see `compute_filter`).
    #[verifier::rlimit(50)]
    #[verifier::spinoff_prover]
    fn process(y: Self::State) -> (r: Result<Self::State, Self::Error>)
        ensures
            match r {
                Ok(z) => strong_rebuild(y, z),
                Err(e) => rebuild_ready(y.operations@, y.graph) && C::obeys_eq_spec() ==> (e matches GroupCrdtInnerError::<
                    u32,
                >::ActionNotApplicable(n) && graph_nodes(y.graph).contains(n) && forall|w: GroupCrdtInnerState<ID, C, M>|
                    #[trigger] settled_like(w, y) ==> blocked_in(w, n)),
            },
    {
        let ghost y_in = y;
        let GroupCrdtInnerState { operations, ignore: _, mutual_removes: _, states, graph } = y;
        let mut y = GroupCrdtInnerState { operations, ignore: Vec::new(), mutual_removes: Vec::new(), states, graph };
        let ghost ops = y.operations;
        let ghost graph0 = y.graph;
        let ghost nodes = graph_nodes(graph0);
        let ghost edges = graph_edges(graph0);
        let ghost states0 = y.states@;
        let ghost complete = acyclic(graph_edges(graph0)) && operation_ids_match(ops@);
        let ghost ready = rebuild_ready(ops@, graph0);
        let ghost mut done: Set<u32> = Set::empty();
        let bubbles = concurrent_bubbles(&y.graph);
        let ghost views = bubble_views(bubbles@);
        let mut processed_bubbles: Vec<usize> = Vec::new();
        let order = topological_order(&y.graph);
        let mut i: usize = 0;
        #[verifier::loop_isolation(false)]
        while i < order.len()
            invariant
                i <= order@.len(),
                y_in.operations == ops,
                y_in.graph == graph0,
                y.operations == ops,
                y.graph == graph0,
                nodes == graph_nodes(graph0),
                edges == graph_edges(graph0),
                complete == (acyclic(edges) && operation_ids_match(ops@)),
                ready == rebuild_ready(ops@, graph0),
                views == bubble_views(bubbles@),
                all_bubbles(nodes, edges, views),
                order@.no_duplicates(),
                respects_edges(edges, order@),
                states0.dom().subset_of(y.states@.dom()),
                forall|n: u32| #[trigger] order@.contains(n) ==> graph_nodes(graph0).contains(n),
                complete ==> forall|j: int| 0 <= j < i ==> y.states@.contains_key(#[trigger] order@[j]),
                forall|k: int| 0 <= k < processed_bubbles@.len() ==> #[trigger] processed_bubbles@[k] < bubbles@.len(),
                complete ==> forall|k: int, x: u32|
                    #![trigger bubbles@[processed_bubbles@[k] as int]@.contains(x)]
                    0 <= k < processed_bubbles@.len() && bubbles@[processed_bubbles@[k] as int]@.contains(x)
                        && graph_nodes(graph0).contains(x) ==> y.states@.contains_key(x),
                ready ==> resolved_within(y, done),
                ready ==> forall|j: int| 0 <= j < i ==> done.contains(#[trigger] order@[j]),
                ready ==> forall|x: u32, b: int|
                    #![trigger done.contains(x), views[b].contains(x)]
                    done.contains(x) && 0 <= b < views.len() && views[b].contains(x) ==> processed_bubbles@.contains(b as usize),
                ready ==> forall|x: u32|
                    #[trigger] done.contains(x) && (forall|b: int| 0 <= b < views.len() ==> !(#[trigger] views[b]).contains(x))
                        ==> order@.take(i as int).contains(x),
                ready ==> forall|k: int, x: u32|
                    #![trigger views[processed_bubbles@[k] as int].contains(x)]
                    0 <= k < processed_bubbles@.len() && views[processed_bubbles@[k] as int].contains(x) ==> done.contains(x),
                forall|x: u32| #[trigger] y.ignore@.contains(x) ==> nodes.contains(x),
                forall|x: u32| #[trigger] y.mutual_removes@.contains(x) ==> nodes.contains(x),
                y.ignore@.len() == 0 || exists|b: Seq<u32>|
                    #[trigger] is_bubble(nodes, edges, b) && forall|x: u32|
                        #[trigger] y.ignore@.contains(x) <==> filtered_in(ops@, graph0, b, b, x),
                ready ==> forall|x: u32| #[trigger] y.ignore@.contains(x) ==> done.contains(x),
                ready ==> forall|x: u32| #[trigger] y.mutual_removes@.contains(x) ==> done.contains(x),
            decreases order@.len() - i,
        {
            let operation_id = order[i];
            let ghost before = y;
            let ghost processed_before = processed_bubbles@;
            let ghost done_before = done;
            proof {
                assert(order@.contains(operation_id));
                lemma_index_of_distinct(order@, i as int);
            }
            match find_bubble(&bubbles, operation_id) {
                None => {
                    proof {
                        if ready {
                            let x = operation_id;
                            assert forall|b: int| 0 <= b < views.len() implies !(#[trigger] views[b]).contains(x) by {
                                assert(views[b] == bubbles@[b]@);
                            }
                            assert(!done.contains(x)) by {
                                if done.contains(x) {
                                    let j = choose|j: int| 0 <= j < i && order@.take(i as int)[j] == x;
                                    assert(order@[j] == x);
                                }
                            }
                            let deps = stored(ops@, x).operation_dependencies();
                            assert forall|k: int| 0 <= k < deps.len() implies done.contains(#[trigger] deps[k]) by {
                                let d = deps[k];
                                assert(edges.contains((d, x)));
                                assert(order@.contains(d));
                                let j = order@.index_of(d);
                                assert(order@[j] == d);
                            }
                        }
                    }
                    y = match apply_operation(y, operation_id) {
                        Ok(y) => y,
                        Err(e) => {
                            proof {
                                if ready && C::obeys_eq_spec() {
                                    assert(!before.mutual_removes@.contains(operation_id));
                                    lemma_process_blocked(before, y_in, done, operation_id, e);
                                }
                            }
                            return Err(e);
                        },
                    };
                    proof {
                        if complete {
                            lemma_stored_id(ops@, operation_id);
                        }
                        if ready {
                            let x = operation_id;
                            lemma_outside_bubbles(ops@, graph0, views, x);
                            lemma_resolved_step(before, y, done, x);
                            done = done.insert(x);
                            assert forall|x2: u32, b: int|
                                #![trigger done.contains(x2), views[b].contains(x2)]
                                done.contains(x2) && 0 <= b < views.len() && views[b].contains(x2) implies processed_bubbles@.contains(b as usize) by {
                                if x2 != x {
                                    assert(done_before.contains(x2));
                                }
                            }
                            assert forall|x2: u32|
                                #[trigger] done.contains(x2) && (forall|b: int| 0 <= b < views.len() ==> !(#[trigger] views[b]).contains(x2))
                                    implies order@.take(i + 1).contains(x2) by {
                                if x2 != x {
                                    assert(done_before.contains(x2));
                                    assert(order@.take(i as int).contains(x2));
                                    let j = choose|j: int| 0 <= j < i && order@.take(i as int)[j] == x2;
                                    assert(order@.take(i + 1)[j] == x2);
                                } else {
                                    assert(order@.take(i + 1)[i as int] == x2);
                                }
                            }
                        }
                    }
                },
                Some(b) => {
                    if !contains_index(&processed_bubbles, b) {
                        proof {
                            if ready {
                                lemma_bubble_ready(y, views, order@, i as int, b as int, done, processed_bubbles@);
                                assert(views[b as int] == bubbles@[b as int]@);
                            }
                        }
                        y = match process_bubble(y, &bubbles[b], Ghost(done)) {
                            Ok(y) => y,
                            Err(e) => {
                                proof {
                                    if ready && C::obeys_eq_spec() {
                                        assert forall|w: GroupCrdtInnerState<ID, C, M>| #[trigger] settled_like(w, y_in) implies settled_like(
                                            w,
                                            before,
                                        ) by {}
                                    }
                                }
                                return Err(e);
                            },
                        };
                        processed_bubbles.push(b);
                        proof {
                            assert(views[b as int] == bubbles@[b as int]@);
                            assert(is_bubble(nodes, edges, bubbles@[b as int]@));
                            assert forall|x2: u32| #[trigger] y.mutual_removes@.contains(x2) implies nodes.contains(x2) by {
                                assert(bubbles@[b as int]@.contains(x2));
                            }
                            assert forall|k: int| 0 <= k < processed_bubbles@.len() implies #[trigger] processed_bubbles@[k]
                                < bubbles@.len() by {
                                if k < processed_before.len() {
                                    assert(processed_before[k] == processed_bubbles@[k]);
                                }
                            }
                            if ready {
                                let bset = bubbles@[b as int]@;
                                assert(views[b as int] == bset);
                                done = done.union(bset.to_set());
                                assert(processed_bubbles@[processed_before.len() as int] == b);
                                assert forall|x2: u32, b2: int|
                                    #![trigger done.contains(x2), views[b2].contains(x2)]
                                    done.contains(x2) && 0 <= b2 < views.len() && views[b2].contains(x2) implies processed_bubbles@.contains(b2 as usize) by {
                                    if done_before.contains(x2) {
                                        assert(processed_before.contains(b2 as usize));
                                        let k = choose|k: int| 0 <= k < processed_before.len() && processed_before[k] == b2 as usize;
                                        assert(processed_bubbles@[k] == b2 as usize);
                                    } else {
                                        assert(bset.contains(x2));
                                        assert(views[b as int].contains(x2));
                                        assert(b2 == b as int);
                                    }
                                }
                                assert forall|x2: u32|
                                    #[trigger] done.contains(x2) && (forall|b2: int| 0 <= b2 < views.len() ==> !(#[trigger] views[b2]).contains(x2))
                                        implies order@.take(i + 1).contains(x2) by {
                                    if done_before.contains(x2) {
                                        assert(order@.take(i as int).contains(x2));
                                        let j = choose|j: int| 0 <= j < i && order@.take(i as int)[j] == x2;
                                        assert(order@.take(i + 1)[j] == x2);
                                    } else {
                                        assert(bset.contains(x2));
                                        assert(views[b as int].contains(x2));
                                    }
                                }
                                assert forall|k: int, x2: u32|
                                    #![trigger views[processed_bubbles@[k] as int].contains(x2)]
                                    0 <= k < processed_bubbles@.len() && views[processed_bubbles@[k] as int].contains(x2) implies done.contains(x2) by {
                                    if k < processed_before.len() {
                                        assert(processed_before[k] == processed_bubbles@[k]);
                                    } else {
                                        assert(bset.to_set().contains(x2));
                                    }
                                }
                                assert(bset.contains(operation_id));
                                assert(done.contains(operation_id));
                                assert forall|x2: u32| #[trigger] y.ignore@.contains(x2) implies done.contains(x2) by {
                                    assert(bset.contains(x2));
                                    assert(bset.to_set().contains(x2));
                                }
                                assert forall|x2: u32| #[trigger] y.mutual_removes@.contains(x2) implies done.contains(x2) by {
                                    assert(bset.contains(x2));
                                    assert(bset.to_set().contains(x2));
                                }
                            }
                        }
                    } else {
                        proof {
                            if complete {
                                let k = choose|k: int| 0 <= k < processed_bubbles@.len() && processed_bubbles@[k] == b;
                                assert(bubbles@[processed_bubbles@[k] as int]@.contains(operation_id));
                            }
                            if ready {
                                let k = choose|k: int| 0 <= k < processed_bubbles@.len() && processed_bubbles@[k] == b;
                                assert(views[b as int] == bubbles@[b as int]@);
                                assert(views[processed_bubbles@[k] as int].contains(operation_id));
                                assert(done.contains(operation_id));
                                assert forall|x2: u32|
                                    #[trigger] done.contains(x2) && (forall|b2: int| 0 <= b2 < views.len() ==> !(#[trigger] views[b2]).contains(x2))
                                        implies order@.take(i + 1).contains(x2) by {
                                    assert(order@.take(i as int).contains(x2));
                                    let j = choose|j: int| 0 <= j < i && order@.take(i as int)[j] == x2;
                                    assert(order@.take(i + 1)[j] == x2);
                                }
                            }
                        }
                    }
                },
            }
            proof {
                if complete {
                    assert(y.states@.contains_key(operation_id));
                    assert forall|j: int| 0 <= j < i + 1 implies y.states@.contains_key(#[trigger] order@[j]) by {
                        if j < i {
                            assert(before.states@.contains_key(order@[j]));
                        }
                    }
                    assert forall|k: int, x: u32|
                        #![trigger bubbles@[processed_bubbles@[k] as int]@.contains(x)]
                        0 <= k < processed_bubbles@.len() && bubbles@[processed_bubbles@[k] as int]@.contains(x)
                            && graph_nodes(graph0).contains(x) implies y.states@.contains_key(x) by {
                        if k < processed_before.len() {
                            assert(processed_before[k] == processed_bubbles@[k]);
                            assert(before.states@.contains_key(x));
                        }
                    }
                }
                if ready {
                    assert forall|j: int| 0 <= j < i + 1 implies done.contains(#[trigger] order@[j]) by {
                        if j < i {
                            assert(done_before.contains(order@[j]));
                        }
                    }
                }
            }
            i = i + 1;
        }
        proof {
            if complete {
                assert forall|n: u32| #[trigger] graph_nodes(graph0).contains(n) implies y.states@.contains_key(n) by {
                    assert(order@.contains(n));
                    let j = choose|j: int| 0 <= j < order@.len() && order@[j] == n;
                    assert(y.states@.contains_key(order@[j]));
                }
            }
            if ready {
                assert forall|n: u32| #[trigger] graph_nodes(y.graph).contains(n) implies y.states@.contains_key(n) && resolved_at(y, n) by {
                    assert(order@.contains(n));
                    let j = choose|j: int| 0 <= j < order@.len() && order@[j] == n;
                    assert(done.contains(order@[j]));
                }
            }
        }
        Ok(y)
    }
}


// ------------------------------------------------------------------------------------------------
// Strong remove rules
// ------------------------------------------------------------------------------------------------

/// Removals: an action of the removed or demoted member in the same group, concurrent to the
/// removal and in the same bubble, is filtered out.
pub proof fn lemma_removed_member_actions_filtered<ID: Copy, C, M: Operation<ID, u32, C>>(
    operations: Seq<(u32, M)>,
    graph: DiGraphMap<u32, ()>,
    bubble: Seq<u32>,
    r: u32,
    x: u32,
    removed: ID,
)
    requires
        bubble.contains(r),
        bubble.contains(x),
        graph_nodes(graph).contains(x),
        removed_manager(stored(operations, r).operation_action()) == Some(removed),
        concurrent(graph_edges(graph), r, x),
        acts_in(stored(operations, r).operation_group(), removed, stored(operations, x)),
    ensures
        filtered_in(operations, graph, bubble, bubble, x),
{
    let j = choose|j: int| 0 <= j < bubble.len() && bubble[j] == r;
    assert(filtered_by(operations, graph_edges(graph), bubble[j], x));
}

/// Re-adding a member concurrently: an operation which adds the removed or demoted member to the
/// same group again, concurrent to the removal and in the same bubble, is filtered out.
pub proof fn lemma_concurrent_readd_filtered<ID: Copy, C, M: Operation<ID, u32, C>>(
    operations: Seq<(u32, M)>,
    graph: DiGraphMap<u32, ()>,
    bubble: Seq<u32>,
    r: u32,
    x: u32,
    removed: ID,
)
    requires
        bubble.contains(r),
        bubble.contains(x),
        graph_nodes(graph).contains(x),
        removed_manager(stored(operations, r).operation_action()) == Some(removed),
        concurrent(graph_edges(graph), r, x),
        readds(stored(operations, r).operation_group(), removed, stored(operations, x)),
    ensures
        filtered_in(operations, graph, bubble, bubble, x),
{
    let j = choose|j: int| 0 <= j < bubble.len() && bubble[j] == r;
    assert(filtered_by(operations, graph_edges(graph), bubble[j], x));
}

/// Only concurrent operations are filtered: every filtered operation is concurrent to some removal
/// or demotion in its bubble.
pub proof fn lemma_only_concurrent_filtered<ID: Copy, C, M: Operation<ID, u32, C>>(
    operations: Seq<(u32, M)>,
    graph: DiGraphMap<u32, ()>,
    bubble: Seq<u32>,
    x: u32,
)
    requires
        filtered_in(operations, graph, bubble, bubble, x),
    ensures
        exists|r: u32|
            #[trigger] bubble.contains(r) && removed_manager(stored(operations, r).operation_action()) is Some
                && concurrent(graph_edges(graph), r, x),
{
    let j = choose|j: int| 0 <= j < bubble.len() && filtered_by(operations, graph_edges(graph), #[trigger] bubble[j], x);
    assert(bubble.contains(bubble[j]));
}

/// Mutual removals: re-applying an operation of a mutual remove cycle leaves the removed member
/// inactive, whatever the membership rules say of its author.
pub proof fn lemma_mutual_removal_applied<ID, C>(groups: Map<ID, MembersView<ID, C>>, group_id: ID, removed: GroupMember<ID>)
    requires
        groups.contains_key(group_id),
        groups[group_id].contains_key(removed) ==> groups[group_id][removed].member_counter < usize::MAX,
    ensures
        !(removed_unchecked(groups, group_id, removed)[group_id].contains_key(removed) && is_member_spec(
            removed_unchecked(groups, group_id, removed)[group_id][removed],
        )),
{
}


// ------------------------------------------------------------------------------------------------
// Convergence
// ------------------------------------------------------------------------------------------------

/// Two states hold the same operation graph: the same nodes and edges, and the same operation
/// recorded for every node.
pub open spec fn same_graph<ID, C, M>(y1: GroupCrdtInnerState<ID, C, M>, y2: GroupCrdtInnerState<ID, C, M>) -> bool {
    &&& graph_nodes(y1.graph).to_set() == graph_nodes(y2.graph).to_set()
    &&& graph_edges(y1.graph) == graph_edges(y2.graph)
    &&& forall|n: u32| #[trigger] graph_nodes(y1.graph).contains(n) ==> stored(y1.operations@, n) == stored(y2.operations@, n)
}

/// Merged states depend only on the states of the merged operations.
proof fn lemma_merged_view_agree<ID, C: PartialOrd>(
    states1: Map<u32, Map<ID, MembersView<ID, C>>>,
    states2: Map<u32, Map<ID, MembersView<ID, C>>>,
    ids: Seq<u32>,
)
    requires
        forall|k: int| 0 <= k < ids.len() ==> states1[#[trigger] ids[k]] == states2[ids[k]],
    ensures
        merged_view(states1, ids) == merged_view(states2, ids),
    decreases ids.len(),
{
    if ids.len() > 0 {
        let rest = ids.drop_last();
        assert forall|k: int| 0 <= k < rest.len() implies states1[#[trigger] rest[k]] == states2[rest[k]] by {
            assert(rest[k] == ids[k]);
        }
        lemma_merged_view_agree(states1, states2, rest);
        assert(states1[ids[ids.len() - 1]] == states2[ids[ids.len() - 1]]);
    }
}

/// The removals and delegations registered by some operations depend only on what is recorded
/// for them.
proof fn lemma_changes_agree<ID: Copy, C, M: Operation<ID, u32, C>>(
    ops1: Seq<(u32, M)>,
    ops2: Seq<(u32, M)>,
    s: Seq<u32>,
    g: ID,
)
    requires
        forall|k: int| 0 <= k < s.len() ==> stored(ops1, #[trigger] s[k]) == stored(ops2, s[k]),
    ensures
        removal_changes(ops1, s, g) == removal_changes(ops2, s, g),
        delegation_changes(ops1, s, g) == delegation_changes(ops2, s, g),
    decreases s.len(),
{
    if s.len() > 0 {
        let rest = s.drop_last();
        assert forall|k: int| 0 <= k < rest.len() implies stored(ops1, #[trigger] rest[k]) == stored(ops2, rest[k]) by {
            assert(rest[k] == s[k]);
        }
        lemma_changes_agree(ops1, ops2, rest, g);
        assert(stored(ops1, s[s.len() - 1]) == stored(ops2, s[s.len() - 1]));
    }
}

/// Whether an operation is filtered out, and whether it is in a mutual remove cycle, depends only
/// on the operation graph.
proof fn lemma_rules_agree<ID: Copy, C, M: Operation<ID, u32, C>>(
    ops1: Seq<(u32, M)>,
    graph1: DiGraphMap<u32, ()>,
    ops2: Seq<(u32, M)>,
    graph2: DiGraphMap<u32, ()>,
    n: u32,
)
    requires
        graph_nodes(graph1).to_set() == graph_nodes(graph2).to_set(),
        graph_edges(graph1) == graph_edges(graph2),
        forall|m: u32| #[trigger] graph_nodes(graph1).contains(m) ==> stored(ops1, m) == stored(ops2, m),
        graph_nodes(graph1).contains(n),
    ensures
        strongly_filtered(ops1, graph1, n) == strongly_filtered(ops2, graph2, n),
        in_mutual_cycle(ops1, graph1, n) == in_mutual_cycle(ops2, graph2, n),
{
    let nodes1 = graph_nodes(graph1);
    let nodes2 = graph_nodes(graph2);
    let edges = graph_edges(graph1);
    assert forall|x: u32| nodes1.contains(x) == nodes2.contains(x) by {
        assert(nodes1.to_set().contains(x) == nodes2.to_set().contains(x));
    }
    if strongly_filtered(ops1, graph1, n) {
        let r = choose|r: u32| nodes1.contains(r) && #[trigger] filtered_by(ops1, edges, r, n);
        assert(filtered_by(ops2, edges, r, n));
    }
    if strongly_filtered(ops2, graph2, n) {
        let r = choose|r: u32| nodes2.contains(r) && #[trigger] filtered_by(ops2, edges, r, n);
        assert(filtered_by(ops1, edges, r, n));
    }
    assert forall|m: u32| component(graph1, n).contains(m) == component(graph2, n).contains(m) by {
        lemma_linked_same_nodes(nodes1, nodes2, edges, n, m);
    }
    let comp = component(graph1, n);
    assert(component(graph2, n) =~= comp);
    assert(kept_edges(graph2, comp) =~= kept_edges(graph1, comp));
    let op = stored(ops1, n);
    let g = op.operation_group();
    assert(stored(ops2, n) == op);
    assert forall|m: u32| #[trigger] comp.contains(m) implies nodes1.contains(m) by {
        let c = choose|c: Seq<u32>| #[trigger] is_concurrency_chain(nodes1, edges, c) && c[0] == n && c[c.len() - 1] == m;
        assert(nodes1.contains(c[c.len() - 1]));
    }
    if in_mutual_cycle(ops1, graph1, n) {
        let s = choose|s: Seq<u32>|
            #[trigger] s.to_set() == comp && mutual_remove(
                op,
                removal_changes(ops1, s, g),
                delegation_changes(ops1, s, g),
                kept_edges(graph1, comp),
            );
        assert forall|k: int| 0 <= k < s.len() implies stored(ops1, #[trigger] s[k]) == stored(ops2, s[k]) by {
            assert(s.to_set().contains(s[k]));
        }
        lemma_changes_agree(ops1, ops2, s, g);
        assert(in_mutual_cycle(ops2, graph2, n));
    }
    if in_mutual_cycle(ops2, graph2, n) {
        let s = choose|s: Seq<u32>|
            #[trigger] s.to_set() == comp && mutual_remove(
                op,
                removal_changes(ops2, s, g),
                delegation_changes(ops2, s, g),
                kept_edges(graph2, comp),
            );
        assert forall|k: int| 0 <= k < s.len() implies stored(ops1, #[trigger] s[k]) == stored(ops2, s[k]) by {
            assert(s.to_set().contains(s[k]));
        }
        lemma_changes_agree(ops1, ops2, s, g);
        assert(in_mutual_cycle(ops1, graph1, n));
    }
}

proof fn lemma_agree_at<ID: Copy, C: Clone + PartialOrd + PartialEq, M: Operation<ID, u32, C>>(
    y1: GroupCrdtInnerState<ID, C, M>,
    y2: GroupCrdtInnerState<ID, C, M>,
    n: u32,
)
    requires
        settled(y1),
        settled(y2),
        same_graph(y1, y2),
        acyclic(graph_edges(y1.graph)),
        graph_consistent(y1.operations@, y1.graph),
        clones_exact::<C>(),
        C::obeys_eq_spec(),
        graph_nodes(y1.graph).contains(n),
    ensures
        y1.states@[n] == y2.states@[n],
    decreases ancestors(y1.graph, n).len(),
{
    let ops1 = y1.operations@;
    let ops2 = y2.operations@;
    let op = stored(ops1, n);
    let deps = op.operation_dependencies();
    assert(graph_nodes(y1.graph).to_set().contains(n));
    assert(graph_nodes(y2.graph).contains(n));
    assert(stored(ops2, n) == op);
    assert forall|k: int| 0 <= k < deps.len() implies y1.states@[#[trigger] deps[k]] == y2.states@[deps[k]] by {
        let d = deps[k];
        assert(graph_edges(y1.graph).contains((d, n)));
        assert(graph_nodes(y1.graph).contains(d));
        lemma_ancestors_shrink(y1.graph, d, n);
        lemma_agree_at(y1, y2, d);
    }
    lemma_merged_view_agree(y1.states@, y2.states@, deps);
    assert(state_before(y1, op) == state_before(y2, op));
    lemma_rules_agree::<ID, C, M>(ops1, y1.graph, ops2, y2.graph, n);
    assert(resolved_at(y1, n));
    assert(resolved_at(y2, n));
    if !in_mutual_cycle(ops1, y1.graph, n) {
        let f = filter_of(strongly_filtered(ops1, y1.graph, n), op.operation_id());
        let base = state_before(y1, op);
        let r1 = choose|res: StateChangeResult<ID, C>|
            {
                &&& apply_outcome(base, op.operation_group(), op.operation_id(), op.operation_author(), op.operation_action(), f, res)
                &&& y1.states@[n] == #[trigger] result_state(res)@
            };
        let r2 = choose|res: StateChangeResult<ID, C>|
            {
                &&& apply_outcome(base, op.operation_group(), op.operation_id(), op.operation_author(), op.operation_action(), f, res)
                &&& y2.states@[n] == #[trigger] result_state(res)@
            };
        lemma_apply_outcome_unique(
            base,
            op.operation_group(),
            op.operation_id(),
            op.operation_author(),
            op.operation_action(),
            f,
            r1,
            r2,
        );
    }
}

/// A state resolved on the operations `done`, which hold the dependencies of each of them, agrees
/// on them with any settled state holding the same operations and graph.
proof fn lemma_agree_within<ID: Copy, C: Clone + PartialOrd + PartialEq, M: Operation<ID, u32, C>>(
    y: GroupCrdtInnerState<ID, C, M>,
    done: Set<u32>,
    w: GroupCrdtInnerState<ID, C, M>,
    n: u32,
)
    requires
        resolved_within(y, done),
        done.contains(n),
        settled(w),
        w.operations == y.operations,
        w.graph == y.graph,
        acyclic(graph_edges(y.graph)),
        graph_consistent(y.operations@, y.graph),
        clones_exact::<C>(),
        C::obeys_eq_spec(),
    ensures
        y.states@[n] == w.states@[n],
    decreases ancestors(y.graph, n).len(),
{
    let ops = y.operations@;
    let op = stored(ops, n);
    let deps = op.operation_dependencies();
    assert(graph_nodes(y.graph).contains(n));
    assert forall|k: int| 0 <= k < deps.len() implies y.states@[#[trigger] deps[k]] == w.states@[deps[k]] by {
        let d = deps[k];
        assert(graph_edges(y.graph).contains((d, n)));
        assert(done.contains(d));
        lemma_ancestors_shrink(y.graph, d, n);
        lemma_agree_within(y, done, w, d);
    }
    lemma_merged_view_agree(y.states@, w.states@, deps);
    assert(state_before(y, op) == state_before(w, op));
    assert(resolved_at(y, n));
    assert(resolved_at(w, n));
    if !in_mutual_cycle(ops, y.graph, n) {
        let f = filter_of(strongly_filtered(ops, y.graph, n), op.operation_id());
        let base = state_before(y, op);
        let r1 = choose|res: StateChangeResult<ID, C>|
            {
                &&& apply_outcome(base, op.operation_group(), op.operation_id(), op.operation_author(), op.operation_action(), f, res)
                &&& y.states@[n] == #[trigger] result_state(res)@
            };
        let r2 = choose|res: StateChangeResult<ID, C>|
            {
                &&& apply_outcome(base, op.operation_group(), op.operation_id(), op.operation_author(), op.operation_action(), f, res)
                &&& w.states@[n] == #[trigger] result_state(res)@
            };
        lemma_apply_outcome_unique(
            base,
            op.operation_group(),
            op.operation_id(),
            op.operation_author(),
            op.operation_action(),
            f,
            r1,
            r2,
        );
    }
}

/// An action found not to apply during a rebuild, on states resolved for all its dependencies,
/// does not apply in any settled state holding the same operations and graph either.
proof fn lemma_blocked_everywhere<ID: Copy, C: Clone + PartialOrd + PartialEq, M: Operation<ID, u32, C>>(
    y: GroupCrdtInnerState<ID, C, M>,
    done: Set<u32>,
    x: u32,
)
    requires
        resolved_within(y, done),
        forall|i: int|
            0 <= i < stored(y.operations@, x).operation_dependencies().len() ==> done.contains(
                #[trigger] stored(y.operations@, x).operation_dependencies()[i],
            ),
        blocked_in(y, x),
        acyclic(graph_edges(y.graph)),
        graph_consistent(y.operations@, y.graph),
        clones_exact::<C>(),
        C::obeys_eq_spec(),
    ensures
        forall|w: GroupCrdtInnerState<ID, C, M>| #[trigger] settled_like(w, y) ==> blocked_in(w, x),
{
    assert forall|w: GroupCrdtInnerState<ID, C, M>| #[trigger] settled_like(w, y) implies blocked_in(w, x) by {
        let op = stored(y.operations@, x);
        let deps = op.operation_dependencies();
        assert forall|k: int| 0 <= k < deps.len() implies y.states@[#[trigger] deps[k]] == w.states@[deps[k]] by {
            lemma_agree_within(y, done, w, deps[k]);
        }
        lemma_merged_view_agree(y.states@, w.states@, deps);
        assert(state_before(y, op) == state_before(w, op));
    }
}

/// A rebuild which fails to re-apply an operation, with states resolved for all its
/// dependencies and no mutual remove pending on it, fails because its action does not apply, and
/// that action applies in no settled state of the graph either.
proof fn lemma_process_blocked<ID: Copy, C: Clone + PartialOrd + PartialEq, M: Operation<ID, u32, C>>(
    before: GroupCrdtInnerState<ID, C, M>,
    y: GroupCrdtInnerState<ID, C, M>,
    done: Set<u32>,
    x: u32,
    e: GroupCrdtInnerError<u32>,
)
    requires
        rebuild_ready(before.operations@, before.graph),
        C::obeys_eq_spec(),
        before.operations == y.operations,
        before.graph == y.graph,
        resolved_within(before, done),
        graph_nodes(before.graph).contains(x),
        !before.mutual_removes@.contains(x),
        forall|i: int|
            0 <= i < stored(before.operations@, x).operation_dependencies().len() ==> done.contains(
                #[trigger] stored(before.operations@, x).operation_dependencies()[i],
            ),
        apply_failure(before, x, e),
    ensures
        e == GroupCrdtInnerError::<u32>::ActionNotApplicable(x),
        forall|w: GroupCrdtInnerState<ID, C, M>| #[trigger] settled_like(w, y) ==> blocked_in(w, x),
{
    let ops = before.operations@;
    let op = stored(ops, x);
    lemma_stored_id(ops, x);
    assert(dependencies_recorded(before, op)) by {
        assert forall|k: int| 0 <= k < op.operation_dependencies().len() implies before.states@.contains_key(
            #[trigger] op.operation_dependencies()[k],
        ) by {
            assert(done.contains(op.operation_dependencies()[k]));
        }
    }
    lemma_blocked_everywhere(before, done, x);
    assert forall|w: GroupCrdtInnerState<ID, C, M>| #[trigger] settled_like(w, y) implies blocked_in(w, x) by {
        assert(settled_like(w, before));
    }
}

/// Eventual consistency of the group state: two states holding the same operation graph whose
/// recorded states are all resolved by the strong remove rules (as a rebuild leaves them) have
/// the same state after every operation, whatever the order in which the operations arrived and
/// were recorded, given a graph without cycles which matches the operations, exact clones and an
/// equality of conditions which follows its specification.
pub proof fn lemma_settled_states_agree<ID: Copy, C: Clone + PartialOrd + PartialEq, M: Operation<ID, u32, C>>(
    y1: GroupCrdtInnerState<ID, C, M>,
    y2: GroupCrdtInnerState<ID, C, M>,
)
    requires
        settled(y1),
        settled(y2),
        same_graph(y1, y2),
        acyclic(graph_edges(y1.graph)),
        graph_consistent(y1.operations@, y1.graph),
        clones_exact::<C>(),
        C::obeys_eq_spec(),
    ensures
        forall|n: u32| #[trigger] graph_nodes(y1.graph).contains(n) ==> y1.states@[n] == y2.states@[n],
{
    assert forall|n: u32| #[trigger] graph_nodes(y1.graph).contains(n) implies y1.states@[n] == y2.states@[n] by {
        lemma_agree_at(y1, y2, n);
    }
}


/// Every recorded state is resolved by the strong remove rules, on a graph without cycles which
/// matches the operations, with the filter within the graph.
pub open spec fn converged<ID: Copy, C: Clone + PartialOrd + PartialEq, M: Operation<ID, u32, C>>(
    y: GroupCrdtInnerState<ID, C, M>,
) -> bool {
    &&& settled(y)
    &&& rebuild_ready(y.operations@, y.graph)
    &&& forall|x: u32| #[trigger] y.ignore@.contains(x) ==> graph_nodes(y.graph).contains(x)
}

/// Processing with the strong remove resolver keeps the group state converged: when every
/// recorded state is resolved and a new operation, all of whose dependencies were processed
/// before, is processed successfully, every recorded state is resolved again, whether the
/// operation was recorded on the tips or the states were rebuilt. So the states that peers reach
/// by processing are those of `lemma_settled_states_agree`: peers which processed the same
/// operations, in whatever order they arrived, hold the same state after each of them.
pub proof fn lemma_process_converged<ID: IdentityHandle, C: Clone + PartialOrd + PartialEq, M: Operation<ID, u32, C>>(
    y: GroupCrdtInnerState<ID, C, M>,
    operation: M,
    z: GroupCrdtInnerState<ID, C, M>,
)
    requires
        converged(y),
        !has_key(y.operations@, operation.operation_id()),
        forall|d: u32| #[trigger] operation.operation_dependencies().contains(d) ==> graph_nodes(y.graph).contains(d),
        processed::<ID, C, M, StrongRemove<ID, C, M>>(y, operation, z),
    ensures
        converged(z),
{
    if concurrent_to(y, operation.operation_dependencies()) {
        let added = choose|added: GroupCrdtInnerState<ID, C, M>|
            {
                &&& added_operation(y, operation, added)
                &&& added.states == y.states
                &&& #[trigger] strong_rebuild(added, z)
            };
        lemma_added_ready(y, operation, added);
    } else {
        assert(ready_to_record(y, operation));
    }
}

/// Processing with the strong remove resolver succeeds for a valid new operation on the tips: one
/// which depends on exactly the tips of the graph, gives no group `Manage` access, passes
/// validation against the current state, and whose action applies to the states at its
/// dependencies. The resolver always decides, and no rebuild is needed.
pub proof fn lemma_strong_remove_process_succeeds<ID: IdentityHandle, C: Clone + PartialOrd + PartialEq, M: Operation<
    ID,
    u32,
    C,
> + Clone, OE>(inner: GroupCrdtInnerState<ID, C, M>, operation: M)
    requires
        !has_key(inner.operations@, operation.operation_id()),
        !manager_group_action(operation.operation_action()),
        conditions_ordered::<C>(),
        clones_exact::<C>(),
        !concurrent_to(inner, operation.operation_dependencies()),
        tips_recorded(inner),
        local_validation::<ID, C, M, GroupCrdtInnerError<u32>, OE>(inner, operation) is None,
        dependencies_recorded(inner, operation),
        applicable_to(state_before(inner, operation), operation.operation_group(), operation.operation_action()),
    ensures
        process_succeeds::<ID, C, M, StrongRemove<ID, C, M>, OE>(inner, operation),
{
}

/// Peers holding the same operations agree on the current group states: two converged states with
/// the same operation graph have the same tips, and the same states there, so the current state of
/// every group, which the members of a group are read from, is the same.
pub proof fn lemma_current_states_agree<ID: Copy, C: Clone + PartialOrd + PartialEq, M: Operation<ID, u32, C>>(
    y1: GroupCrdtInnerState<ID, C, M>,
    y2: GroupCrdtInnerState<ID, C, M>,
)
    requires
        converged(y1),
        converged(y2),
        same_graph(y1, y2),
        C::obeys_eq_spec(),
    ensures
        tips(y1.graph) == tips(y2.graph),
        merged_view(y1.states@, tips(y1.graph)) == merged_view(y2.states@, tips(y2.graph)),
{
    assert forall|n: u32| is_sink(y1.graph, n) <==> is_sink(y2.graph, n) by {
        assert(graph_nodes(y1.graph).to_set().contains(n) == graph_nodes(y1.graph).contains(n));
        assert(graph_nodes(y2.graph).to_set().contains(n) == graph_nodes(y2.graph).contains(n));
    }
    lemma_tips(y1.graph);
    lemma_tips(y2.graph);
    assert forall|n: u32| sink_nodes(y1.graph).to_set().contains(n) <==> sink_nodes(y2.graph).to_set().contains(n) by {
        assert(sink_nodes(y1.graph).to_set().contains(n) == sink_nodes(y1.graph).contains(n));
        assert(sink_nodes(y2.graph).to_set().contains(n) == sink_nodes(y2.graph).contains(n));
        assert(sink_nodes(y1.graph).contains(n) == is_sink(y1.graph, n));
        assert(sink_nodes(y2.graph).contains(n) == is_sink(y2.graph, n));
    }
    assert(sink_nodes(y1.graph).to_set() =~= sink_nodes(y2.graph).to_set());
    lemma_settled_states_agree(y1, y2);
    let t = tips(y1.graph);
    assert forall|k: int| 0 <= k < t.len() implies y1.states@[#[trigger] t[k]] == y2.states@[t[k]] by {
        assert(t.contains(t[k]));
        assert(is_sink(y1.graph, t[k]));
    }
    lemma_merged_view_agree(y1.states@, y2.states@, t);
}

/// What processing an operation does to the operations and the graph, whether its state is
/// recorded or rebuilt: the operation is added to both.
proof fn lemma_processed_graph<ID: IdentityHandle, C: Clone + PartialOrd + PartialEq, M: Operation<ID, u32, C>>(
    y: GroupCrdtInnerState<ID, C, M>,
    operation: M,
    z: GroupCrdtInnerState<ID, C, M>,
)
    requires
        processed::<ID, C, M, StrongRemove<ID, C, M>>(y, operation, z),
    ensures
        z.operations@ == put_entry(y.operations@, operation.operation_id(), operation),
        graph_nodes(z.graph).to_set() == graph_nodes(y.graph).to_set().insert(operation.operation_id()).union(
            operation.operation_dependencies().to_set(),
        ),
        graph_edges(z.graph) == graph_edges(y.graph).union(
            dependency_edges(operation.operation_id(), operation.operation_dependencies()),
        ),
{
    if concurrent_to(y, operation.operation_dependencies()) {
        let added = choose|added: GroupCrdtInnerState<ID, C, M>|
            {
                &&& added_operation(y, operation, added)
                &&& added.states == y.states
                &&& #[trigger] strong_rebuild(added, z)
            };
        assert(z.operations == added.operations && z.graph == added.graph);
    }
}

/// Two new operations stored in either order are found alike.
proof fn lemma_stored_two_pushes<M>(ops: Seq<(u32, M)>, k1: u32, v1: M, k2: u32, v2: M, n: u32)
    requires
        !has_key(ops, k1),
        !has_key(ops, k2),
        k1 != k2,
        n == k1 || n == k2 || has_key(ops, n),
    ensures
        stored(ops.push((k1, v1)).push((k2, v2)), n) == stored(ops.push((k2, v2)).push((k1, v1)), n),
{
    let a = ops.push((k1, v1));
    let b = ops.push((k2, v2));
    assert(!has_key(a, k2)) by {
        if has_key(a, k2) {
            let i = choose|i: int| 0 <= i < a.len() && a[i].0 == k2;
            if i < ops.len() {
                assert(ops[i].0 == k2);
            }
        }
    }
    assert(!has_key(b, k1)) by {
        if has_key(b, k1) {
            let i = choose|i: int| 0 <= i < b.len() && b[i].0 == k1;
            if i < ops.len() {
                assert(ops[i].0 == k1);
            }
        }
    }
    assert(has_key(a, k1)) by {
        assert(a[ops.len() as int].0 == k1);
    }
    assert(has_key(b, k2)) by {
        assert(b[ops.len() as int].0 == k2);
    }
    if has_key(ops, n) {
        let i = choose|i: int| 0 <= i < ops.len() && ops[i].0 == n;
        assert(a[i].0 == n);
        assert(b[i].0 == n);
    }
    lemma_stored_push(a, k2, v2, n);
    lemma_stored_push(b, k1, v1, n);
    if n != k1 {
        if n != k2 {
            lemma_stored_push(ops, k1, v1, n);
            lemma_stored_push(ops, k2, v2, n);
        } else {
            lemma_stored_push(ops, k2, v2, n);
        }
    } else {
        lemma_stored_push(ops, k1, v1, n);
    }
}

/// Resolved membership does not depend on the order in which operations arrive: processing two new
/// operations, whose dependencies were all processed before, with the strong remove resolver in
/// either order, starting from a converged state, gives converged states which hold the same
/// operation graph, have the same state after every operation, and the same current state of
/// every group, from which the members of the group are read.
#[verifier::rlimit(50)]
#[verifier::spinoff_prover]
pub proof fn lemma_process_order_independent<ID: IdentityHandle, C: Clone + PartialOrd + PartialEq, M: Operation<ID, u32, C>>(
    y: GroupCrdtInnerState<ID, C, M>,
    o1: M,
    o2: M,
    y1: GroupCrdtInnerState<ID, C, M>,
    z1: GroupCrdtInnerState<ID, C, M>,
    y2: GroupCrdtInnerState<ID, C, M>,
    z2: GroupCrdtInnerState<ID, C, M>,
)
    requires
        converged(y),
        o1.operation_id() != o2.operation_id(),
        !has_key(y.operations@, o1.operation_id()),
        !has_key(y.operations@, o2.operation_id()),
        forall|d: u32| #[trigger] o1.operation_dependencies().contains(d) ==> graph_nodes(y.graph).contains(d),
        forall|d: u32| #[trigger] o2.operation_dependencies().contains(d) ==> graph_nodes(y.graph).contains(d),
        processed::<ID, C, M, StrongRemove<ID, C, M>>(y, o1, y1),
        processed::<ID, C, M, StrongRemove<ID, C, M>>(y1, o2, z1),
        processed::<ID, C, M, StrongRemove<ID, C, M>>(y, o2, y2),
        processed::<ID, C, M, StrongRemove<ID, C, M>>(y2, o1, z2),
        C::obeys_eq_spec(),
    ensures
        converged(z1),
        converged(z2),
        same_graph(z1, z2),
        forall|n: u32| #[trigger] graph_nodes(z1.graph).contains(n) ==> z1.states@[n] == z2.states@[n],
        merged_view(z1.states@, tips(z1.graph)) == merged_view(z2.states@, tips(z2.graph)),
{
    let k1 = o1.operation_id();
    let k2 = o2.operation_id();
    let ops = y.operations@;
    lemma_process_converged(y, o1, y1);
    lemma_process_converged(y, o2, y2);
    lemma_processed_graph(y, o1, y1);
    lemma_processed_graph(y, o2, y2);
    lemma_processed_graph(y1, o2, z1);
    lemma_processed_graph(y2, o1, z2);
    assert(y1.operations@ == ops.push((k1, o1)));
    assert(y2.operations@ == ops.push((k2, o2)));
    assert(!has_key(y1.operations@, k2)) by {
        if has_key(y1.operations@, k2) {
            let i = choose|i: int| 0 <= i < y1.operations@.len() && y1.operations@[i].0 == k2;
            if i < ops.len() {
                assert(ops[i].0 == k2);
            }
        }
    }
    assert(!has_key(y2.operations@, k1)) by {
        if has_key(y2.operations@, k1) {
            let i = choose|i: int| 0 <= i < y2.operations@.len() && y2.operations@[i].0 == k1;
            if i < ops.len() {
                assert(ops[i].0 == k1);
            }
        }
    }
    assert forall|d: u32| #[trigger] o2.operation_dependencies().contains(d) implies graph_nodes(y1.graph).contains(d) by {
        assert(graph_nodes(y.graph).to_set().contains(d));
        assert(graph_nodes(y1.graph).to_set().contains(d));
    }
    assert forall|d: u32| #[trigger] o1.operation_dependencies().contains(d) implies graph_nodes(y2.graph).contains(d) by {
        assert(graph_nodes(y.graph).to_set().contains(d));
        assert(graph_nodes(y2.graph).to_set().contains(d));
    }
    lemma_process_converged(y1, o2, z1);
    lemma_process_converged(y2, o1, z2);
    let s1 = z1.operations@;
    let s2 = z2.operations@;
    assert(s1 == y1.operations@.push((k2, o2)));
    assert(s2 == y2.operations@.push((k1, o1)));
    assert(graph_nodes(z1.graph).to_set() =~= graph_nodes(z2.graph).to_set());
    assert(graph_edges(z1.graph) =~= graph_edges(z2.graph));
    assert forall|n: u32| #[trigger] graph_nodes(z1.graph).contains(n) implies stored(s1, n) == stored(s2, n) by {
        assert(has_key(s1, n));
        if n != k1 && n != k2 {
            let i = choose|i: int| 0 <= i < s1.len() && s1[i].0 == n;
            assert(i < ops.len());
            assert(ops[i].0 == n);
        }
        lemma_stored_two_pushes(ops, k1, o1, k2, o2, n);
    }
    assert(same_graph(z1, z2));
    lemma_settled_states_agree(z1, z2);
    lemma_current_states_agree(z1, z2);
}


proof fn lemma_stored_push<M>(ops: Seq<(u32, M)>, k: u32, v: M, n: u32)
    requires
        !has_key(ops, k),
        n == k || has_key(ops, n),
    ensures
        stored(ops.push((k, v)), n) == if n == k {
            v
        } else {
            stored(ops, n)
        },
{
    let s2 = ops.push((k, v));
    if n == k {
        assert(s2[ops.len() as int].0 == k);
        lemma_first_key(s2, k, ops.len() as int);
        let f = first_key_index(s2, k);
        if f < ops.len() {
            assert(ops[f].0 == k);
        }
    } else {
        let i = choose|i: int| 0 <= i < ops.len() && ops[i].0 == n;
        lemma_first_key(ops, n, i);
        let f = first_key_index(ops, n);
        assert(s2[i].0 == n);
        lemma_first_key(s2, n, i);
        let f2 = first_key_index(s2, n);
        if f2 < f {
            assert(s2[f2] == ops[f2]);
        }
        if f < f2 {
            assert(s2[f] == ops[f]);
        }
        assert(f == f2);
        assert(s2[f] == ops[f]);
    }
}

/// Adding a new operation whose dependencies are all operations of the graph keeps the graph
/// without cycles and matching the operations, each stored under its own identifier.
pub proof fn lemma_added_ready<ID: Copy, C: Clone + PartialOrd + PartialEq, M: Operation<ID, u32, C>>(
    inner: GroupCrdtInnerState<ID, C, M>,
    operation: M,
    z: GroupCrdtInnerState<ID, C, M>,
)
    requires
        rebuild_ready(inner.operations@, inner.graph),
        added_operation(inner, operation, z),
        !has_key(inner.operations@, operation.operation_id()),
        forall|d: u32| #[trigger] operation.operation_dependencies().contains(d) ==> graph_nodes(inner.graph).contains(d),
    ensures
        rebuild_ready(z.operations@, z.graph),
{
    let x = operation.operation_id();
    let deps = operation.operation_dependencies();
    let ops = inner.operations@;
    let ops2 = z.operations@;
    let nodes = graph_nodes(inner.graph);
    let nodes2 = graph_nodes(z.graph);
    let edges = graph_edges(inner.graph);
    let added = dependency_edges(x, deps);
    let edges2 = graph_edges(z.graph);
    assert(ops2 == ops.push((x, operation)));
    assert(!nodes.contains(x));
    assert forall|n: u32| nodes2.contains(n) <==> (nodes.contains(n) || n == x) by {
        assert(nodes2.to_set().contains(n) == nodes2.contains(n));
        assert(nodes.to_set().contains(n) == nodes.contains(n));
        if deps.to_set().contains(n) {
            assert(deps.contains(n));
        }
    }
    assert forall|e: (u32, u32)| #[trigger] added.contains(e) implies e.1 == x && nodes.contains(e.0) by {
        let d = choose|d: u32| deps.to_set().contains(d) && (d, x) == e;
        assert(deps.contains(d));
    }
    lemma_fresh_sink(nodes, edges, added, x);
    assert(edges2 == edges.union(added));
    assert forall|n: u32| nodes.contains(n) implies #[trigger] stored(ops2, n) == stored(ops, n) by {
        lemma_stored_push(ops, x, operation, n);
    }
    lemma_stored_push(ops, x, operation, x);
    assert forall|j: int| 0 <= j < ops2.len() implies (#[trigger] ops2[j]).1.operation_id() == ops2[j].0 by {
        if j < ops.len() {
            assert(ops2[j] == ops[j]);
        }
    }
    assert forall|n: u32| #[trigger] nodes2.contains(n) implies has_key(ops2, n) by {
        if n == x {
            assert(ops2[ops.len() as int].0 == x);
        } else {
            let i = choose|i: int| 0 <= i < ops.len() && ops[i].0 == n;
            assert(ops2[i].0 == n);
        }
    }
    assert forall|e: (u32, u32)| #[trigger] edges2.contains(e) implies nodes2.contains(e.0) && nodes2.contains(e.1) by {
        if !edges.contains(e) {
            assert(added.contains(e));
        }
    }
    assert forall|n: u32, i: int|
        #![trigger stored(ops2, n).operation_dependencies()[i]]
        nodes2.contains(n) && 0 <= i < stored(ops2, n).operation_dependencies().len() implies edges2.contains(
        (stored(ops2, n).operation_dependencies()[i], n),
    ) by {
        if n == x {
            let d = deps[i];
            assert(deps.to_set().contains(d));
            assert(added.contains((d, x)));
        } else {
            assert(stored(ops2, n) == stored(ops, n));
            assert(edges.contains((stored(ops, n).operation_dependencies()[i], n)));
        }
    }
}

/// A state without operations is settled, and, with exact clones and ordered conditions, ready for
/// rebuilds: the start from which recording and rebuilding keep the states resolved.
pub proof fn lemma_empty_settled<ID: Copy, C: Clone + PartialOrd + PartialEq, M: Operation<ID, u32, C>>(
    y: GroupCrdtInnerState<ID, C, M>,
)
    requires
        is_empty_inner(y),
    ensures
        settled(y),
        forall|x: u32| #[trigger] y.ignore@.contains(x) ==> graph_nodes(y.graph).contains(x),
        conditions_ordered::<C>() && clones_exact::<C>() ==> rebuild_ready(y.operations@, y.graph),
{
}

/// A state in which recording `operation` without a rebuild keeps every recorded state resolved:
/// all states resolved on a graph without cycles which matches the operations, the filter within
/// the graph, and a new operation whose dependencies are exactly the tips of the graph.
pub open spec fn ready_to_record<ID: Copy, C: Clone + PartialOrd + PartialEq, M: Operation<ID, u32, C>>(
    inner: GroupCrdtInnerState<ID, C, M>,
    operation: M,
) -> bool {
    &&& rebuild_ready(inner.operations@, inner.graph)
    &&& settled(inner)
    &&& forall|x: u32| #[trigger] inner.ignore@.contains(x) ==> graph_nodes(inner.graph).contains(x)
    &&& !has_key(inner.operations@, operation.operation_id())
    &&& operation.operation_dependencies().to_set() == sink_nodes(inner.graph).to_set()
}

/// Recording an operation which depends on exactly the tips of the graph, with its action applied
/// to the states at its dependencies, keeps every recorded state resolved, the graph without
/// cycles and matching the operations, and the filter within the graph.
pub proof fn lemma_record_settled<ID: Copy, C: Clone + PartialOrd + PartialEq, M: Operation<ID, u32, C>>(
    inner: GroupCrdtInnerState<ID, C, M>,
    operation: M,
    z: GroupCrdtInnerState<ID, C, M>,
    res: StateChangeResult<ID, C>,
)
    requires
        ready_to_record(inner, operation),
        added_operation(inner, operation, z),
        z.states@ == inner.states@.insert(operation.operation_id(), result_state(res)@),
        apply_outcome(
            state_before(inner, operation),
            operation.operation_group(),
            operation.operation_id(),
            operation.operation_author(),
            operation.operation_action(),
            inner.ignore@,
            res,
        ),
    ensures
        settled(z),
        rebuild_ready(z.operations@, z.graph),
        forall|x: u32| #[trigger] z.ignore@.contains(x) ==> graph_nodes(z.graph).contains(x),
{
    let x = operation.operation_id();
    let deps = operation.operation_dependencies();
    let ops = inner.operations@;
    let ops2 = z.operations@;
    let nodes = graph_nodes(inner.graph);
    let nodes2 = graph_nodes(z.graph);
    let edges = graph_edges(inner.graph);
    let added = dependency_edges(x, deps);
    let edges2 = graph_edges(z.graph);
    assert(ops2 == ops.push((x, operation)));
    assert(!nodes.contains(x));
    assert forall|d: u32| #[trigger] deps.contains(d) implies nodes.contains(d) && is_sink(inner.graph, d) by {
        assert(deps.to_set().contains(d));
        assert(sink_nodes(inner.graph).to_set().contains(d));
        assert(sink_nodes(inner.graph).contains(d));
        let i = choose|i: int| 0 <= i < sink_nodes(inner.graph).len() && sink_nodes(inner.graph)[i] == d;
        let f = |n: u32| is_sink(inner.graph, n);
        nodes.lemma_filter_pred(f, i);
    }
    assert forall|n: u32| nodes2.contains(n) <==> (nodes.contains(n) || n == x) by {
        assert(nodes2.to_set().contains(n) == nodes2.contains(n));
        assert(nodes.to_set().contains(n) == nodes.contains(n));
        if deps.to_set().contains(n) {
            assert(deps.contains(n));
        }
    }
    assert forall|e: (u32, u32)| #[trigger] added.contains(e) implies e.1 == x && nodes.contains(e.0) by {
        let d = choose|d: u32| deps.to_set().contains(d) && (d, x) == e;
        assert(deps.contains(d));
    }
    lemma_fresh_sink(nodes, edges, added, x);
    assert(edges2 == edges.union(added));
    assert(edges_within(inner.graph));
    // Every old node reaches the new one.
    assert forall|n: u32| nodes.contains(n) implies reaches(edges2, n, x) by {
        lemma_reaches_sink(inner.graph, n);
        let s = choose|s: u32| #[trigger] is_sink(inner.graph, s) && reaches(edges, n, s);
        assert(sink_nodes(inner.graph).contains(s)) by {
            let f = |m: u32| is_sink(inner.graph, m);
            let i = choose|i: int| 0 <= i < nodes.len() && nodes[i] == s;
            nodes.lemma_filter_contains(f, i);
        }
        assert(sink_nodes(inner.graph).to_set().contains(s));
        assert(deps.to_set().contains(s));
        assert(added.contains((s, x)));
        assert(edges2.contains((s, x)));
        assert(reaches(edges2, n, s));
        lemma_edge_reaches(edges2, s, x);
        lemma_reaches_trans(edges2, n, s, x);
    }
    // The operations of old nodes are unchanged.
    assert forall|n: u32| nodes.contains(n) implies #[trigger] stored(ops2, n) == stored(ops, n) by {
        lemma_stored_push(ops, x, operation, n);
    }
    lemma_stored_push(ops, x, operation, x);
    assert(stored(ops2, x) == operation);
    lemma_added_ready(inner, operation, z);
    assert(fresh_extension(nodes, nodes2, edges, edges2, x));
    assert forall|n: u32| #[trigger] nodes2.contains(n) implies z.states@.contains_key(n) && resolved_at(z, n) by {
        lemma_record_resolved_at(inner, operation, z, res, n);
    }
}

/// The graph `(nodes2, edges2)` is `(nodes, edges)` with a fresh operation `x` added, which every
/// old operation reaches and from which no path leads to an old operation.
spec fn fresh_extension(nodes: Seq<u32>, nodes2: Seq<u32>, edges: Set<(u32, u32)>, edges2: Set<(u32, u32)>, x: u32) -> bool {
    &&& !nodes.contains(x)
    &&& forall|m: u32| nodes2.contains(m) <==> (nodes.contains(m) || m == x)
    &&& forall|a: u32, b: u32| b != x ==> #[trigger] reaches(edges2, a, b) == reaches(edges, a, b)
    &&& forall|m: u32| nodes.contains(m) ==> reaches(edges2, m, x)
}

/// Adding a fresh operation which every old one reaches changes no chain of concurrent
/// operations between old ones.
proof fn lemma_fresh_linked(
    nodes: Seq<u32>,
    nodes2: Seq<u32>,
    edges: Set<(u32, u32)>,
    edges2: Set<(u32, u32)>,
    x: u32,
    a: u32,
    m: u32,
)
    requires
        fresh_extension(nodes, nodes2, edges, edges2, x),
        nodes.contains(a),
    ensures
        linked(nodes2, edges2, a, m) == linked(nodes, edges, a, m),
{
    if linked(nodes2, edges2, a, m) {
        let c = choose|c: Seq<u32>| #[trigger] is_concurrency_chain(nodes2, edges2, c) && c[0] == a && c[c.len() - 1] == m;
        lemma_chain_avoids(nodes, nodes2, edges, edges2, x, c);
        assert(is_concurrency_chain(nodes, edges, c));
    }
    if linked(nodes, edges, a, m) {
        let c = choose|c: Seq<u32>| #[trigger] is_concurrency_chain(nodes, edges, c) && c[0] == a && c[c.len() - 1] == m;
        assert forall|i: int| 0 <= i < c.len() implies nodes2.contains(#[trigger] c[i]) by {
            assert(nodes.contains(c[i]));
        }
        assert forall|i: int, j: int| 0 <= i && j == i + 1 && j < c.len() implies concurrent(
            edges2,
            #[trigger] c[i],
            #[trigger] c[j],
        ) by {
            assert(concurrent(edges, c[i], c[j]));
            assert(nodes.contains(c[i]) && nodes.contains(c[j]));
        }
        assert(is_concurrency_chain(nodes2, edges2, c));
    }
}

proof fn lemma_record_resolved_at<ID: Copy, C: Clone + PartialOrd + PartialEq, M: Operation<ID, u32, C>>(
    inner: GroupCrdtInnerState<ID, C, M>,
    operation: M,
    z: GroupCrdtInnerState<ID, C, M>,
    res: StateChangeResult<ID, C>,
    n: u32,
)
    requires
        ready_to_record(inner, operation),
        added_operation(inner, operation, z),
        z.states@ == inner.states@.insert(operation.operation_id(), result_state(res)@),
        apply_outcome(
            state_before(inner, operation),
            operation.operation_group(),
            operation.operation_id(),
            operation.operation_author(),
            operation.operation_action(),
            inner.ignore@,
            res,
        ),
        graph_nodes(z.graph).contains(n),
        fresh_extension(graph_nodes(inner.graph), graph_nodes(z.graph), graph_edges(inner.graph), graph_edges(z.graph), operation.operation_id()),
        graph_edges(z.graph) == graph_edges(inner.graph).union(dependency_edges(operation.operation_id(), operation.operation_dependencies())),
        forall|m: u32| graph_nodes(inner.graph).contains(m) ==> #[trigger] stored(z.operations@, m) == stored(inner.operations@, m),
        stored(z.operations@, operation.operation_id()) == operation,
        forall|d: u32| #[trigger] operation.operation_dependencies().contains(d) ==> graph_nodes(inner.graph).contains(d),
    ensures
        z.states@.contains_key(n),
        resolved_at(z, n),
{
    if n == operation.operation_id() {
        lemma_record_resolved_new(inner, operation, z, res);
    } else {
        lemma_record_resolved_old(inner, operation, z, res, n);
    }
}

proof fn lemma_record_resolved_new<ID: Copy, C: Clone + PartialOrd + PartialEq, M: Operation<ID, u32, C>>(
    inner: GroupCrdtInnerState<ID, C, M>,
    operation: M,
    z: GroupCrdtInnerState<ID, C, M>,
    res: StateChangeResult<ID, C>,
)
    requires
        ready_to_record(inner, operation),
        z.states@ == inner.states@.insert(operation.operation_id(), result_state(res)@),
        apply_outcome(
            state_before(inner, operation),
            operation.operation_group(),
            operation.operation_id(),
            operation.operation_author(),
            operation.operation_action(),
            inner.ignore@,
            res,
        ),
        fresh_extension(graph_nodes(inner.graph), graph_nodes(z.graph), graph_edges(inner.graph), graph_edges(z.graph), operation.operation_id()),
        stored(z.operations@, operation.operation_id()) == operation,
        forall|d: u32| #[trigger] operation.operation_dependencies().contains(d) ==> graph_nodes(inner.graph).contains(d),
    ensures
        resolved_at(z, operation.operation_id()),
{
    let x = operation.operation_id();
    let ops2 = z.operations@;
    let nodes = graph_nodes(inner.graph);
    let nodes2 = graph_nodes(z.graph);
    let edges2 = graph_edges(z.graph);
    let v = result_state(res)@;
    assert(!strongly_filtered(ops2, z.graph, x)) by {
        if strongly_filtered(ops2, z.graph, x) {
            let r = choose|r: u32| nodes2.contains(r) && #[trigger] filtered_by(ops2, edges2, r, x);
            assert(concurrent(edges2, r, x));
            assert(reaches(edges2, r, r)) by {
                let p = seq![r];
                assert(p[0] == r);
                assert(is_path(edges2, p));
            }
        }
    }
    assert(!in_mutual_cycle(ops2, z.graph, x)) by {
        if in_mutual_cycle(ops2, z.graph, x) {
            let m = choose|m: u32| m != x && #[trigger] component(z.graph, x).contains(m);
            let c = choose|c: Seq<u32>| #[trigger] is_concurrency_chain(nodes2, edges2, c) && c[0] == x && c[c.len() - 1] == m;
            assert(c.len() > 1);
            assert(concurrent(edges2, c[0], c[1]));
            assert(nodes2.contains(c[1]));
            if c[1] == x {
                let p = seq![x];
                assert(p[0] == x);
                assert(is_path(edges2, p));
            }
        }
    }
    let deps = operation.operation_dependencies();
    assert(!deps.contains(x));
    lemma_state_at_independent(inner.states@, deps, x, v);
    assert(state_before(z, operation) == state_before(inner, operation));
    assert(!inner.ignore@.contains(x));
    assert(filter_of(false, x) =~= Seq::<u32>::empty());
    assert(apply_outcome(
        state_before(z, operation),
        operation.operation_group(),
        x,
        operation.operation_author(),
        operation.operation_action(),
        filter_of(false, x),
        res,
    ));
}

proof fn lemma_record_resolved_old<ID: Copy, C: Clone + PartialOrd + PartialEq, M: Operation<ID, u32, C>>(
    inner: GroupCrdtInnerState<ID, C, M>,
    operation: M,
    z: GroupCrdtInnerState<ID, C, M>,
    res: StateChangeResult<ID, C>,
    n: u32,
)
    requires
        ready_to_record(inner, operation),
        z.states@ == inner.states@.insert(operation.operation_id(), result_state(res)@),
        graph_nodes(inner.graph).contains(n),
        fresh_extension(graph_nodes(inner.graph), graph_nodes(z.graph), graph_edges(inner.graph), graph_edges(z.graph), operation.operation_id()),
        graph_edges(z.graph) == graph_edges(inner.graph).union(dependency_edges(operation.operation_id(), operation.operation_dependencies())),
        forall|m: u32| graph_nodes(inner.graph).contains(m) ==> #[trigger] stored(z.operations@, m) == stored(inner.operations@, m),
    ensures
        resolved_at(z, n),
{
    let x = operation.operation_id();
    let ops = inner.operations@;
    let ops2 = z.operations@;
    let edges = graph_edges(inner.graph);
    let v = result_state(res)@;
    let op = stored(ops, n);
    assert(stored(ops2, n) == op);
    let deps = op.operation_dependencies();
    assert(!deps.contains(x)) by {
        if deps.contains(x) {
            let i = choose|i: int| 0 <= i < deps.len() && deps[i] == x;
            assert(edges.contains((deps[i], n)));
        }
    }
    lemma_state_at_independent(inner.states@, deps, x, v);
    assert(state_before(z, op) == state_before(inner, op));
    assert(resolved_at(inner, n));
    lemma_fresh_filtered(ops, ops2, inner.graph, z.graph, x, n);
    assert(edges_within(inner.graph));
    lemma_fresh_mutual(ops, ops2, inner.graph, z.graph, x, operation.operation_dependencies(), n);
    assert(z.states@[n] == inner.states@[n]);
}

/// Adding a fresh operation which every old one reaches does not change which old operations are
/// filtered out.
proof fn lemma_fresh_filtered<ID: Copy, C, M: Operation<ID, u32, C>>(
    ops: Seq<(u32, M)>,
    ops2: Seq<(u32, M)>,
    graph: DiGraphMap<u32, ()>,
    graph2: DiGraphMap<u32, ()>,
    x: u32,
    n: u32,
)
    requires
        fresh_extension(graph_nodes(graph), graph_nodes(graph2), graph_edges(graph), graph_edges(graph2), x),
        forall|m: u32| graph_nodes(graph).contains(m) ==> #[trigger] stored(ops2, m) == stored(ops, m),
        graph_nodes(graph).contains(n),
    ensures
        strongly_filtered(ops2, graph2, n) == strongly_filtered(ops, graph, n),
{
    let nodes = graph_nodes(graph);
    let nodes2 = graph_nodes(graph2);
    let edges = graph_edges(graph);
    let edges2 = graph_edges(graph2);
    if strongly_filtered(ops2, graph2, n) {
        let r = choose|r: u32| nodes2.contains(r) && #[trigger] filtered_by(ops2, edges2, r, n);
        if r == x {
            assert(concurrent(edges2, x, n));
        } else {
            assert(nodes.contains(r));
            assert(filtered_by(ops, edges, r, n));
        }
    }
    if strongly_filtered(ops, graph, n) {
        let r = choose|r: u32| nodes.contains(r) && #[trigger] filtered_by(ops, edges, r, n);
        assert(filtered_by(ops2, edges2, r, n));
    }
}

/// Adding a fresh operation which every old one reaches does not change which old operations are
/// in mutual remove cycles.
proof fn lemma_fresh_mutual<ID: Copy, C, M: Operation<ID, u32, C>>(
    ops: Seq<(u32, M)>,
    ops2: Seq<(u32, M)>,
    graph: DiGraphMap<u32, ()>,
    graph2: DiGraphMap<u32, ()>,
    x: u32,
    dependencies: Seq<u32>,
    n: u32,
)
    requires
        fresh_extension(graph_nodes(graph), graph_nodes(graph2), graph_edges(graph), graph_edges(graph2), x),
        edges_within(graph),
        graph_edges(graph2) == graph_edges(graph).union(dependency_edges(x, dependencies)),
        forall|m: u32| graph_nodes(graph).contains(m) ==> #[trigger] stored(ops2, m) == stored(ops, m),
        graph_nodes(graph).contains(n),
    ensures
        in_mutual_cycle(ops2, graph2, n) == in_mutual_cycle(ops, graph, n),
{
    let nodes = graph_nodes(graph);
    let nodes2 = graph_nodes(graph2);
    let edges = graph_edges(graph);
    let edges2 = graph_edges(graph2);
    let comp = component(graph, n);
    assert forall|m: u32| component(graph2, n).contains(m) == comp.contains(m) by {
        lemma_fresh_linked(nodes, nodes2, edges, edges2, x, n, m);
    }
    assert(component(graph2, n) =~= comp);
    assert forall|m: u32| #[trigger] comp.contains(m) implies nodes.contains(m) by {
        let c = choose|c: Seq<u32>| #[trigger] is_concurrency_chain(nodes, edges, c) && c[0] == n && c[c.len() - 1] == m;
        assert(nodes.contains(c[c.len() - 1]));
    }
    assert(kept_edges(graph2, comp) =~= kept_edges(graph, comp)) by {
        assert forall|e: (u32, u32)| kept_edges(graph2, comp).contains(e) == kept_edges(graph, comp).contains(e) by {
            if edges2.contains(e) && !edges.contains(e) {
                let d = choose|d: u32| dependencies.to_set().contains(d) && (d, x) == e;
                assert(!comp.contains(x));
            }
            if edges.contains(e) {
                assert(nodes.contains(e.0) && nodes.contains(e.1));
            }
        }
    }
    let op = stored(ops, n);
    assert(stored(ops2, n) == op);
    let g = op.operation_group();
    if in_mutual_cycle(ops2, graph2, n) {
        let s = choose|s: Seq<u32>|
            #[trigger] s.to_set() == comp && mutual_remove(
                op,
                removal_changes(ops2, s, g),
                delegation_changes(ops2, s, g),
                kept_edges(graph2, comp),
            );
        assert forall|k: int| 0 <= k < s.len() implies stored(ops2, #[trigger] s[k]) == stored(ops, s[k]) by {
            assert(s.to_set().contains(s[k]));
        }
        lemma_changes_agree(ops2, ops, s, g);
    }
    if in_mutual_cycle(ops, graph, n) {
        let s = choose|s: Seq<u32>|
            #[trigger] s.to_set() == comp && mutual_remove(
                op,
                removal_changes(ops, s, g),
                delegation_changes(ops, s, g),
                kept_edges(graph, comp),
            );
        assert forall|k: int| 0 <= k < s.len() implies stored(ops2, #[trigger] s[k]) == stored(ops, s[k]) by {
            assert(s.to_set().contains(s[k]));
        }
        lemma_changes_agree(ops2, ops, s, g);
    }
}

/// A chain of concurrent operations of the graph with the new operation added which starts at an
/// old operation never reaches the new one, which every old operation reaches.
proof fn lemma_chain_avoids(
    nodes: Seq<u32>,
    nodes2: Seq<u32>,
    edges: Set<(u32, u32)>,
    edges2: Set<(u32, u32)>,
    x: u32,
    c: Seq<u32>,
)
    requires
        is_concurrency_chain(nodes2, edges2, c),
        nodes.contains(c[0]),
        !nodes.contains(x),
        forall|m: u32| nodes2.contains(m) <==> (nodes.contains(m) || m == x),
        forall|a: u32, b: u32| b != x ==> #[trigger] reaches(edges2, a, b) == reaches(edges, a, b),
        forall|m: u32| nodes.contains(m) ==> reaches(edges2, m, x),
    ensures
        forall|i: int| 0 <= i < c.len() ==> nodes.contains(#[trigger] c[i]),
        forall|i: int, j: int| #![trigger c[i], c[j]] 0 <= i && j == i + 1 && j < c.len() ==> concurrent(edges, c[i], c[j]),
    decreases c.len(),
{
    if c.len() > 1 {
        let d = c.drop_last();
        assert forall|i: int| 0 <= i < d.len() implies nodes2.contains(#[trigger] d[i]) by {
            assert(d[i] == c[i]);
        }
        assert forall|i: int, j: int| 0 <= i && j == i + 1 && j < d.len() implies concurrent(
            edges2,
            #[trigger] d[i],
            #[trigger] d[j],
        ) by {
            assert(d[i] == c[i] && d[j] == c[j]);
        }
        assert(d[0] == c[0]);
        lemma_chain_avoids(nodes, nodes2, edges, edges2, x, d);
        let k = c.len() - 1;
        assert(d[k - 1] == c[k - 1]);
        assert(nodes.contains(c[k - 1]));
        assert(concurrent(edges2, c[k - 1], c[k]));
        if c[k] == x {
            assert(reaches(edges2, c[k - 1], x));
        }
        assert(nodes.contains(c[k]));
        assert(c[k - 1] != x);
        assert(reaches(edges2, c[k - 1], c[k]) == reaches(edges, c[k - 1], c[k]));
        assert(reaches(edges2, c[k], c[k - 1]) == reaches(edges, c[k], c[k - 1]));
        assert forall|i: int| 0 <= i < c.len() implies nodes.contains(#[trigger] c[i]) by {
            if i < k {
                assert(d[i] == c[i]);
            }
        }
        assert forall|i: int, j: int| #![trigger c[i], c[j]] 0 <= i && j == i + 1 && j < c.len() implies concurrent(
            edges,
            c[i],
            c[j],
        ) by {
            if j < k {
                assert(d[i] == c[i] && d[j] == c[j]);
            }
        }
    }
}

} // verus!
