//! Authority graphs: removals and delegations between actors, used to detect mutual-remove
//! cycles.
//!
//! A graph node is the pair of an actor and an operation. For every operation added to the graph
//! a node is created for each involved actor, so that the graph can reason about concurrent
//! operations when adding edges:
//!
//! - a removal `(remover, removed, op)` adds the edge `(remover, op) → (removed, op)`,
//! - a delegation `(delegator, delegate, op)` adds the edge `(delegator, op) → (delegate, op)`,
//! - a removed actor links to its own removal of another actor when the two removals are
//!   concurrent,
//! - a removed delegator links to its delegation when the removal was concurrent to it,
//! - a delegate links to its removal of another actor, and to its own further delegation, when
//!   that operation succeeds the delegation (the latter only where the group has removals).
//!
//! Operations whose nodes lie on a cycle (a strongly connected component of at least two nodes)
//! take part in a mutual-remove cycle.
use petgraph::graph::{Graph, NodeIndex};
use petgraph::graphmap::DiGraphMap;
use petgraph::Directed;

use vstd::prelude::*;

use crate::graph::{concurrent, contains_node, graph_edges, has_path, is_path, reaches};
use crate::group::state::{
    entries_map, find_entry, has_key, keys_distinct, lemma_entries_map_index, lemma_entries_map_push,
    lemma_entries_map_remove, replace_value,
};
use crate::traits::IdentityHandle;

verus! {

/// A removal or a delegation: (acting actor, affected actor, operation).
pub type Change<ID> = (ID, ID, u32);

/// A node of an authority graph: (actor, operation).
pub type AuthorityNode<ID> = (ID, u32);

/// `n` is a node of the authority graph of the given removals and delegations.
pub open spec fn authority_node<ID>(rem: Seq<Change<ID>>, del: Seq<Change<ID>>, n: AuthorityNode<ID>) -> bool {
    ||| exists|i: int|
        0 <= i < rem.len() && n.1 == (#[trigger] rem[i]).2 && (n.0 == rem[i].0 || n.0 == rem[i].1)
    ||| exists|i: int|
        0 <= i < del.len() && n.1 == (#[trigger] del[i]).2 && (n.0 == del[i].0 || n.0 == del[i].1)
}

/// The edge of a single removal or delegation: from the acting to the affected actor.
pub open spec fn change_edge<ID>(c: Change<ID>, from: AuthorityNode<ID>, to: AuthorityNode<ID>) -> bool {
    from == (c.0, c.2) && to == (c.1, c.2)
}

/// The actor removed by `r1` removes another actor with `r2`, concurrently.
pub open spec fn removal_removal_edge<ID>(
    deps: Set<(u32, u32)>,
    r1: Change<ID>,
    r2: Change<ID>,
    from: AuthorityNode<ID>,
    to: AuthorityNode<ID>,
) -> bool {
    concurrent(deps, r1.2, r2.2) && r1.1 == r2.0 && from == (r1.1, r1.2) && to == (r2.0, r2.2)
}

/// Edges between a delegation `d` and a removal `r`: the delegator was removed concurrently to
/// the delegation, or the delegate removes an actor after the delegation.
pub open spec fn removal_delegation_edge<ID>(
    deps: Set<(u32, u32)>,
    d: Change<ID>,
    r: Change<ID>,
    from: AuthorityNode<ID>,
    to: AuthorityNode<ID>,
) -> bool {
    ||| r.1 == d.0 && !reaches(deps, d.2, r.2) && from == (r.1, r.2) && to == (d.0, d.2)
    ||| d.1 == r.0 && reaches(deps, d.2, r.2) && from == (d.1, d.2) && to == (r.0, r.2)
}

/// The delegate of `d1` delegates further with `d2`, after `d1`.
pub open spec fn delegation_delegation_edge<ID>(
    deps: Set<(u32, u32)>,
    d1: Change<ID>,
    d2: Change<ID>,
    from: AuthorityNode<ID>,
    to: AuthorityNode<ID>,
) -> bool {
    d1.1 == d2.0 && reaches(deps, d1.2, d2.2) && from == (d1.1, d1.2) && to == (d2.0, d2.2)
}

/// `(from, to)` is an edge of the authority graph of the given removals and delegations, where
/// `deps` are the edges of the operation dependency graph.
pub open spec fn authority_edge<ID>(
    rem: Seq<Change<ID>>,
    del: Seq<Change<ID>>,
    deps: Set<(u32, u32)>,
    from: AuthorityNode<ID>,
    to: AuthorityNode<ID>,
) -> bool {
    ||| exists|i: int| 0 <= i < rem.len() && change_edge(#[trigger] rem[i], from, to)
    ||| exists|i: int| 0 <= i < del.len() && change_edge(#[trigger] del[i], from, to)
    ||| exists|i: int, j: int|
        #![trigger rem[i], rem[j]]
        0 <= i < rem.len() && 0 <= j < rem.len() && removal_removal_edge(deps, rem[i], rem[j], from, to)
    ||| exists|i: int, j: int|
        #![trigger del[i], rem[j]]
        0 <= i < del.len() && 0 <= j < rem.len() && removal_delegation_edge(deps, del[i], rem[j], from, to)
    ||| exists|i: int, j: int|
        #![trigger del[i], del[j]]
        rem.len() > 0 && 0 <= i < del.len() && 0 <= j < del.len() && delegation_delegation_edge(
            deps,
            del[i],
            del[j],
            from,
            to,
        )
}

/// All edges of the authority graph of the given removals and delegations.
pub open spec fn authority_edges<ID>(
    rem: Seq<Change<ID>>,
    del: Seq<Change<ID>>,
    deps: Set<(u32, u32)>,
) -> Set<(AuthorityNode<ID>, AuthorityNode<ID>)> {
    Set::new(|e: (AuthorityNode<ID>, AuthorityNode<ID>)| authority_edge(rem, del, deps, e.0, e.1))
}

/// Operation `op` is part of a cycle: one of its nodes can reach, and be reached from, another
/// node of the authority graph.
pub open spec fn cycle_op<ID>(rem: Seq<Change<ID>>, del: Seq<Change<ID>>, deps: Set<(u32, u32)>, op: u32) -> bool {
    exists|id: ID, m: AuthorityNode<ID>|
        #![trigger authority_node(rem, del, (id, op)), authority_node(rem, del, m)]
        authority_node(rem, del, (id, op)) && authority_node(rem, del, m) && m != (id, op) && reaches(
            authority_edges(rem, del, deps),
            (id, op),
            m,
        ) && reaches(authority_edges(rem, del, deps), m, (id, op))
}


// ------------------------------------------------------------------------------------------------
// Building a graph
// ------------------------------------------------------------------------------------------------

/// An authority graph: its nodes, and its edges as pairs of node positions.
#[derive(Debug)]
pub struct AuthorityGraph<ID> {
    pub(crate) nodes: Vec<AuthorityNode<ID>>,
    pub(crate) edges: Vec<(usize, usize)>,
}

/// Nodes are distinct, edges are distinct and lead between nodes.
pub open spec fn graph_ok<ID>(nodes: Seq<AuthorityNode<ID>>, edges: Seq<(usize, usize)>) -> bool {
    &&& nodes.no_duplicates()
    &&& edges.no_duplicates()
    &&& forall|k: int| 0 <= k < edges.len() ==> (#[trigger] edges[k]).0 < nodes.len() && edges[k].1 < nodes.len()
}

/// The graph holds an edge from `from` to `to`.
pub open spec fn has_edge<ID>(
    nodes: Seq<AuthorityNode<ID>>,
    edges: Seq<(usize, usize)>,
    from: AuthorityNode<ID>,
    to: AuthorityNode<ID>,
) -> bool {
    exists|k: int|
        0 <= k < edges.len() && nodes[(#[trigger] edges[k]).0 as int] == from && nodes[edges[k].1 as int] == to
}

/// The graph is the authority graph of the given removals and delegations.
pub open spec fn graph_of<ID>(
    nodes: Seq<AuthorityNode<ID>>,
    edges: Seq<(usize, usize)>,
    rem: Seq<Change<ID>>,
    del: Seq<Change<ID>>,
    deps: Set<(u32, u32)>,
) -> bool {
    &&& graph_ok(nodes, edges)
    &&& forall|n: AuthorityNode<ID>| #[trigger] nodes.contains(n) <==> authority_node(rem, del, n)
    &&& forall|from: AuthorityNode<ID>, to: AuthorityNode<ID>|
        #[trigger] has_edge(nodes, edges, from, to) <==> authority_edge(rem, del, deps, from, to)
}

/// Adding a new element to a list of distinct elements keeps them distinct.
proof fn lemma_push_distinct<A>(s: Seq<A>, x: A)
    requires
        s.no_duplicates(),
        !s.contains(x),
    ensures
        s.push(x).no_duplicates(),
{
    let t = s.push(x);
    assert forall|i: int, j: int| 0 <= i < t.len() && 0 <= j < t.len() && i != j implies t[i] != t[j] by {
        if i == s.len() {
            assert(s[j] == t[j]);
        } else if j == s.len() {
            assert(s[i] == t[i]);
        } else {
            assert(s[i] == t[i] && s[j] == t[j]);
        }
    }
}

/// Returns `true` if both nodes are the same.
fn same_node<ID: IdentityHandle>(a: &AuthorityNode<ID>, b: &AuthorityNode<ID>) -> (r: bool)
    ensures
        r == (*a == *b),
{
    a.0.is_same(&b.0) && a.1 == b.1
}

/// Position of `key` among the nodes, if it is one.
fn find_node<ID: IdentityHandle>(nodes: &Vec<AuthorityNode<ID>>, key: AuthorityNode<ID>) -> (r: Option<usize>)
    ensures
        match r {
            Some(i) => i < nodes@.len() && nodes@[i as int] == key,
            None => !nodes@.contains(key),
        },
{
    let mut i: usize = 0;
    while i < nodes.len()
        invariant
            i <= nodes@.len(),
            forall|j: int| 0 <= j < i ==> nodes@[j] != key,
        decreases nodes@.len() - i,
    {
        if same_node(&nodes[i], &key) {
            return Some(i);
        }
        i = i + 1;
    }
    None
}

/// Position of `key` among the nodes, adding it when it is not one yet.
fn ensure_node<ID: IdentityHandle>(nodes: &mut Vec<AuthorityNode<ID>>, key: AuthorityNode<ID>) -> (r: usize)
    requires
        old(nodes)@.no_duplicates(),
    ensures
        final(nodes)@ == (if old(nodes)@.contains(key) {
            old(nodes)@
        } else {
            old(nodes)@.push(key)
        }),
        final(nodes)@.no_duplicates(),
        r < final(nodes)@.len(),
        final(nodes)@[r as int] == key,
{
    match find_node(nodes, key) {
        Some(i) => i,
        None => {
            proof {
                lemma_push_distinct(nodes@, key);
            }
            nodes.push(key);
            nodes.len() - 1
        },
    }
}

/// Add the edge from `from` to `to` unless the graph holds it already.
fn add_edge_if_missing(edges: &mut Vec<(usize, usize)>, from: usize, to: usize)
    requires
        old(edges)@.no_duplicates(),
    ensures
        final(edges)@ == (if old(edges)@.contains((from, to)) {
            old(edges)@
        } else {
            old(edges)@.push((from, to))
        }),
        final(edges)@.no_duplicates(),
{
    let mut i: usize = 0;
    while i < edges.len()
        invariant
            i <= edges@.len(),
            edges@ == old(edges)@,
            edges@.no_duplicates(),
            forall|j: int| 0 <= j < i ==> edges@[j] != (from, to),
        decreases edges@.len() - i,
    {
        if edges[i].0 == from && edges[i].1 == to {
            assert(edges@.contains((from, to)));
            return;
        }
        i = i + 1;
    }
    proof {
        lemma_push_distinct(edges@, (from, to));
    }
    edges.push((from, to));
}


/// The graph only holds nodes and edges of the authority graph of the given changes.
pub open spec fn graph_sound<ID>(
    nodes: Seq<AuthorityNode<ID>>,
    edges: Seq<(usize, usize)>,
    rem: Seq<Change<ID>>,
    del: Seq<Change<ID>>,
    deps: Set<(u32, u32)>,
) -> bool {
    &&& graph_ok(nodes, edges)
    &&& forall|n: AuthorityNode<ID>| #[trigger] nodes.contains(n) ==> authority_node(rem, del, n)
    &&& forall|from: AuthorityNode<ID>, to: AuthorityNode<ID>|
        #[trigger] has_edge(nodes, edges, from, to) ==> authority_edge(rem, del, deps, from, to)
}

/// Adding a node changes no edge.
proof fn lemma_has_edge_node_push<ID>(
    nodes: Seq<AuthorityNode<ID>>,
    edges: Seq<(usize, usize)>,
    x: AuthorityNode<ID>,
)
    requires
        graph_ok(nodes, edges),
    ensures
        forall|from: AuthorityNode<ID>, to: AuthorityNode<ID>|
            #[trigger] has_edge(nodes.push(x), edges, from, to) == has_edge(nodes, edges, from, to),
{
    assert forall|from: AuthorityNode<ID>, to: AuthorityNode<ID>|
        #[trigger] has_edge(nodes.push(x), edges, from, to) == has_edge(nodes, edges, from, to) by {
        if has_edge(nodes.push(x), edges, from, to) {
            let k = choose|k: int|
                0 <= k < edges.len() && nodes.push(x)[(#[trigger] edges[k]).0 as int] == from
                    && nodes.push(x)[edges[k].1 as int] == to;
            assert(nodes[edges[k].0 as int] == from && nodes[edges[k].1 as int] == to);
        }
        if has_edge(nodes, edges, from, to) {
            let k = choose|k: int|
                0 <= k < edges.len() && nodes[(#[trigger] edges[k]).0 as int] == from && nodes[edges[k].1 as int]
                    == to;
            assert(nodes.push(x)[edges[k].0 as int] == from && nodes.push(x)[edges[k].1 as int] == to);
        }
    }
}

/// Adding the edge between positions `a` and `b` adds exactly the edge between their nodes.
proof fn lemma_has_edge_push<ID>(nodes: Seq<AuthorityNode<ID>>, edges: Seq<(usize, usize)>, a: usize, b: usize)
    requires
        a < nodes.len(),
        b < nodes.len(),
    ensures
        forall|from: AuthorityNode<ID>, to: AuthorityNode<ID>|
            #[trigger] has_edge(nodes, edges.push((a, b)), from, to) == (has_edge(nodes, edges, from, to)
                || (from == nodes[a as int] && to == nodes[b as int])),
{
    let t = edges.push((a, b));
    assert forall|from: AuthorityNode<ID>, to: AuthorityNode<ID>|
        #[trigger] has_edge(nodes, t, from, to) == (has_edge(nodes, edges, from, to) || (from
            == nodes[a as int] && to == nodes[b as int])) by {
        if has_edge(nodes, t, from, to) {
            let k = choose|k: int|
                0 <= k < t.len() && nodes[(#[trigger] t[k]).0 as int] == from && nodes[t[k].1 as int] == to;
            if k < edges.len() {
                assert(t[k] == edges[k]);
            }
        }
        if has_edge(nodes, edges, from, to) {
            let k = choose|k: int|
                0 <= k < edges.len() && nodes[(#[trigger] edges[k]).0 as int] == from && nodes[edges[k].1 as int]
                    == to;
            assert(t[k] == edges[k]);
        }
        if from == nodes[a as int] && to == nodes[b as int] {
            assert(t[edges.len() as int] == (a, b));
        }
    }
}

/// Add the edge between the nodes at positions `a` and `b`, which the authority graph holds.
fn connect<ID: IdentityHandle>(
    nodes: &Vec<AuthorityNode<ID>>,
    edges: &mut Vec<(usize, usize)>,
    a: usize,
    b: usize,
    Ghost(rem): Ghost<Seq<Change<ID>>>,
    Ghost(del): Ghost<Seq<Change<ID>>>,
    Ghost(deps): Ghost<Set<(u32, u32)>>,
)
    requires
        graph_sound(nodes@, old(edges)@, rem, del, deps),
        a < nodes@.len(),
        b < nodes@.len(),
        authority_edge(rem, del, deps, nodes@[a as int], nodes@[b as int]),
    ensures
        graph_sound(nodes@, final(edges)@, rem, del, deps),
        forall|from: AuthorityNode<ID>, to: AuthorityNode<ID>|
            #[trigger] has_edge(nodes@, final(edges)@, from, to) == (has_edge(nodes@, old(edges)@, from, to)
                || (from == nodes@[a as int] && to == nodes@[b as int])),
{
    let ghost before = edges@;
    add_edge_if_missing(edges, a, b);
    proof {
        lemma_has_edge_push(nodes@, before, a, b);
        if before.contains((a, b)) {
            let k = choose|k: int| 0 <= k < before.len() && before[k] == (a, b);
            assert(has_edge(nodes@, before, nodes@[a as int], nodes@[b as int]));
        }
    }
}

/// Add both nodes of a removal or delegation and the edge between them.
fn add_change<ID: IdentityHandle>(
    nodes: &mut Vec<AuthorityNode<ID>>,
    edges: &mut Vec<(usize, usize)>,
    c: Change<ID>,
    Ghost(rem): Ghost<Seq<Change<ID>>>,
    Ghost(del): Ghost<Seq<Change<ID>>>,
    Ghost(deps): Ghost<Set<(u32, u32)>>,
)
    requires
        graph_sound(old(nodes)@, old(edges)@, rem, del, deps),
        authority_node(rem, del, (c.0, c.2)),
        authority_node(rem, del, (c.1, c.2)),
        authority_edge(rem, del, deps, (c.0, c.2), (c.1, c.2)),
    ensures
        graph_sound(final(nodes)@, final(edges)@, rem, del, deps),
        forall|n: AuthorityNode<ID>| #[trigger] old(nodes)@.contains(n) ==> final(nodes)@.contains(n),
        final(nodes)@.contains((c.0, c.2)),
        final(nodes)@.contains((c.1, c.2)),
        forall|from: AuthorityNode<ID>, to: AuthorityNode<ID>|
            #[trigger] has_edge(old(nodes)@, old(edges)@, from, to) ==> has_edge(final(nodes)@, final(edges)@, from, to),
        has_edge(final(nodes)@, final(edges)@, (c.0, c.2), (c.1, c.2)),
{
    let ghost n0 = nodes@;
    let ghost e0 = edges@;
    let a = ensure_node(nodes, (c.0, c.2));
    proof {
        if !n0.contains((c.0, c.2)) {
            lemma_has_edge_node_push(n0, e0, (c.0, c.2));
        }
        assert forall|n: AuthorityNode<ID>| #[trigger] n0.contains(n) implies nodes@.contains(n) by {
            if !n0.contains((c.0, c.2)) {
                let i = choose|i: int| 0 <= i < n0.len() && n0[i] == n;
                assert(nodes@[i] == n);
            }
        }
        assert forall|n: AuthorityNode<ID>| #[trigger] nodes@.contains(n) implies authority_node(rem, del, n) by {
            if n != (c.0, c.2) {
                let i = choose|i: int| 0 <= i < nodes@.len() && nodes@[i] == n;
                if i < n0.len() {
                    assert(n0[i] == n);
                    assert(n0.contains(n));
                }
            }
        }
    }
    let ghost n1 = nodes@;
    let b = ensure_node(nodes, (c.1, c.2));
    proof {
        if !n1.contains((c.1, c.2)) {
            lemma_has_edge_node_push(n1, e0, (c.1, c.2));
        }
        assert forall|n: AuthorityNode<ID>| #[trigger] n1.contains(n) implies nodes@.contains(n) by {
            if !n1.contains((c.1, c.2)) {
                let i = choose|i: int| 0 <= i < n1.len() && n1[i] == n;
                assert(nodes@[i] == n);
            }
        }
        assert forall|n: AuthorityNode<ID>| #[trigger] nodes@.contains(n) implies authority_node(rem, del, n) by {
            if n != (c.1, c.2) {
                let i = choose|i: int| 0 <= i < nodes@.len() && nodes@[i] == n;
                if i < n1.len() {
                    assert(n1[i] == n);
                    assert(n1.contains(n));
                }
            }
        }
        assert(nodes@[a as int] == (c.0, c.2)) by {
            if !n1.contains((c.1, c.2)) {
                assert(nodes@[a as int] == n1[a as int]);
            }
        }
        assert(graph_sound(nodes@, e0, rem, del, deps));
    }
    connect(nodes, edges, a, b, Ghost(rem), Ghost(del), Ghost(deps));
}


/// The nodes and the edge of each of the first `upto` changes are in the graph.
pub open spec fn changes_done<ID>(
    nodes: Seq<AuthorityNode<ID>>,
    edges: Seq<(usize, usize)>,
    cs: Seq<Change<ID>>,
    upto: int,
) -> bool {
    forall|k: int|
        0 <= k < upto ==> nodes.contains((#[trigger] cs[k].0, cs[k].2)) && nodes.contains((cs[k].1, cs[k].2))
            && has_edge(nodes, edges, (cs[k].0, cs[k].2), (cs[k].1, cs[k].2))
}

/// The removal-removal edges of all pairs before `(i, j)` are in the graph.
pub open spec fn removal_pairs_done<ID>(
    nodes: Seq<AuthorityNode<ID>>,
    edges: Seq<(usize, usize)>,
    rem: Seq<Change<ID>>,
    deps: Set<(u32, u32)>,
    i: int,
    j: int,
) -> bool {
    forall|a: int, b: int|
        #![trigger rem[a], rem[b]]
        0 <= a < rem.len() && 0 <= b < rem.len() && (a < i || (a == i && b < j)) && concurrent(
            deps,
            rem[a].2,
            rem[b].2,
        ) && rem[a].1 == rem[b].0 ==> has_edge(nodes, edges, (rem[a].1, rem[a].2), (rem[b].0, rem[b].2))
}

/// The removal-delegation edges of all pairs before `(i, j)` are in the graph.
pub open spec fn delegation_removal_pairs_done<ID>(
    nodes: Seq<AuthorityNode<ID>>,
    edges: Seq<(usize, usize)>,
    rem: Seq<Change<ID>>,
    del: Seq<Change<ID>>,
    deps: Set<(u32, u32)>,
    i: int,
    j: int,
) -> bool {
    forall|a: int, b: int|
        #![trigger del[a], rem[b]]
        0 <= a < del.len() && 0 <= b < rem.len() && (a < i || (a == i && b < j)) ==> {
            &&& rem[b].1 == del[a].0 && !reaches(deps, del[a].2, rem[b].2) ==> has_edge(
                nodes,
                edges,
                (rem[b].1, rem[b].2),
                (del[a].0, del[a].2),
            )
            &&& del[a].1 == rem[b].0 && reaches(deps, del[a].2, rem[b].2) ==> has_edge(
                nodes,
                edges,
                (del[a].1, del[a].2),
                (rem[b].0, rem[b].2),
            )
        }
}

/// The delegation-delegation edges of all pairs before `(i, j)` are in the graph.
pub open spec fn delegation_pairs_done<ID>(
    nodes: Seq<AuthorityNode<ID>>,
    edges: Seq<(usize, usize)>,
    del: Seq<Change<ID>>,
    deps: Set<(u32, u32)>,
    i: int,
    j: int,
) -> bool {
    forall|a: int, b: int|
        #![trigger del[a], del[b]]
        0 <= a < del.len() && 0 <= b < del.len() && (a < i || (a == i && b < j)) && del[a].1 == del[b].0
            && reaches(deps, del[a].2, del[b].2) ==> has_edge(
            nodes,
            edges,
            (del[a].1, del[a].2),
            (del[b].0, del[b].2),
        )
}

/// Position of a node which is known to be in the graph.
fn position<ID: IdentityHandle>(nodes: &Vec<AuthorityNode<ID>>, key: AuthorityNode<ID>) -> (r: usize)
    requires
        nodes@.contains(key),
    ensures
        r < nodes@.len(),
        nodes@[r as int] == key,
{
    match find_node(nodes, key) {
        Some(i) => i,
        None => {
            proof {
                assert(false);
            }
            0
        },
    }
}

/// Every edge of `e1` is an edge of `e2`.
pub open spec fn edges_kept<ID>(
    nodes: Seq<AuthorityNode<ID>>,
    e1: Seq<(usize, usize)>,
    e2: Seq<(usize, usize)>,
) -> bool {
    forall|from: AuthorityNode<ID>, to: AuthorityNode<ID>|
        #[trigger] has_edge(nodes, e1, from, to) ==> has_edge(nodes, e2, from, to)
}

/// Add the nodes and the edge of each change in `cs`.
fn add_changes<ID: IdentityHandle>(
    nodes: &mut Vec<AuthorityNode<ID>>,
    edges: &mut Vec<(usize, usize)>,
    cs: &Vec<Change<ID>>,
    Ghost(rem): Ghost<Seq<Change<ID>>>,
    Ghost(del): Ghost<Seq<Change<ID>>>,
    Ghost(deps): Ghost<Set<(u32, u32)>>,
)
    requires
        graph_sound(old(nodes)@, old(edges)@, rem, del, deps),
        forall|k: int|
            0 <= k < cs@.len() ==> authority_node(rem, del, (#[trigger] cs@[k].0, cs@[k].2))
                && authority_node(rem, del, (cs@[k].1, cs@[k].2)) && authority_edge(
                rem,
                del,
                deps,
                (cs@[k].0, cs@[k].2),
                (cs@[k].1, cs@[k].2),
            ),
    ensures
        graph_sound(final(nodes)@, final(edges)@, rem, del, deps),
        forall|n: AuthorityNode<ID>| #[trigger] old(nodes)@.contains(n) ==> final(nodes)@.contains(n),
        forall|from: AuthorityNode<ID>, to: AuthorityNode<ID>|
            #[trigger] has_edge(old(nodes)@, old(edges)@, from, to) ==> has_edge(final(nodes)@, final(edges)@, from, to),
        changes_done(final(nodes)@, final(edges)@, cs@, cs@.len() as int),
{
    let ghost n0 = nodes@;
    let ghost e0 = edges@;
    let mut i: usize = 0;
    while i < cs.len()
        invariant
            i <= cs@.len(),
            graph_sound(nodes@, edges@, rem, del, deps),
            forall|k: int|
                0 <= k < cs@.len() ==> authority_node(rem, del, (#[trigger] cs@[k].0, cs@[k].2))
                    && authority_node(rem, del, (cs@[k].1, cs@[k].2)) && authority_edge(
                    rem,
                    del,
                    deps,
                    (cs@[k].0, cs@[k].2),
                    (cs@[k].1, cs@[k].2),
                ),
            forall|n: AuthorityNode<ID>| #[trigger] n0.contains(n) ==> nodes@.contains(n),
            forall|from: AuthorityNode<ID>, to: AuthorityNode<ID>|
                #[trigger] has_edge(n0, e0, from, to) ==> has_edge(nodes@, edges@, from, to),
            changes_done(nodes@, edges@, cs@, i as int),
        decreases cs@.len() - i,
    {
        let c = cs[i];
        proof {
            assert(cs@[i as int] == c);
        }
        add_change(nodes, edges, c, Ghost(rem), Ghost(del), Ghost(deps));
        i = i + 1;
    }
}

/// Add the edges between concurrent removals.
fn add_removal_pairs<ID: IdentityHandle>(
    nodes: &Vec<AuthorityNode<ID>>,
    edges: &mut Vec<(usize, usize)>,
    removals: &Vec<Change<ID>>,
    deps_graph: &DiGraphMap<u32, ()>,
    Ghost(del): Ghost<Seq<Change<ID>>>,
)
    requires
        graph_sound(nodes@, old(edges)@, removals@, del, graph_edges(*deps_graph)),
        changes_done(nodes@, old(edges)@, removals@, removals@.len() as int),
    ensures
        graph_sound(nodes@, final(edges)@, removals@, del, graph_edges(*deps_graph)),
        edges_kept(nodes@, old(edges)@, final(edges)@),
        removal_pairs_done(nodes@, final(edges)@, removals@, graph_edges(*deps_graph), removals@.len() as int, 0),
{
    let ghost rem = removals@;
    let ghost deps = graph_edges(*deps_graph);
    let ghost e0 = edges@;
    let mut i: usize = 0;
    while i < removals.len()
        invariant
            rem == removals@,
            deps == graph_edges(*deps_graph),
            i <= rem.len(),
            graph_sound(nodes@, edges@, rem, del, deps),
            changes_done(nodes@, e0, rem, rem.len() as int),
            edges_kept(nodes@, e0, edges@),
            removal_pairs_done(nodes@, edges@, rem, deps, i as int, 0),
        decreases rem.len() - i,
    {
        let mut j: usize = 0;
        while j < removals.len()
            invariant
                rem == removals@,
                deps == graph_edges(*deps_graph),
                i < rem.len(),
                j <= rem.len(),
                graph_sound(nodes@, edges@, rem, del, deps),
                changes_done(nodes@, e0, rem, rem.len() as int),
                edges_kept(nodes@, e0, edges@),
                removal_pairs_done(nodes@, edges@, rem, deps, i as int, j as int),
            decreases rem.len() - j,
        {
            let r1 = removals[i];
            let r2 = removals[j];
            proof {
                assert(rem[i as int] == r1 && rem[j as int] == r2);
                assert(nodes@.contains((rem[i as int].0, rem[i as int].2)));
                assert(nodes@.contains((rem[j as int].0, rem[j as int].2)));
            }
            let is_concurrent = !has_path(deps_graph, r1.2, r2.2) && !has_path(deps_graph, r2.2, r1.2);
            if is_concurrent {
                if r1.1.is_same(&r2.0) {
                    let a = position(nodes, (r1.1, r1.2));
                    let b = position(nodes, (r2.0, r2.2));
                    proof {
                        assert(removal_removal_edge(deps, rem[i as int], rem[j as int], (r1.1, r1.2), (r2.0, r2.2)));
                    }
                    connect(nodes, edges, a, b, Ghost(rem), Ghost(del), Ghost(deps));
                }
                if r2.1.is_same(&r1.0) {
                    let a = position(nodes, (r2.1, r2.2));
                    let b = position(nodes, (r1.0, r1.2));
                    proof {
                        assert(removal_removal_edge(deps, rem[j as int], rem[i as int], (r2.1, r2.2), (r1.0, r1.2)));
                    }
                    connect(nodes, edges, a, b, Ghost(rem), Ghost(del), Ghost(deps));
                }
            }
            j = j + 1;
        }
        i = i + 1;
    }
}

/// Add the edges between delegations and removals, and between delegations.
fn add_delegation_pairs<ID: IdentityHandle>(
    nodes: &Vec<AuthorityNode<ID>>,
    edges: &mut Vec<(usize, usize)>,
    removals: &Vec<Change<ID>>,
    delegations: &Vec<Change<ID>>,
    deps_graph: &DiGraphMap<u32, ()>,
)
    requires
        graph_sound(nodes@, old(edges)@, removals@, delegations@, graph_edges(*deps_graph)),
        changes_done(nodes@, old(edges)@, removals@, removals@.len() as int),
        changes_done(nodes@, old(edges)@, delegations@, delegations@.len() as int),
        removals@.len() > 0,
    ensures
        graph_sound(nodes@, final(edges)@, removals@, delegations@, graph_edges(*deps_graph)),
        edges_kept(nodes@, old(edges)@, final(edges)@),
        delegation_removal_pairs_done(
            nodes@,
            final(edges)@,
            removals@,
            delegations@,
            graph_edges(*deps_graph),
            delegations@.len() as int,
            0,
        ),
        delegation_pairs_done(nodes@, final(edges)@, delegations@, graph_edges(*deps_graph), delegations@.len() as int, 0),
{
    let ghost rem = removals@;
    let ghost del = delegations@;
    let ghost deps = graph_edges(*deps_graph);
    let ghost e0 = edges@;
    let mut i: usize = 0;
    while i < delegations.len()
        invariant
            rem == removals@,
            del == delegations@,
            deps == graph_edges(*deps_graph),
            rem.len() > 0,
            i <= del.len(),
            graph_sound(nodes@, edges@, rem, del, deps),
            changes_done(nodes@, e0, rem, rem.len() as int),
            changes_done(nodes@, e0, del, del.len() as int),
            edges_kept(nodes@, e0, edges@),
            delegation_removal_pairs_done(nodes@, edges@, rem, del, deps, i as int, 0),
            delegation_pairs_done(nodes@, edges@, del, deps, i as int, 0),
        decreases del.len() - i,
    {
        let d = delegations[i];
        proof {
            assert(del[i as int] == d);
            assert(nodes@.contains((del[i as int].0, del[i as int].2)));
        }
        let mut j: usize = 0;
        while j < removals.len()
            invariant
                rem == removals@,
                del == delegations@,
                deps == graph_edges(*deps_graph),
                i < del.len(),
                d == del[i as int],
                j <= rem.len(),
                graph_sound(nodes@, edges@, rem, del, deps),
                changes_done(nodes@, e0, rem, rem.len() as int),
                changes_done(nodes@, e0, del, del.len() as int),
                edges_kept(nodes@, e0, edges@),
                delegation_removal_pairs_done(nodes@, edges@, rem, del, deps, i as int, j as int),
                delegation_pairs_done(nodes@, edges@, del, deps, i as int, 0),
            decreases rem.len() - j,
        {
            let r = removals[j];
            proof {
                assert(rem[j as int] == r);
                assert(nodes@.contains((rem[j as int].0, rem[j as int].2)));
            }
            let is_connected = has_path(deps_graph, d.2, r.2);
            if r.1.is_same(&d.0) && !is_connected {
                let a = position(nodes, (r.1, r.2));
                let b = position(nodes, (d.0, d.2));
                proof {
                    assert(removal_delegation_edge(deps, del[i as int], rem[j as int], (r.1, r.2), (d.0, d.2)));
                }
                connect(nodes, edges, a, b, Ghost(rem), Ghost(del), Ghost(deps));
            }
            if d.1.is_same(&r.0) && is_connected {
                let a = position(nodes, (d.1, d.2));
                let b = position(nodes, (r.0, r.2));
                proof {
                    assert(removal_delegation_edge(deps, del[i as int], rem[j as int], (d.1, d.2), (r.0, r.2)));
                }
                connect(nodes, edges, a, b, Ghost(rem), Ghost(del), Ghost(deps));
            }
            j = j + 1;
        }
        let mut j: usize = 0;
        while j < delegations.len()
            invariant
                rem == removals@,
                del == delegations@,
                deps == graph_edges(*deps_graph),
                rem.len() > 0,
                i < del.len(),
                d == del[i as int],
                j <= del.len(),
                graph_sound(nodes@, edges@, rem, del, deps),
                changes_done(nodes@, e0, rem, rem.len() as int),
                changes_done(nodes@, e0, del, del.len() as int),
                edges_kept(nodes@, e0, edges@),
                delegation_removal_pairs_done(nodes@, edges@, rem, del, deps, i as int, rem.len() as int),
                delegation_pairs_done(nodes@, edges@, del, deps, i as int, j as int),
            decreases del.len() - j,
        {
            let d2 = delegations[j];
            proof {
                assert(del[j as int] == d2);
                assert(nodes@.contains((del[j as int].0, del[j as int].2)));
            }
            let is_connected = has_path(deps_graph, d.2, d2.2);
            if d.1.is_same(&d2.0) && is_connected {
                let a = position(nodes, (d.1, d.2));
                let b = position(nodes, (d2.0, d2.2));
                proof {
                    assert(delegation_delegation_edge(deps, del[i as int], del[j as int], (d.1, d.2), (d2.0, d2.2)));
                }
                connect(nodes, edges, a, b, Ghost(rem), Ghost(del), Ghost(deps));
            }
            j = j + 1;
        }
        proof {
            assert forall|a: int, b: int|
                #![trigger del[a], rem[b]]
                0 <= a < del.len() && 0 <= b < rem.len() && (a < i + 1 || (a == i + 1 && b < 0)) implies {
                    &&& rem[b].1 == del[a].0 && !reaches(deps, del[a].2, rem[b].2) ==> has_edge(
                        nodes@,
                        edges@,
                        (rem[b].1, rem[b].2),
                        (del[a].0, del[a].2),
                    )
                    &&& del[a].1 == rem[b].0 && reaches(deps, del[a].2, rem[b].2) ==> has_edge(
                        nodes@,
                        edges@,
                        (del[a].1, del[a].2),
                        (rem[b].0, rem[b].2),
                    )
                } by {
                assert(a < i || (a == i && b < rem.len()));
            }
        }
        i = i + 1;
    }
}

/// Build the authority graph of the given removals and delegations.
fn build_authority_graph<ID: IdentityHandle>(
    removals: &Vec<Change<ID>>,
    delegations: &Vec<Change<ID>>,
    deps_graph: &DiGraphMap<u32, ()>,
) -> (r: AuthorityGraph<ID>)
    ensures
        graph_of(r.nodes@, r.edges@, removals@, delegations@, graph_edges(*deps_graph)),
{
    let ghost rem = removals@;
    let ghost del = delegations@;
    let ghost deps = graph_edges(*deps_graph);
    let mut nodes: Vec<AuthorityNode<ID>> = Vec::new();
    let mut edges: Vec<(usize, usize)> = Vec::new();
    proof {
        assert forall|k: int| 0 <= k < rem.len() implies authority_node(rem, del, (#[trigger] rem[k].0, rem[k].2))
            && authority_node(rem, del, (rem[k].1, rem[k].2)) && authority_edge(rem, del, deps, (rem[k].0, rem[k].2), (rem[k].1, rem[k].2)) by {
            assert(change_edge(rem[k], (rem[k].0, rem[k].2), (rem[k].1, rem[k].2)));
        }
        assert forall|k: int| 0 <= k < del.len() implies authority_node(rem, del, (#[trigger] del[k].0, del[k].2))
            && authority_node(rem, del, (del[k].1, del[k].2)) && authority_edge(rem, del, deps, (del[k].0, del[k].2), (del[k].1, del[k].2)) by {
            assert(change_edge(del[k], (del[k].0, del[k].2), (del[k].1, del[k].2)));
        }
    }
    add_changes(&mut nodes, &mut edges, removals, Ghost(rem), Ghost(del), Ghost(deps));
    let ghost e1 = edges@;
    add_changes(&mut nodes, &mut edges, delegations, Ghost(rem), Ghost(del), Ghost(deps));
    proof {
        assert forall|k: int| 0 <= k < rem.len() implies nodes@.contains((#[trigger] rem[k].0, rem[k].2))
            && nodes@.contains((rem[k].1, rem[k].2)) && has_edge(nodes@, edges@, (rem[k].0, rem[k].2), (rem[k].1, rem[k].2)) by {
        }
    }
    let ghost e2 = edges@;
    add_removal_pairs(&nodes, &mut edges, removals, deps_graph, Ghost(del));
    let ghost e3 = edges@;
    if removals.len() > 0 {
        add_delegation_pairs(&nodes, &mut edges, removals, delegations, deps_graph);
    }
    proof {
        assert forall|n: AuthorityNode<ID>| #[trigger] nodes@.contains(n) <==> authority_node(rem, del, n) by {
            if authority_node(rem, del, n) {
                if exists|k: int| 0 <= k < rem.len() && n.1 == (#[trigger] rem[k]).2 && (n.0 == rem[k].0 || n.0 == rem[k].1) {
                    let k = choose|k: int| 0 <= k < rem.len() && n.1 == (#[trigger] rem[k]).2 && (n.0 == rem[k].0 || n.0 == rem[k].1);
                    assert(nodes@.contains((rem[k].0, rem[k].2)));
                } else {
                    let k = choose|k: int| 0 <= k < del.len() && n.1 == (#[trigger] del[k]).2 && (n.0 == del[k].0 || n.0 == del[k].1);
                    assert(nodes@.contains((del[k].0, del[k].2)));
                }
            }
        }
        assert forall|from: AuthorityNode<ID>, to: AuthorityNode<ID>|
            #[trigger] has_edge(nodes@, edges@, from, to) <==> authority_edge(rem, del, deps, from, to) by {
            if authority_edge(rem, del, deps, from, to) {
                if exists|k: int| 0 <= k < rem.len() && change_edge(#[trigger] rem[k], from, to) {
                    let k = choose|k: int| 0 <= k < rem.len() && change_edge(#[trigger] rem[k], from, to);
                    assert(has_edge(nodes@, e2, from, to));
                    assert(has_edge(nodes@, e3, from, to));
                } else if exists|k: int| 0 <= k < del.len() && change_edge(#[trigger] del[k], from, to) {
                    let k = choose|k: int| 0 <= k < del.len() && change_edge(#[trigger] del[k], from, to);
                    assert(has_edge(nodes@, e2, from, to));
                    assert(has_edge(nodes@, e3, from, to));
                } else if exists|a: int, b: int|
                    #![trigger rem[a], rem[b]]
                    0 <= a < rem.len() && 0 <= b < rem.len() && removal_removal_edge(deps, rem[a], rem[b], from, to) {
                    let (a, b) = choose|a: int, b: int|
                        #![trigger rem[a], rem[b]]
                        0 <= a < rem.len() && 0 <= b < rem.len() && removal_removal_edge(deps, rem[a], rem[b], from, to);
                    assert(has_edge(nodes@, e3, from, to));
                } else if exists|a: int, b: int|
                    #![trigger del[a], rem[b]]
                    0 <= a < del.len() && 0 <= b < rem.len() && removal_delegation_edge(deps, del[a], rem[b], from, to) {
                    let (a, b) = choose|a: int, b: int|
                        #![trigger del[a], rem[b]]
                        0 <= a < del.len() && 0 <= b < rem.len() && removal_delegation_edge(deps, del[a], rem[b], from, to);
                    assert(rem[b] == rem[b] && del[a] == del[a]);
                } else {
                    let (a, b) = choose|a: int, b: int|
                        #![trigger del[a], del[b]]
                        rem.len() > 0 && 0 <= a < del.len() && 0 <= b < del.len() && delegation_delegation_edge(
                            deps,
                            del[a],
                            del[b],
                            from,
                            to,
                        );
                    assert(del[a] == del[a] && del[b] == del[b]);
                }
            }
        }
    }
    AuthorityGraph { nodes, edges }
}

// ------------------------------------------------------------------------------------------------
// Cycles
// ------------------------------------------------------------------------------------------------

/// Strongly connected components (`petgraph::algo::tarjan_scc`) of the directed graph with nodes
/// `0..node_count` and the given edges: each component lists distinct nodes of the graph, the
/// nodes of one component reach each other, and nodes which reach each other share a component.
#[verifier::external_body]
fn strongly_connected_components(node_count: usize, edges: &Vec<(usize, usize)>) -> (r: Vec<Vec<usize>>)
    requires
        forall|k: int| 0 <= k < edges@.len() ==> (#[trigger] edges@[k]).0 < node_count && edges@[k].1 < node_count,
    ensures
        forall|c: int| 0 <= c < r@.len() ==> (#[trigger] r@[c])@.no_duplicates(),
        forall|c: int, x: usize| 0 <= c < r@.len() && #[trigger] r@[c]@.contains(x) ==> x < node_count,
        forall|c: int, a: usize, b: usize|
            #![trigger r@[c]@.contains(a), r@[c]@.contains(b)]
            0 <= c < r@.len() && r@[c]@.contains(a) && r@[c]@.contains(b) ==> reaches(edges@.to_set(), a, b),
        forall|a: usize, b: usize|
            #![trigger reaches(edges@.to_set(), a, b), reaches(edges@.to_set(), b, a)]
            a < node_count && b < node_count && reaches(edges@.to_set(), a, b) && reaches(edges@.to_set(), b, a)
                ==> exists|c: int| 0 <= c < r@.len() && #[trigger] r@[c]@.contains(a) && r@[c]@.contains(b),
{
    let mut graph = Graph::<(), (), Directed, usize>::with_capacity(node_count, edges.len());
    for _ in 0..node_count {
        graph.add_node(());
    }
    for (a, b) in edges {
        graph.add_edge(NodeIndex::new(*a), NodeIndex::new(*b), ());
    }
    let mut components = Vec::new();
    for scc in petgraph::algo::tarjan_scc(&graph) {
        components.push(scc.iter().map(|node| node.index()).collect());
    }
    components
}

/// Some node at position `a` with operation `op` reaches, and is reached from, another node at
/// position `b`.
pub open spec fn index_cycle_op<ID>(nodes: Seq<AuthorityNode<ID>>, edges: Seq<(usize, usize)>, op: u32) -> bool {
    exists|a: usize, b: usize|
        #![trigger reaches(edges.to_set(), a, b), reaches(edges.to_set(), b, a)]
        a < nodes.len() && b < nodes.len() && a != b && nodes[a as int].1 == op && reaches(edges.to_set(), a, b)
            && reaches(edges.to_set(), b, a)
}

/// Operations of the nodes lying in a strongly connected component of at least two nodes.
fn cycle_ops<ID: IdentityHandle>(graph: &AuthorityGraph<ID>) -> (r: Vec<u32>)
    requires
        graph_ok(graph.nodes@, graph.edges@),
    ensures
        forall|op: u32| #[trigger] r@.contains(op) <==> index_cycle_op(graph.nodes@, graph.edges@, op),
{
    let ghost nodes = graph.nodes@;
    let ghost ie = graph.edges@.to_set();
    let sccs = strongly_connected_components(graph.nodes.len(), &graph.edges);
    let mut ops: Vec<u32> = Vec::new();
    let mut c: usize = 0;
    while c < sccs.len()
        invariant
            c <= sccs@.len(),
            nodes == graph.nodes@,
            ie == graph.edges@.to_set(),
            forall|c2: int| 0 <= c2 < sccs@.len() ==> (#[trigger] sccs@[c2])@.no_duplicates(),
            forall|c2: int, x: usize| 0 <= c2 < sccs@.len() && #[trigger] sccs@[c2]@.contains(x) ==> x < nodes.len(),
            forall|c2: int, a: usize, b: usize|
                #![trigger sccs@[c2]@.contains(a), sccs@[c2]@.contains(b)]
                0 <= c2 < sccs@.len() && sccs@[c2]@.contains(a) && sccs@[c2]@.contains(b) ==> reaches(ie, a, b),
            forall|op: u32| #[trigger] ops@.contains(op) ==> index_cycle_op(nodes, graph.edges@, op),
            forall|c2: int, x: usize|
                0 <= c2 < c && #[trigger] sccs@[c2]@.contains(x) && sccs@[c2]@.len() >= 2 ==> ops@.contains(
                    nodes[x as int].1,
                ),
        decreases sccs@.len() - c,
    {
        let component = &sccs[c];
        if component.len() >= 2 {
            let mut k: usize = 0;
            while k < component.len()
                invariant
                    c < sccs@.len(),
                    *component == sccs@[c as int],
                    component@.len() >= 2,
                    k <= component@.len(),
                    nodes == graph.nodes@,
                    ie == graph.edges@.to_set(),
                    forall|c2: int| 0 <= c2 < sccs@.len() ==> (#[trigger] sccs@[c2])@.no_duplicates(),
                    forall|c2: int, x: usize| 0 <= c2 < sccs@.len() && #[trigger] sccs@[c2]@.contains(x) ==> x < nodes.len(),
                    forall|c2: int, a: usize, b: usize|
                        #![trigger sccs@[c2]@.contains(a), sccs@[c2]@.contains(b)]
                        0 <= c2 < sccs@.len() && sccs@[c2]@.contains(a) && sccs@[c2]@.contains(b) ==> reaches(ie, a, b),
                    forall|op: u32| #[trigger] ops@.contains(op) ==> index_cycle_op(nodes, graph.edges@, op),
                    forall|c2: int, x: usize|
                        0 <= c2 < c && #[trigger] sccs@[c2]@.contains(x) && sccs@[c2]@.len() >= 2 ==> ops@.contains(
                            nodes[x as int].1,
                        ),
                    forall|j: int| 0 <= j < k ==> ops@.contains(nodes[(#[trigger] component@[j]) as int].1),
                decreases component@.len() - k,
            {
                let x = component[k];
                proof {
                    assert(sccs@[c as int]@.contains(x));
                    let y = if component@[0] != x { component@[0] } else { component@[1] };
                    assert(component@[0] != component@[1]);
                    assert(sccs@[c as int]@.contains(y));
                    assert(reaches(ie, x, y) && reaches(ie, y, x));
                    assert(index_cycle_op(nodes, graph.edges@, nodes[x as int].1));
                }
                let ghost before = ops@;
                ops.push(graph.nodes[x].1);
                proof {
                    assert forall|op: u32| #[trigger] ops@.contains(op) implies index_cycle_op(nodes, graph.edges@, op) by {
                        let i = choose|i: int| 0 <= i < ops@.len() && ops@[i] == op;
                        if i < before.len() {
                            assert(before[i] == op);
                            assert(before.contains(op));
                        }
                    }
                    assert forall|o: u32| #[trigger] before.contains(o) implies ops@.contains(o) by {
                        let i = choose|i: int| 0 <= i < before.len() && before[i] == o;
                        assert(ops@[i] == o);
                    }
                    assert(ops@[ops@.len() - 1] == nodes[x as int].1);
                }
                k = k + 1;
            }
            proof {
                assert forall|x: usize| #[trigger] sccs@[c as int]@.contains(x) implies ops@.contains(nodes[x as int].1) by {
                    let j = choose|j: int| 0 <= j < component@.len() && component@[j] == x;
                }
            }
        }
        c = c + 1;
    }
    proof {
        assert forall|op: u32| index_cycle_op(nodes, graph.edges@, op) implies #[trigger] ops@.contains(op) by {
            let (a, b) = choose|a: usize, b: usize|
                #![trigger reaches(ie, a, b), reaches(ie, b, a)]
                a < nodes.len() && b < nodes.len() && a != b && nodes[a as int].1 == op && reaches(ie, a, b)
                    && reaches(ie, b, a);
            let c2 = choose|c2: int| 0 <= c2 < sccs@.len() && #[trigger] sccs@[c2]@.contains(a) && sccs@[c2]@.contains(b);
            let comp = sccs@[c2]@;
            let ia = choose|i: int| 0 <= i < comp.len() && comp[i] == a;
            let ib = choose|i: int| 0 <= i < comp.len() && comp[i] == b;
            assert(ia != ib);
            assert(comp.len() >= 2);
        }
    }
    ops
}


/// A path between node positions leads between the nodes at those positions.
proof fn lemma_index_path_to_nodes<ID>(
    nodes: Seq<AuthorityNode<ID>>,
    edges: Seq<(usize, usize)>,
    rem: Seq<Change<ID>>,
    del: Seq<Change<ID>>,
    deps: Set<(u32, u32)>,
    a: usize,
    b: usize,
)
    requires
        graph_of(nodes, edges, rem, del, deps),
        reaches(edges.to_set(), a, b),
    ensures
        reaches(authority_edges(rem, del, deps), nodes[a as int], nodes[b as int]),
{
    let ie = edges.to_set();
    let ve = authority_edges(rem, del, deps);
    let p = choose|p: Seq<usize>| #[trigger] is_path(ie, p) && p[0] == a && p[p.len() - 1] == b;
    let q = p.map_values(|i: usize| nodes[i as int]);
    assert forall|i: int, j: int|
        #![trigger q[i], q[j]]
        0 <= i && j == i + 1 && j < q.len() implies ve.contains((q[i], q[j])) by {
        assert(p[i] == p[i] && p[j] == p[j]);
        assert(ie.contains((p[i], p[j])));
        let k = choose|k: int| 0 <= k < edges.len() && edges[k] == (p[i], p[j]);
        assert(has_edge(nodes, edges, q[i], q[j]));
    }
    assert(is_path(ve, q));
}

/// A path from the node at position `a` leads to a node at some position `b`, along a path
/// between positions.
proof fn lemma_node_path_to_index<ID>(
    nodes: Seq<AuthorityNode<ID>>,
    edges: Seq<(usize, usize)>,
    rem: Seq<Change<ID>>,
    del: Seq<Change<ID>>,
    deps: Set<(u32, u32)>,
    a: usize,
    v: AuthorityNode<ID>,
) -> (b: usize)
    requires
        graph_of(nodes, edges, rem, del, deps),
        nodes.len() <= usize::MAX,
        a < nodes.len(),
        reaches(authority_edges(rem, del, deps), nodes[a as int], v),
    ensures
        b < nodes.len(),
        nodes[b as int] == v,
        reaches(edges.to_set(), a, b),
{
    let ie = edges.to_set();
    let ve = authority_edges(rem, del, deps);
    let q = choose|q: Seq<AuthorityNode<ID>>| #[trigger] is_path(ve, q) && q[0] == nodes[a as int] && q[q.len() - 1] == v;
    assert forall|i: int| 0 <= i < q.len() implies nodes.contains(#[trigger] q[i]) by {
        if i == 0 {
            assert(nodes[a as int] == q[0]);
        } else {
            assert(q[i - 1] == q[i - 1]);
            assert(ve.contains((q[i - 1], q[i])));
            assert(has_edge(nodes, edges, q[i - 1], q[i]));
            let k = choose|k: int|
                0 <= k < edges.len() && nodes[(#[trigger] edges[k]).0 as int] == q[i - 1]
                    && nodes[edges[k].1 as int] == q[i];
        }
    }
    let position_of = |x: AuthorityNode<ID>| (choose|i: usize| i < nodes.len() && nodes[i as int] == x);
    let p = q.map_values(position_of);
    assert forall|i: int| 0 <= i < q.len() implies (#[trigger] p[i]) < nodes.len() && nodes[p[i] as int] == q[i] by {
        assert(nodes.contains(q[i]));
        let w = choose|w: int| 0 <= w < nodes.len() && nodes[w] == q[i];
        assert((w as usize) < nodes.len() && nodes[(w as usize) as int] == q[i]);
    }
    assert forall|i: int, j: int|
        #![trigger p[i], p[j]]
        0 <= i && j == i + 1 && j < p.len() implies ie.contains((p[i], p[j])) by {
        assert(q[i] == q[i] && q[j] == q[j]);
        assert(ve.contains((q[i], q[j])));
        assert(has_edge(nodes, edges, q[i], q[j]));
        let k = choose|k: int|
            0 <= k < edges.len() && nodes[(#[trigger] edges[k]).0 as int] == q[i] && nodes[edges[k].1 as int] == q[j];
        assert(edges[k].0 == p[i]);
        assert(edges[k].1 == p[j]);
        assert(edges.contains(edges[k]));
    }
    assert(is_path(ie, p));
    assert(p[0] == a);
    p[p.len() - 1]
}

/// Cycles found among node positions are exactly the cycles of the authority graph.
proof fn lemma_cycle_ops<ID>(
    nodes: Seq<AuthorityNode<ID>>,
    edges: Seq<(usize, usize)>,
    rem: Seq<Change<ID>>,
    del: Seq<Change<ID>>,
    deps: Set<(u32, u32)>,
    op: u32,
)
    requires
        graph_of(nodes, edges, rem, del, deps),
        nodes.len() <= usize::MAX,
    ensures
        index_cycle_op(nodes, edges, op) == cycle_op(rem, del, deps, op),
{
    let ie = edges.to_set();
    let ve = authority_edges(rem, del, deps);
    if index_cycle_op(nodes, edges, op) {
        let (a, b) = choose|a: usize, b: usize|
            #![trigger reaches(ie, a, b), reaches(ie, b, a)]
            a < nodes.len() && b < nodes.len() && a != b && nodes[a as int].1 == op && reaches(ie, a, b)
                && reaches(ie, b, a);
        lemma_index_path_to_nodes(nodes, edges, rem, del, deps, a, b);
        lemma_index_path_to_nodes(nodes, edges, rem, del, deps, b, a);
        assert(nodes.contains(nodes[a as int]));
        assert(nodes.contains(nodes[b as int]));
        let id = nodes[a as int].0;
        assert(nodes[a as int] == (id, op));
        assert(authority_node(rem, del, (id, op)));
        assert(authority_node(rem, del, nodes[b as int]));
    }
    if cycle_op(rem, del, deps, op) {
        let (id, m) = choose|id: ID, m: AuthorityNode<ID>|
            #![trigger authority_node(rem, del, (id, op)), authority_node(rem, del, m)]
            authority_node(rem, del, (id, op)) && authority_node(rem, del, m) && m != (id, op) && reaches(ve, (id, op), m)
                && reaches(ve, m, (id, op));
        assert(nodes.contains((id, op)));
        let a = choose|i: int| 0 <= i < nodes.len() && nodes[i] == (id, op);
        let b = lemma_node_path_to_index(nodes, edges, rem, del, deps, a as usize, m);
        let a2 = lemma_node_path_to_index(nodes, edges, rem, del, deps, b, (id, op));
        assert(a2 == a as usize);
        assert(reaches(ie, a as usize, b) && reaches(ie, b, a as usize));
    }
}

/// The two sequences hold the same elements.
pub open spec fn same_elements<A>(s: Seq<A>, t: Seq<A>) -> bool {
    forall|x: A| s.contains(x) <==> t.contains(x)
}

/// Nodes and edges of the authority graph of some changes are nodes and edges of the authority
/// graph of more changes.
proof fn lemma_authority_within<ID>(
    rem1: Seq<Change<ID>>,
    del1: Seq<Change<ID>>,
    rem2: Seq<Change<ID>>,
    del2: Seq<Change<ID>>,
    deps: Set<(u32, u32)>,
)
    requires
        forall|x: Change<ID>| rem1.contains(x) ==> rem2.contains(x),
        forall|x: Change<ID>| del1.contains(x) ==> del2.contains(x),
    ensures
        forall|n: AuthorityNode<ID>| #[trigger] authority_node(rem1, del1, n) ==> authority_node(rem2, del2, n),
        forall|f: AuthorityNode<ID>, t: AuthorityNode<ID>|
            #[trigger] authority_edge(rem1, del1, deps, f, t) ==> authority_edge(rem2, del2, deps, f, t),
{
    assert forall|n: AuthorityNode<ID>| #[trigger] authority_node(rem1, del1, n) implies authority_node(rem2, del2, n) by {
        if exists|i: int| 0 <= i < rem1.len() && n.1 == (#[trigger] rem1[i]).2 && (n.0 == rem1[i].0 || n.0 == rem1[i].1) {
            let i = choose|i: int| 0 <= i < rem1.len() && n.1 == (#[trigger] rem1[i]).2 && (n.0 == rem1[i].0 || n.0 == rem1[i].1);
            assert(rem1.contains(rem1[i]));
            let j = choose|j: int| 0 <= j < rem2.len() && rem2[j] == rem1[i];
            assert(n.1 == rem2[j].2);
        } else {
            let i = choose|i: int| 0 <= i < del1.len() && n.1 == (#[trigger] del1[i]).2 && (n.0 == del1[i].0 || n.0 == del1[i].1);
            assert(del1.contains(del1[i]));
            let j = choose|j: int| 0 <= j < del2.len() && del2[j] == del1[i];
            assert(n.1 == del2[j].2);
        }
    }
    assert forall|f: AuthorityNode<ID>, t: AuthorityNode<ID>|
        #[trigger] authority_edge(rem1, del1, deps, f, t) implies authority_edge(rem2, del2, deps, f, t) by {
        if exists|i: int| 0 <= i < rem1.len() && change_edge(#[trigger] rem1[i], f, t) {
            let i = choose|i: int| 0 <= i < rem1.len() && change_edge(#[trigger] rem1[i], f, t);
            assert(rem1.contains(rem1[i]));
            let j = choose|j: int| 0 <= j < rem2.len() && rem2[j] == rem1[i];
            assert(change_edge(rem2[j], f, t));
        } else if exists|i: int| 0 <= i < del1.len() && change_edge(#[trigger] del1[i], f, t) {
            let i = choose|i: int| 0 <= i < del1.len() && change_edge(#[trigger] del1[i], f, t);
            assert(del1.contains(del1[i]));
            let j = choose|j: int| 0 <= j < del2.len() && del2[j] == del1[i];
            assert(change_edge(del2[j], f, t));
        } else if exists|i: int, j: int|
            #![trigger rem1[i], rem1[j]]
            0 <= i < rem1.len() && 0 <= j < rem1.len() && removal_removal_edge(deps, rem1[i], rem1[j], f, t) {
            let (i, j) = choose|i: int, j: int|
                #![trigger rem1[i], rem1[j]]
                0 <= i < rem1.len() && 0 <= j < rem1.len() && removal_removal_edge(deps, rem1[i], rem1[j], f, t);
            assert(rem1.contains(rem1[i]) && rem1.contains(rem1[j]));
            let k = choose|k: int| 0 <= k < rem2.len() && rem2[k] == rem1[i];
            let l = choose|l: int| 0 <= l < rem2.len() && rem2[l] == rem1[j];
            assert(removal_removal_edge(deps, rem2[k], rem2[l], f, t));
        } else if exists|i: int, j: int|
            #![trigger del1[i], rem1[j]]
            0 <= i < del1.len() && 0 <= j < rem1.len() && removal_delegation_edge(deps, del1[i], rem1[j], f, t) {
            let (i, j) = choose|i: int, j: int|
                #![trigger del1[i], rem1[j]]
                0 <= i < del1.len() && 0 <= j < rem1.len() && removal_delegation_edge(deps, del1[i], rem1[j], f, t);
            assert(del1.contains(del1[i]) && rem1.contains(rem1[j]));
            let k = choose|k: int| 0 <= k < del2.len() && del2[k] == del1[i];
            let l = choose|l: int| 0 <= l < rem2.len() && rem2[l] == rem1[j];
            assert(removal_delegation_edge(deps, del2[k], rem2[l], f, t));
        } else {
            let (i, j) = choose|i: int, j: int|
                #![trigger del1[i], del1[j]]
                rem1.len() > 0 && 0 <= i < del1.len() && 0 <= j < del1.len() && delegation_delegation_edge(
                    deps,
                    del1[i],
                    del1[j],
                    f,
                    t,
                );
            assert(del1.contains(del1[i]) && del1.contains(del1[j]));
            assert(rem1.contains(rem1[0]));
            assert(rem2.len() > 0);
            let k = choose|k: int| 0 <= k < del2.len() && del2[k] == del1[i];
            let l = choose|l: int| 0 <= l < del2.len() && del2[l] == del1[j];
            assert(delegation_delegation_edge(deps, del2[k], del2[l], f, t));
        }
    }
}

/// Whether an operation is part of a cycle of the authority graph depends only on which changes
/// were registered, not on their order.
pub proof fn lemma_cycle_op_same_changes<ID>(
    rem1: Seq<Change<ID>>,
    del1: Seq<Change<ID>>,
    rem2: Seq<Change<ID>>,
    del2: Seq<Change<ID>>,
    deps: Set<(u32, u32)>,
    op: u32,
)
    requires
        same_elements(rem1, rem2),
        same_elements(del1, del2),
    ensures
        cycle_op(rem1, del1, deps, op) == cycle_op(rem2, del2, deps, op),
{
    lemma_authority_within(rem1, del1, rem2, del2, deps);
    lemma_authority_within(rem2, del2, rem1, del1, deps);
    assert(authority_edges(rem1, del1, deps) =~= authority_edges(rem2, del2, deps));
    if cycle_op(rem1, del1, deps, op) {
        let (id, m) = choose|id: ID, m: AuthorityNode<ID>|
            #![trigger authority_node(rem1, del1, (id, op)), authority_node(rem1, del1, m)]
            authority_node(rem1, del1, (id, op)) && authority_node(rem1, del1, m) && m != (id, op) && reaches(
                authority_edges(rem1, del1, deps),
                (id, op),
                m,
            ) && reaches(authority_edges(rem1, del1, deps), m, (id, op));
        assert(authority_node(rem2, del2, (id, op)) && authority_node(rem2, del2, m));
    }
    if cycle_op(rem2, del2, deps, op) {
        let (id, m) = choose|id: ID, m: AuthorityNode<ID>|
            #![trigger authority_node(rem2, del2, (id, op)), authority_node(rem2, del2, m)]
            authority_node(rem2, del2, (id, op)) && authority_node(rem2, del2, m) && m != (id, op) && reaches(
                authority_edges(rem2, del2, deps),
                (id, op),
                m,
            ) && reaches(authority_edges(rem2, del2, deps), m, (id, op));
        assert(authority_node(rem1, del1, (id, op)) && authority_node(rem1, del1, m));
    }
}


impl<ID> AuthorityGraph<ID> {
    #[verifier::type_invariant]
    spec fn edges_between_nodes(self) -> bool {
        graph_ok(self.nodes@, self.edges@)
    }

    /// The nodes of the graph.
    pub closed spec fn node_list(self) -> Seq<AuthorityNode<ID>> {
        self.nodes@
    }

    /// The edges of the graph, as pairs of node positions.
    pub closed spec fn edge_list(self) -> Seq<(usize, usize)> {
        self.edges@
    }
}

impl<ID: IdentityHandle> AuthorityGraph<ID> {
    /// Number of edges.
    pub fn edge_count(&self) -> (r: usize)
        ensures
            r == self.edge_list().len(),
    {
        self.edges.len()
    }

    /// Returns `true` if the graph holds an edge from `from` to `to`.
    pub fn contains_edge(&self, from: &AuthorityNode<ID>, to: &AuthorityNode<ID>) -> (r: bool)
        ensures
            r == has_edge(self.node_list(), self.edge_list(), *from, *to),
    {
        proof {
            use_type_invariant(self);
        }
        let mut k: usize = 0;
        while k < self.edges.len()
            invariant
                k <= self.edges@.len(),
                graph_ok(self.nodes@, self.edges@),
                forall|j: int|
                    0 <= j < k ==> !(self.edges@[j].0 < self.nodes@.len() && self.edges@[j].1 < self.nodes@.len()
                        && self.nodes@[(#[trigger] self.edges@[j]).0 as int] == *from && self.nodes@[self.edges@[j].1 as int] == *to),
            decreases self.edges@.len() - k,
        {
            let (a, b) = self.edges[k];
            if a < self.nodes.len() && b < self.nodes.len() && same_node(&self.nodes[a], from) && same_node(
                &self.nodes[b],
                to,
            ) {
                return true;
            }
            k = k + 1;
        }
        false
    }
}

/// Removals and delegations between the actors of groups, with the authority graphs and cycles
/// derived from them.
#[derive(Debug)]
pub struct AuthorityGraphs<ID> {
    deps_graph: DiGraphMap<u32, ()>,
    removals: Vec<(ID, Vec<Change<ID>>)>,
    delegations: Vec<(ID, Vec<Change<ID>>)>,
    graphs: Vec<(ID, AuthorityGraph<ID>)>,
    cycles: Vec<(ID, Vec<u32>)>,
}

/// The changes recorded for group `g`, none if the group is unknown.
pub open spec fn changes_of<ID>(entries: Seq<(ID, Vec<Change<ID>>)>, g: ID) -> Seq<Change<ID>> {
    if entries_map(entries).contains_key(g) {
        entries_map(entries)[g]@
    } else {
        Seq::empty()
    }
}

impl<ID> AuthorityGraphs<ID> {
    /// Removals recorded for group `g`.
    pub closed spec fn removals_of(self, g: ID) -> Seq<Change<ID>> {
        changes_of(self.removals@, g)
    }

    /// Delegations recorded for group `g`.
    pub closed spec fn delegations_of(self, g: ID) -> Seq<Change<ID>> {
        changes_of(self.delegations@, g)
    }

    /// Edges of the operation dependency graph.
    pub closed spec fn deps(self) -> Set<(u32, u32)> {
        graph_edges(self.deps_graph)
    }

    /// The derived graphs and cycles agree with the recorded changes.
    pub closed spec fn wf(self) -> bool {
        &&& keys_distinct(self.removals@)
        &&& keys_distinct(self.delegations@)
        &&& keys_distinct(self.graphs@)
        &&& keys_distinct(self.cycles@)
        &&& forall|g: ID|
            #[trigger] entries_map(self.graphs@).contains_key(g) ==> entries_map(self.cycles@).contains_key(g)
                && graph_of(
                entries_map(self.graphs@)[g].nodes@,
                entries_map(self.graphs@)[g].edges@,
                self.removals_of(g),
                self.delegations_of(g),
                self.deps(),
            )
        &&& forall|g: ID, op: u32|
            #![trigger entries_map(self.cycles@)[g]@.contains(op)]
            entries_map(self.cycles@).contains_key(g) ==> (entries_map(self.cycles@)[g]@.contains(op) <==> cycle_op(
                self.removals_of(g),
                self.delegations_of(g),
                self.deps(),
                op,
            ))
    }
}

/// Forget the entry of `id`, if there is one.
fn forget<ID: IdentityHandle, V>(entries: &mut Vec<(ID, V)>, id: ID)
    requires
        keys_distinct(old(entries)@),
    ensures
        keys_distinct(final(entries)@),
        entries_map(final(entries)@) == entries_map(old(entries)@).remove(id),
{
    let ghost s = entries@;
    match find_entry(entries, id) {
        Some(i) => {
            proof {
                lemma_entries_map_remove(s, i as int);
                lemma_entries_map_index(s, i as int);
            }
            entries.remove(i);
        },
        None => {
            proof {
                assert(entries_map(s).remove(id) =~= entries_map(s));
            }
        },
    }
}

/// Record a change for group `g`.
fn record<ID: IdentityHandle>(entries: &mut Vec<(ID, Vec<Change<ID>>)>, g: ID, c: Change<ID>)
    requires
        keys_distinct(old(entries)@),
    ensures
        keys_distinct(final(entries)@),
        changes_of(final(entries)@, g) == changes_of(old(entries)@, g).push(c),
        forall|h: ID| h != g ==> #[trigger] changes_of(final(entries)@, h) == changes_of(old(entries)@, h),
{
    let ghost s = entries@;
    match find_entry(entries, g) {
        Some(i) => {
            proof {
                lemma_entries_map_index(s, i as int);
            }
            let mut list = replace_value(entries, i, Vec::new());
            list.push(c);
            let ghost mid = entries@;
            replace_value(entries, i, list);
        },
        None => {
            let mut list: Vec<Change<ID>> = Vec::new();
            list.push(c);
            proof {
                lemma_entries_map_push(s, g, list);
                assert(list@ =~= Seq::<Change<ID>>::empty().push(c));
            }
            entries.push((g, list));
        },
    }
}


/// Removals and delegations of group `g` as recorded in `entries`, as an owned list.
fn changes_for<ID: IdentityHandle>(entries: &Vec<(ID, Vec<Change<ID>>)>, g: ID) -> (r: Vec<Change<ID>>)
    requires
        keys_distinct(entries@),
    ensures
        r@ == changes_of(entries@, g),
{
    match find_entry(entries, g) {
        Some(i) => {
            proof {
                lemma_entries_map_index(entries@, i as int);
            }
            let list = &entries[i].1;
            let mut out: Vec<Change<ID>> = Vec::new();
            let mut k: usize = 0;
            while k < list.len()
                invariant
                    k <= list@.len(),
                    out@ == list@.take(k as int),
                decreases list@.len() - k,
            {
                out.push(list[k]);
                k = k + 1;
                assert(out@ =~= list@.take(k as int));
            }
            assert(list@.take(list@.len() as int) =~= list@);
            out
        },
        None => Vec::new(),
    }
}

impl<ID: IdentityHandle> AuthorityGraphs<ID> {
    /// Authority graphs over the given operation dependency graph, without any changes yet.
    pub fn new(deps_graph: DiGraphMap<u32, ()>) -> (r: Self)
        ensures
            r.wf(),
            r.deps() == graph_edges(deps_graph),
            forall|g: ID| #[trigger] r.removals_of(g) == Seq::<Change<ID>>::empty(),
            forall|g: ID| #[trigger] r.delegations_of(g) == Seq::<Change<ID>>::empty(),
    {
        let r = AuthorityGraphs {
            deps_graph,
            removals: Vec::new(),
            delegations: Vec::new(),
            graphs: Vec::new(),
            cycles: Vec::new(),
        };
        proof {
            assert forall|g: ID| !#[trigger] entries_map(r.graphs@).contains_key(g) by {}
            assert forall|g: ID| !#[trigger] entries_map(r.cycles@).contains_key(g) by {}
        }
        r
    }

    /// Forget the derived graph and cycles of group `g`.
    fn forget_derived(&mut self, g: ID)
        requires
            keys_distinct(old(self).graphs@),
            keys_distinct(old(self).cycles@),
        ensures
            keys_distinct(final(self).graphs@),
            keys_distinct(final(self).cycles@),
            entries_map(final(self).graphs@) == entries_map(old(self).graphs@).remove(g),
            entries_map(final(self).cycles@) == entries_map(old(self).cycles@).remove(g),
            final(self).removals == old(self).removals,
            final(self).delegations == old(self).delegations,
            final(self).deps_graph == old(self).deps_graph,
    {
        forget(&mut self.graphs, g);
        forget(&mut self.cycles, g);
    }

    /// Register a new removal; an actor removing itself is not registered.
    pub fn add_removal(&mut self, group_id: ID, remover: ID, removed: ID, op: u32)
        requires
            old(self).wf(),
        ensures
            final(self).wf(),
            final(self).deps() == old(self).deps(),
            forall|g: ID| #[trigger] final(self).delegations_of(g) == old(self).delegations_of(g),
            forall|g: ID|
                #[trigger] final(self).removals_of(g) == if g == group_id && remover != removed {
                    old(self).removals_of(g).push((remover, removed, op))
                } else {
                    old(self).removals_of(g)
                },
    {
        if remover.is_same(&removed) {
            return;
        }
        record(&mut self.removals, group_id, (remover, removed, op));
        self.forget_derived(group_id);
    }

    /// Register a new delegation.
    pub fn add_delegation(&mut self, group_id: ID, delegator: ID, delegate: ID, op: u32)
        requires
            old(self).wf(),
        ensures
            final(self).wf(),
            final(self).deps() == old(self).deps(),
            forall|g: ID| #[trigger] final(self).removals_of(g) == old(self).removals_of(g),
            forall|g: ID|
                #[trigger] final(self).delegations_of(g) == if g == group_id {
                    old(self).delegations_of(g).push((delegator, delegate, op))
                } else {
                    old(self).delegations_of(g)
                },
    {
        record(&mut self.delegations, group_id, (delegator, delegate, op));
        self.forget_derived(group_id);
    }

    /// Build the authority graph of group `g` and find the operations in its cycles.
    ///
    /// A group without removals and delegations gets no graph, and no operation is in a cycle.
    pub fn build_graph(&mut self, group_id: &ID)
        requires
            old(self).wf(),
        ensures
            final(self).wf(),
            final(self).deps() == old(self).deps(),
            forall|g: ID| #[trigger] final(self).removals_of(g) == old(self).removals_of(g),
            forall|g: ID| #[trigger] final(self).delegations_of(g) == old(self).delegations_of(g),
            final(self).has_cycles(*group_id),
            (old(self).removals_of(*group_id).len() > 0 || old(self).delegations_of(*group_id).len() > 0)
                ==> final(self).has_graph(*group_id),
    {
        let g = *group_id;
        let removals = changes_for(&self.removals, g);
        let delegations = changes_for(&self.delegations, g);
        self.forget_derived(g);
        let ghost mid = *self;
        let mut ops: Vec<u32> = Vec::new();
        if removals.len() > 0 || delegations.len() > 0 {
            let graph = build_authority_graph(&removals, &delegations, &self.deps_graph);
            ops = cycle_ops(&graph);
            let node_count = graph.nodes.len();
            proof {
                assert(!entries_map(self.graphs@).contains_key(g));
                assert forall|op: u32| #[trigger] ops@.contains(op) == cycle_op(removals@, delegations@, graph_edges(self.deps_graph), op) by {
                    lemma_cycle_ops(graph.nodes@, graph.edges@, removals@, delegations@, graph_edges(self.deps_graph), op);
                }
                lemma_entries_map_push(self.graphs@, g, graph);
            }
            self.graphs.push((g, graph));
        } else {
            proof {
                assert forall|op: u32| #[trigger] ops@.contains(op) == cycle_op(removals@, delegations@, graph_edges(self.deps_graph), op) by {
                    if cycle_op(removals@, delegations@, graph_edges(self.deps_graph), op) {
                        let (id, m) = choose|id: ID, m: AuthorityNode<ID>|
                            #![trigger authority_node(removals@, delegations@, (id, op)), authority_node(removals@, delegations@, m)]
                            authority_node(removals@, delegations@, (id, op)) && authority_node(removals@, delegations@, m) && m != (id, op);
                    }
                }
            }
        }
        proof {
            assert(!entries_map(self.cycles@).contains_key(g));
            lemma_entries_map_push(self.cycles@, g, ops);
        }
        self.cycles.push((g, ops));
        proof {
            assert forall|h: ID| #[trigger] entries_map(self.graphs@).contains_key(h) implies entries_map(self.cycles@).contains_key(h)
                && graph_of(
                entries_map(self.graphs@)[h].nodes@,
                entries_map(self.graphs@)[h].edges@,
                self.removals_of(h),
                self.delegations_of(h),
                self.deps(),
            ) by {
                if h != g {
                    assert(entries_map(mid.graphs@).contains_key(h));
                }
            }
            assert forall|h: ID, op: u32|
                #![trigger entries_map(self.cycles@)[h]@.contains(op)]
                entries_map(self.cycles@).contains_key(h) implies (entries_map(self.cycles@)[h]@.contains(op) <==> cycle_op(
                    self.removals_of(h),
                    self.delegations_of(h),
                    self.deps(),
                    op,
                )) by {
                if h != g {
                    assert(entries_map(mid.cycles@).contains_key(h));
                    assert(entries_map(mid.cycles@)[h] == entries_map(self.cycles@)[h]);
                }
            }
        }
    }

    /// Returns `true` if the target operation is part of a mutual remove cycle.
    pub fn is_cycle(&mut self, group_id: &ID, target_op: &u32) -> (r: bool)
        requires
            old(self).wf(),
        ensures
            final(self).wf(),
            final(self).deps() == old(self).deps(),
            forall|g: ID| #[trigger] final(self).removals_of(g) == old(self).removals_of(g),
            forall|g: ID| #[trigger] final(self).delegations_of(g) == old(self).delegations_of(g),
            r == cycle_op(old(self).removals_of(*group_id), old(self).delegations_of(*group_id), old(self).deps(), *target_op),
    {
        let built = match find_entry(&self.graphs, *group_id) {
            Some(_) => true,
            None => false,
        };
        proof {
            if built {
                assert(has_key(self.graphs@, *group_id));
                assert(entries_map(self.graphs@).contains_key(*group_id));
            }
        }
        if !built {
            self.build_graph(group_id);
        }
        proof {
            assert(entries_map(self.cycles@).contains_key(*group_id));
        }
        match find_entry(&self.cycles, *group_id) {
            Some(i) => {
                proof {
                    lemma_entries_map_index(self.cycles@, i as int);
                }
                contains_node(&self.cycles[i].1, *target_op)
            },
            None => {
                proof {
                    assert(false);
                }
                false
            },
        }
    }

    /// The authority graph of group `g`, if it was built and is still current.
    pub fn authority_graph(&self, group_id: &ID) -> (r: Option<&AuthorityGraph<ID>>)
        requires
            self.wf(),
        ensures
            match r {
                Some(graph) => {
                    &&& self.has_graph(*group_id)
                    &&& forall|from: AuthorityNode<ID>, to: AuthorityNode<ID>|
                        #[trigger] has_edge(graph.node_list(), graph.edge_list(), from, to) <==> authority_edge(
                            self.removals_of(*group_id),
                            self.delegations_of(*group_id),
                            self.deps(),
                            from,
                            to,
                        )
                },
                None => !self.has_graph(*group_id),
            },
    {
        match find_entry(&self.graphs, *group_id) {
            Some(i) => {
                proof {
                    lemma_entries_map_index(self.graphs@, i as int);
                }
                Some(&self.graphs[i].1)
            },
            None => None,
        }
    }
}

impl<ID> AuthorityGraphs<ID> {
    /// The authority graph of group `g` was built and is still current.
    pub closed spec fn has_graph(self, g: ID) -> bool {
        entries_map(self.graphs@).contains_key(g)
    }

    /// The operations in cycles of group `g` were found and are still current.
    pub closed spec fn has_cycles(self, g: ID) -> bool {
        entries_map(self.cycles@).contains_key(g)
    }
}

} // verus!
