//! Graph functions for identifying related sets of concurrent operations.
//!
//! Operations form a directed graph in which an edge points from an operation to one that
//! depends on it. Two operations are concurrent when neither can be reached from the other.
use petgraph::graphmap::{DiGraphMap, GraphMap};
use petgraph::visit::{Dfs, NodeIndexable, Reversed, Topo};
use petgraph::{Directed, Direction};
use std::hash::BuildHasher;

use vstd::prelude::*;

verus! {

#[verifier::external_type_specification]
#[verifier::external_body]
#[verifier::reject_recursive_types(N)]
#[verifier::reject_recursive_types(E)]
#[verifier::reject_recursive_types(Ty)]
#[verifier::reject_recursive_types(S)]
pub struct ExGraphMap<N, E, Ty, S: BuildHasher>(GraphMap<N, E, Ty, S>);

#[verifier::external_type_specification]
#[verifier::external_body]
pub struct ExDirected(Directed);

/// Nodes of an operation graph, in the order in which they were added.
pub uninterp spec fn graph_nodes(graph: DiGraphMap<u32, ()>) -> Seq<u32>;

/// Directed edges of an operation graph.
pub uninterp spec fn graph_edges(graph: DiGraphMap<u32, ()>) -> Set<(u32, u32)>;

/// `p` is a path along `edges`: it has at least one node and each node has an edge to the next.
pub open spec fn is_path<N>(edges: Set<(N, N)>, p: Seq<N>) -> bool {
    &&& p.len() >= 1
    &&& forall|i: int, j: int|
        #![trigger p[i], p[j]]
        0 <= i && j == i + 1 && j < p.len() ==> edges.contains((p[i], p[j]))
}

/// A path along `edges` leads from `a` to `b` (every node reaches itself).
pub open spec fn reaches<N>(edges: Set<(N, N)>, a: N, b: N) -> bool {
    exists|p: Seq<N>| #[trigger] is_path(edges, p) && p[0] == a && p[p.len() - 1] == b
}

/// Neither of `a` and `b` can be reached from the other.
pub open spec fn concurrent(edges: Set<(u32, u32)>, a: u32, b: u32) -> bool {
    !reaches(edges, a, b) && !reaches(edges, b, a)
}

/// All nodes of the graph (`GraphMap::nodes`), in the order in which they were added, each once.
#[verifier::external_body]
pub(crate) fn node_list(graph: &DiGraphMap<u32, ()>) -> (r: Vec<u32>)
    ensures
        r@ == graph_nodes(*graph),
        r@.no_duplicates(),
{
    graph.nodes().collect()
}

/// The nodes visited by a depth-first search from `start` (`petgraph::visit::Dfs`): `start` and
/// every node reachable from it, each once.
#[verifier::external_body]
fn reachable_from(graph: &DiGraphMap<u32, ()>, start: u32) -> (r: Vec<u32>)
    ensures
        r@.no_duplicates(),
        forall|n: u32| #[trigger] r@.contains(n) <==> reaches(graph_edges(*graph), start, n),
{
    let mut visited = Vec::new();
    let mut dfs = Dfs::new(graph, start);
    while let Some(node) = dfs.next(graph) {
        visited.push(node);
    }
    visited
}

/// The nodes visited by a depth-first search from `target` along reversed edges
/// (`petgraph::visit::Dfs` on `petgraph::visit::Reversed`): `target` and every node from which it
/// can be reached, each once.
#[verifier::external_body]
pub(crate) fn reaching(graph: &DiGraphMap<u32, ()>, target: u32) -> (r: Vec<u32>)
    ensures
        r@.no_duplicates(),
        forall|n: u32| #[trigger] r@.contains(n) <==> reaches(graph_edges(*graph), n, target),
{
    let reversed = Reversed(graph);
    let mut visited = Vec::new();
    let mut dfs = Dfs::new(&reversed, target);
    while let Some(node) = dfs.next(&reversed) {
        visited.push(node);
    }
    visited
}

/// `graph` has no cycle: no edge leads back to a node from which its start can be reached.
pub open spec fn acyclic(edges: Set<(u32, u32)>) -> bool {
    forall|a: u32, b: u32| #[trigger] edges.contains((a, b)) ==> !reaches(edges, b, a)
}

/// A path along some of the edges is a path along all of them.
proof fn lemma_reaches_subset(sub: Set<(u32, u32)>, edges: Set<(u32, u32)>, a: u32, b: u32)
    requires
        sub.subset_of(edges),
        reaches(sub, a, b),
    ensures
        reaches(edges, a, b),
{
    let p = choose|p: Seq<u32>| #[trigger] is_path(sub, p) && p[0] == a && p[p.len() - 1] == b;
    assert(is_path(edges, p));
}

/// Removing edges keeps a graph without cycles.
pub proof fn lemma_acyclic_subgraph(sub: Set<(u32, u32)>, edges: Set<(u32, u32)>)
    requires
        sub.subset_of(edges),
        acyclic(edges),
    ensures
        acyclic(sub),
{
    assert forall|a: u32, b: u32| #[trigger] sub.contains((a, b)) implies !reaches(sub, b, a) by {
        if reaches(sub, b, a) {
            lemma_reaches_subset(sub, edges, b, a);
        }
    }
}

/// `n` is a node of the graph without outgoing edges: a tip of the operation graph.
pub open spec fn is_sink(graph: DiGraphMap<u32, ()>, n: u32) -> bool {
    &&& graph_nodes(graph).contains(n)
    &&& forall|m: u32| !(#[trigger] graph_edges(graph).contains((n, m)))
}

/// The node sequence `s` with `n` appended unless it is already there.
pub open spec fn with_node(s: Seq<u32>, n: u32) -> Seq<u32> {
    if s.contains(n) {
        s
    } else {
        s.push(n)
    }
}

/// A new graph without nodes or edges (`GraphMap::new`).
#[verifier::external_body]
pub(crate) fn empty_graph() -> (r: DiGraphMap<u32, ()>)
    ensures
        graph_nodes(r) == Seq::<u32>::empty(),
        graph_edges(r) == Set::<(u32, u32)>::empty(),
{
    DiGraphMap::new()
}

/// A copy of the graph with the same nodes, in the same order, and the same edges
/// (`GraphMap::clone`).
#[verifier::external_body]
pub(crate) fn copy_graph(graph: &DiGraphMap<u32, ()>) -> (r: DiGraphMap<u32, ()>)
    ensures
        graph_nodes(r) == graph_nodes(*graph),
        graph_edges(r) == graph_edges(*graph),
{
    graph.clone()
}

/// Add node `n` to the graph unless it is already there (`GraphMap::add_node`).
#[verifier::external_body]
pub(crate) fn insert_node(graph: &mut DiGraphMap<u32, ()>, n: u32)
    ensures
        graph_nodes(*final(graph)) == with_node(graph_nodes(*old(graph)), n),
        graph_edges(*final(graph)) == graph_edges(*old(graph)),
{
    graph.add_node(n);
}

/// Add an edge from `a` to `b`, adding `a` and then `b` as nodes where they are not there yet
/// (`GraphMap::add_edge`).
#[verifier::external_body]
pub(crate) fn insert_edge(graph: &mut DiGraphMap<u32, ()>, a: u32, b: u32)
    ensures
        graph_nodes(*final(graph)) == with_node(with_node(graph_nodes(*old(graph)), a), b),
        graph_edges(*final(graph)) == graph_edges(*old(graph)).insert((a, b)),
{
    graph.add_edge(a, b, ());
}

/// Remove node `n` and every edge from or to it (`GraphMap::remove_node`); the other nodes stay.
#[verifier::external_body]
pub(crate) fn delete_node(graph: &mut DiGraphMap<u32, ()>, n: u32)
    ensures
        graph_nodes(*final(graph)).to_set() == graph_nodes(*old(graph)).to_set().remove(n),
        graph_nodes(*final(graph)).no_duplicates(),
        graph_edges(*final(graph)) == graph_edges(*old(graph)).filter(|e: (u32, u32)| e.0 != n && e.1 != n),
{
    graph.remove_node(n);
}

/// The nodes without outgoing edges, in node order.
pub open spec fn sink_nodes(graph: DiGraphMap<u32, ()>) -> Seq<u32> {
    graph_nodes(graph).filter(|n: u32| is_sink(graph, n))
}

/// The nodes without outgoing edges, in node order, each once (`Graph::externals` with
/// `Direction::Outgoing` on the graph converted by `GraphMap::into_graph`, which keeps the node
/// order, mapped back with `NodeIndexable::from_index`).
#[verifier::external_body]
pub(crate) fn sinks(graph: &DiGraphMap<u32, ()>) -> (r: Vec<u32>)
    ensures
        r@ == sink_nodes(*graph),
        r@.no_duplicates(),
        forall|n: u32| #[trigger] r@.contains(n) <==> is_sink(*graph, n),
{
    let indexed = graph.clone().into_graph::<usize>();
    let mut out = Vec::new();
    for index in indexed.externals(Direction::Outgoing) {
        out.push(graph.from_index(index.index()));
    }
    out
}

/// The nodes in a topological order (`petgraph::visit::Topo`): each once, every node after all
/// nodes with an edge to it; nodes on or behind a cycle are left out, so on a graph without
/// cycles every node is listed.
#[verifier::external_body]
pub(crate) fn topological_order(graph: &DiGraphMap<u32, ()>) -> (r: Vec<u32>)
    ensures
        r@.no_duplicates(),
        forall|n: u32| #[trigger] r@.contains(n) ==> graph_nodes(*graph).contains(n),
        forall|a: u32, b: u32|
            #![trigger graph_edges(*graph).contains((a, b)), r@.contains(b)]
            graph_edges(*graph).contains((a, b)) && r@.contains(b) ==> r@.contains(a) && r@.index_of(a)
                < r@.index_of(b),
        acyclic(graph_edges(*graph)) ==> forall|n: u32|
            #[trigger] graph_nodes(*graph).contains(n) ==> r@.contains(n),
{
    let mut topo = Topo::new(graph);
    let mut out = Vec::new();
    while let Some(n) = topo.next(graph) {
        out.push(n);
    }
    out
}

/// Returns `true` if `x` occurs in `v`.
pub(crate) fn contains_node(v: &Vec<u32>, x: u32) -> (r: bool)
    ensures
        r == v@.contains(x),
{
    let mut i: usize = 0;
    while i < v.len()
        invariant
            i <= v@.len(),
            forall|j: int| 0 <= j < i ==> v@[j] != x,
        decreases v@.len() - i,
    {
        if v[i] == x {
            return true;
        }
        i = i + 1;
    }
    false
}

/// Some node of `targets` can be reached from `n`.
pub open spec fn reaches_any(edges: Set<(u32, u32)>, n: u32, targets: Seq<u32>) -> bool {
    exists|j: int| 0 <= j < targets.len() && reaches(edges, n, #[trigger] targets[j])
}

/// `n` is a node of the graph from which none of `targets` can be reached.
pub open spec fn cut_off(graph: DiGraphMap<u32, ()>, n: u32, targets: Seq<u32>) -> bool {
    graph_nodes(graph).contains(n) && !reaches_any(graph_edges(graph), n, targets)
}

/// The nodes from which some node of `targets` can be reached, each once (targets themselves
/// included).
fn predecessors_of(graph: &DiGraphMap<u32, ()>, targets: &[u32]) -> (r: Vec<u32>)
    ensures
        forall|n: u32| #[trigger] r@.contains(n) <==> reaches_any(graph_edges(*graph), n, targets@),
{
    let ghost edges = graph_edges(*graph);
    let mut out: Vec<u32> = Vec::new();
    let mut i: usize = 0;
    while i < targets.len()
        invariant
            i <= targets@.len(),
            edges == graph_edges(*graph),
            forall|n: u32| #[trigger] out@.contains(n) <==> reaches_any(edges, n, targets@.take(i as int)),
        decreases targets@.len() - i,
    {
        let found = reaching(graph, targets[i]);
        let ghost before = out@;
        let mut k: usize = 0;
        while k < found.len()
            invariant
                k <= found@.len(),
                out@ == before + found@.take(k as int),
            decreases found@.len() - k,
        {
            out.push(found[k]);
            proof {
                assert(found@.take(k + 1) =~= found@.take(k as int).push(found@[k as int]));
            }
            k = k + 1;
        }
        proof {
            assert(found@.take(found@.len() as int) =~= found@);
            assert forall|n: u32| #[trigger] out@.contains(n) <==> reaches_any(edges, n, targets@.take(i + 1)) by {
                let t = targets@.take(i + 1);
                assert(t[i as int] == targets@[i as int]);
                if out@.contains(n) {
                    let idx = choose|idx: int| 0 <= idx < out@.len() && out@[idx] == n;
                    if idx < before.len() {
                        assert(before.contains(n));
                        let j = choose|j: int| 0 <= j < i && reaches(edges, n, #[trigger] targets@.take(i as int)[j]);
                        assert(t[j] == targets@.take(i as int)[j]);
                    } else {
                        assert(found@.contains(n));
                    }
                }
                if reaches_any(edges, n, t) {
                    let j = choose|j: int| 0 <= j < t.len() && reaches(edges, n, #[trigger] t[j]);
                    if j < i {
                        assert(targets@.take(i as int)[j] == t[j]);
                        assert(before.contains(n));
                        let idx = choose|idx: int| 0 <= idx < before.len() && before[idx] == n;
                        assert(out@[idx] == n);
                    } else {
                        assert(found@.contains(n));
                        let idx = choose|idx: int| 0 <= idx < found@.len() && found@[idx] == n;
                        assert(out@[before.len() + idx] == n);
                    }
                }
            }
        }
        i = i + 1;
    }
    proof {
        assert(targets@.take(targets@.len() as int) =~= targets@);
    }
    out
}

/// The graph restricted to the nodes of `keep`: every other node is removed, with its edges.
pub fn restrict_graph(graph: &DiGraphMap<u32, ()>, keep: &Vec<u32>) -> (r: DiGraphMap<u32, ()>)
    ensures
        graph_nodes(r).to_set() == graph_nodes(*graph).to_set().filter(|n: u32| keep@.contains(n)),
        graph_edges(r) == graph_edges(*graph).filter(
            |e: (u32, u32)|
                !(graph_nodes(*graph).contains(e.0) && !keep@.contains(e.0)) && !(graph_nodes(*graph).contains(e.1)
                    && !keep@.contains(e.1)),
        ),
{
    let ghost nodes = graph_nodes(*graph);
    let ghost edges = graph_edges(*graph);
    let all = node_list(graph);
    let mut pruned = copy_graph(graph);
    let mut k: usize = 0;
    proof {
        assert(all@.take(0) =~= Seq::<u32>::empty());
        assert(graph_nodes(pruned).to_set() =~= nodes.to_set().filter(
            |n: u32| !(all@.take(0).contains(n) && !keep@.contains(n)),
        ));
        assert(graph_edges(pruned) =~= edges.filter(
            |e: (u32, u32)|
                !(all@.take(0).contains(e.0) && !keep@.contains(e.0)) && !(all@.take(0).contains(e.1)
                    && !keep@.contains(e.1)),
        ));
    }
    while k < all.len()
        invariant
            k <= all@.len(),
            all@ == nodes,
            nodes == graph_nodes(*graph),
            edges == graph_edges(*graph),
            graph_nodes(pruned).to_set() == nodes.to_set().filter(
                |n: u32| !(all@.take(k as int).contains(n) && !keep@.contains(n)),
            ),
            graph_edges(pruned) == edges.filter(
                |e: (u32, u32)|
                    !(all@.take(k as int).contains(e.0) && !keep@.contains(e.0)) && !(all@.take(k as int).contains(e.1)
                        && !keep@.contains(e.1)),
            ),
        decreases all@.len() - k,
    {
        let n = all[k];
        if !contains_node(keep, n) {
            delete_node(&mut pruned, n);
        }
        proof {
            let prev = all@.take(k as int);
            let next = all@.take(k + 1);
            assert(next =~= prev.push(n));
            assert forall|x: u32| #[trigger] next.contains(x) <==> (prev.contains(x) || x == n) by {
                if next.contains(x) {
                    let j = choose|j: int| 0 <= j < next.len() && next[j] == x;
                    if j < prev.len() {
                        assert(prev[j] == x);
                    }
                }
                if prev.contains(x) {
                    let j = choose|j: int| 0 <= j < prev.len() && prev[j] == x;
                    assert(next[j] == x);
                }
                if x == n {
                    assert(next[k as int] == x);
                }
            }
            assert(graph_nodes(pruned).to_set() =~= nodes.to_set().filter(
                |x: u32| !(next.contains(x) && !keep@.contains(x)),
            ));
            assert(graph_edges(pruned) =~= edges.filter(
                |e: (u32, u32)|
                    !(next.contains(e.0) && !keep@.contains(e.0)) && !(next.contains(e.1) && !keep@.contains(e.1)),
            ));
        }
        k = k + 1;
    }
    proof {
        assert(all@.take(all@.len() as int) =~= all@);
        assert(graph_nodes(pruned).to_set() =~= nodes.to_set().filter(|n: u32| keep@.contains(n)));
        assert(graph_edges(pruned) =~= edges.filter(
            |e: (u32, u32)|
                !(nodes.contains(e.0) && !keep@.contains(e.0)) && !(nodes.contains(e.1) && !keep@.contains(e.1)),
        ));
    }
    pruned
}

/// The graph reduced to the given operations and their predecessors: every node from which none
/// of `targets` can be reached is removed, with its edges.
pub fn predecessor_graph(graph: &DiGraphMap<u32, ()>, targets: &[u32]) -> (r: DiGraphMap<u32, ()>)
    ensures
        graph_nodes(r).to_set() == graph_nodes(*graph).to_set().filter(|n: u32| !cut_off(*graph, n, targets@)),
        graph_edges(r) == graph_edges(*graph).filter(
            |e: (u32, u32)| !cut_off(*graph, e.0, targets@) && !cut_off(*graph, e.1, targets@),
        ),
{
    let predecessors = predecessors_of(graph, targets);
    let r = restrict_graph(graph, &predecessors);
    proof {
        assert(graph_nodes(r).to_set() =~= graph_nodes(*graph).to_set().filter(|n: u32| !cut_off(*graph, n, targets@)));
        assert(graph_edges(r) =~= graph_edges(*graph).filter(
            |e: (u32, u32)| !cut_off(*graph, e.0, targets@) && !cut_off(*graph, e.1, targets@),
        ));
    }
    r
}

/// Return `true` if a linear path exists in the graph between `from` and `to`.
///
/// This indicates whether or not the given operations occurred concurrently.
pub fn has_path(graph: &DiGraphMap<u32, ()>, from: u32, to: u32) -> (r: bool)
    ensures
        r == reaches(graph_edges(*graph), from, to),
{
    let visited = reachable_from(graph, from);
    contains_node(&visited, to)
}

/// Operations concurrent with `target`: those which are neither predecessors nor successors of
/// it, in node order.
pub(crate) fn concurrent_operations(graph: &DiGraphMap<u32, ()>, target: u32) -> (r: Vec<u32>)
    ensures
        r@ == graph_nodes(*graph).filter(|n: u32| concurrent(graph_edges(*graph), target, n)),
{
    let ghost edges = graph_edges(*graph);
    let successors = reachable_from(graph, target);
    let predecessors = reaching(graph, target);
    let nodes = node_list(graph);
    let ghost pred = |n: u32| concurrent(edges, target, n);
    let mut out: Vec<u32> = Vec::new();
    let mut i: usize = 0;
    while i < nodes.len()
        invariant
            i <= nodes@.len(),
            pred == (|n: u32| concurrent(edges, target, n)),
            out@ == nodes@.take(i as int).filter(pred),
            forall|n: u32| #[trigger] successors@.contains(n) <==> reaches(edges, target, n),
            forall|n: u32| #[trigger] predecessors@.contains(n) <==> reaches(edges, n, target),
        decreases nodes@.len() - i,
    {
        let n = nodes[i];
        let related = contains_node(&successors, n) || contains_node(&predecessors, n);
        proof {
            assert(nodes@.take(i + 1) =~= nodes@.take(i as int).push(n));
            nodes@.take(i as int).lemma_filter_push(n, pred);
        }
        if !related {
            out.push(n);
        }
        i = i + 1;
    }
    proof {
        assert(nodes@.take(nodes@.len() as int) =~= nodes@);
    }
    out
}


/// `c` is a chain of nodes of the graph in which each node is concurrent with the next.
pub open spec fn is_concurrency_chain(nodes: Seq<u32>, edges: Set<(u32, u32)>, c: Seq<u32>) -> bool {
    &&& c.len() >= 1
    &&& forall|i: int| 0 <= i < c.len() ==> nodes.contains(#[trigger] c[i])
    &&& forall|i: int, j: int|
        #![trigger c[i], c[j]]
        0 <= i && j == i + 1 && j < c.len() ==> concurrent(edges, c[i], c[j])
}

/// A chain of concurrent operations of the graph leads from `a` to `b`.
pub open spec fn linked(nodes: Seq<u32>, edges: Set<(u32, u32)>, a: u32, b: u32) -> bool {
    exists|c: Seq<u32>| #[trigger] is_concurrency_chain(nodes, edges, c) && c[0] == a && c[c.len() - 1] == b
}

/// Every node of `nodes` concurrent with a member of `set` is itself a member.
pub open spec fn closed_under_concurrency(edges: Set<(u32, u32)>, nodes: Seq<u32>, set: Seq<u32>) -> bool {
    forall|x: u32, y: u32|
        #![trigger set.contains(x), nodes.contains(y)]
        set.contains(x) && nodes.contains(y) && concurrent(edges, x, y) ==> set.contains(y)
}

/// `bubble` is a set of concurrent operations of the graph: at least two distinct nodes, each
/// linked by concurrency to the first, and every node concurrent with one of them belongs to it.
pub open spec fn is_bubble(nodes: Seq<u32>, edges: Set<(u32, u32)>, bubble: Seq<u32>) -> bool {
    &&& bubble.len() > 1
    &&& bubble.no_duplicates()
    &&& forall|x: u32| #[trigger] bubble.contains(x) ==> nodes.contains(x) && linked(nodes, edges, bubble[0], x)
    &&& closed_under_concurrency(edges, nodes, bubble)
}

/// `bubbles` are all sets of concurrent operations of the graph: each is a bubble, no two share
/// an operation, and every operation concurrent with another one lies in a bubble.
pub open spec fn all_bubbles(nodes: Seq<u32>, edges: Set<(u32, u32)>, bubbles: Seq<Seq<u32>>) -> bool {
    &&& forall|i: int| 0 <= i < bubbles.len() ==> is_bubble(nodes, edges, #[trigger] bubbles[i])
    &&& forall|i: int, j: int, x: u32|
        #![trigger bubbles[i].contains(x), bubbles[j].contains(x)]
        0 <= i < bubbles.len() && 0 <= j < bubbles.len() && bubbles[i].contains(x)
            && bubbles[j].contains(x) ==> i == j
    &&& forall|x: u32, y: u32|
        #![trigger nodes.contains(x), nodes.contains(y)]
        nodes.contains(x) && nodes.contains(y) && concurrent(edges, x, y) ==> exists|i: int|
            0 <= i < bubbles.len() && #[trigger] bubbles[i].contains(x)
}

proof fn lemma_linked_extend(nodes: Seq<u32>, edges: Set<(u32, u32)>, a: u32, x: u32, y: u32)
    requires
        linked(nodes, edges, a, x),
        concurrent(edges, x, y),
        nodes.contains(y),
    ensures
        linked(nodes, edges, a, y),
{
    let c = choose|c: Seq<u32>| #[trigger] is_concurrency_chain(nodes, edges, c) && c[0] == a && c[c.len() - 1] == x;
    let d = c.push(y);
    assert forall|i: int| 0 <= i < d.len() implies nodes.contains(#[trigger] d[i]) by {
        if i < c.len() {
            assert(d[i] == c[i]);
        }
    }
    assert forall|i: int, j: int| 0 <= i && j == i + 1 && j < d.len() implies concurrent(edges, #[trigger] d[i], #[trigger] d[j]) by {
        if j < c.len() {
            assert(d[i] == c[i] && d[j] == c[j]);
        }
    }
    assert(is_concurrency_chain(nodes, edges, d));
}

proof fn lemma_linked_refl(nodes: Seq<u32>, edges: Set<(u32, u32)>, a: u32)
    requires
        nodes.contains(a),
    ensures
        linked(nodes, edges, a, a),
{
    let c = seq![a];
    assert(c[0] == a);
    assert(is_concurrency_chain(nodes, edges, c));
}

/// A list of distinct members of `t` is no longer than `t`.
proof fn lemma_distinct_within(s: Seq<u32>, t: Seq<u32>)
    requires
        s.no_duplicates(),
        t.no_duplicates(),
        forall|x: u32| s.contains(x) ==> t.contains(x),
    ensures
        s.len() <= t.len(),
{
    s.unique_seq_to_set();
    t.unique_seq_to_set();
    assert(s.to_set().subset_of(t.to_set()));
    vstd::set_lib::lemma_len_subset(s.to_set(), t.to_set());
}

/// Paths compose: if `a` reaches `b` and `b` reaches `c`, then `a` reaches `c`.
pub proof fn lemma_reaches_trans<N>(edges: Set<(N, N)>, a: N, b: N, c: N)
    requires
        reaches(edges, a, b),
        reaches(edges, b, c),
    ensures
        reaches(edges, a, c),
{
    let p = choose|p: Seq<N>| #[trigger] is_path(edges, p) && p[0] == a && p[p.len() - 1] == b;
    let q = choose|q: Seq<N>| #[trigger] is_path(edges, q) && q[0] == b && q[q.len() - 1] == c;
    let r = p + q.skip(1);
    assert forall|i: int, j: int| 0 <= i && j == i + 1 && j < r.len() implies edges.contains(
        (#[trigger] r[i], #[trigger] r[j]),
    ) by {
        if j < p.len() {
            assert(r[i] == p[i] && r[j] == p[j]);
        } else if i == p.len() - 1 {
            assert(r[i] == q[0]);
            assert(r[j] == q[1]);
        } else {
            assert(r[i] == q[i - p.len() + 1]);
            assert(r[j] == q[j - p.len() + 1]);
        }
    }
    assert(is_path(edges, r));
    assert(r[0] == a);
    if q.len() == 1 {
        assert(r[r.len() - 1] == p[p.len() - 1]);
    } else {
        assert(r[r.len() - 1] == q[q.len() - 1]);
    }
}

/// An edge is a path.
pub proof fn lemma_edge_reaches<N>(edges: Set<(N, N)>, a: N, b: N)
    requires
        edges.contains((a, b)),
    ensures
        reaches(edges, a, b),
{
    let p = seq![a, b];
    assert(p[0] == a && p[1] == b);
    assert(is_path(edges, p));
}

/// In `order` every node comes after the nodes with an edge to it.
pub open spec fn respects_edges(edges: Set<(u32, u32)>, order: Seq<u32>) -> bool {
    forall|a: u32, b: u32|
        #![trigger edges.contains((a, b)), order.contains(b)]
        edges.contains((a, b)) && order.contains(b) ==> order.contains(a) && order.index_of(a) < order.index_of(b)
}

/// In an order which respects the edges, a node comes after every node from which it can be
/// reached.
pub proof fn lemma_order_reaches(edges: Set<(u32, u32)>, order: Seq<u32>, a: u32, b: u32)
    requires
        respects_edges(edges, order),
        reaches(edges, a, b),
        order.contains(b),
    ensures
        order.contains(a),
        order.index_of(a) <= order.index_of(b),
{
    let p = choose|p: Seq<u32>| #[trigger] is_path(edges, p) && p[0] == a && p[p.len() - 1] == b;
    lemma_path_order(edges, order, p);
}

proof fn lemma_path_order(edges: Set<(u32, u32)>, order: Seq<u32>, p: Seq<u32>)
    requires
        respects_edges(edges, order),
        is_path(edges, p),
        order.contains(p[p.len() - 1]),
    ensures
        order.contains(p[0]),
        order.index_of(p[0]) <= order.index_of(p[p.len() - 1]),
    decreases p.len(),
{
    if p.len() > 1 {
        let q = p.drop_first();
        assert forall|i: int, j: int| 0 <= i && j == i + 1 && j < q.len() implies edges.contains(
            (#[trigger] q[i], #[trigger] q[j]),
        ) by {
            assert(q[i] == p[i + 1] && q[j] == p[j + 1]);
        }
        assert(q[q.len() - 1] == p[p.len() - 1]);
        lemma_path_order(edges, order, q);
        assert(q[0] == p[1]);
        assert(edges.contains((p[0], p[1])));
    }
}

/// A chain of concurrent operations reversed is one too.
pub proof fn lemma_linked_symmetric(nodes: Seq<u32>, edges: Set<(u32, u32)>, a: u32, b: u32)
    requires
        linked(nodes, edges, a, b),
    ensures
        linked(nodes, edges, b, a),
{
    let c = choose|c: Seq<u32>| #[trigger] is_concurrency_chain(nodes, edges, c) && c[0] == a && c[c.len() - 1] == b;
    let d = c.reverse();
    assert forall|i: int| 0 <= i < d.len() implies nodes.contains(#[trigger] d[i]) by {
        assert(d[i] == c[c.len() - 1 - i]);
    }
    assert forall|i: int, j: int| 0 <= i && j == i + 1 && j < d.len() implies concurrent(
        edges,
        #[trigger] d[i],
        #[trigger] d[j],
    ) by {
        let k = c.len() - 1 - j;
        assert(d[i] == c[k + 1] && d[j] == c[k]);
        assert(concurrent(edges, c[k], c[k + 1]));
    }
    assert(is_concurrency_chain(nodes, edges, d));
    assert(d[0] == b && d[d.len() - 1] == a);
}

/// Chains of concurrent operations compose.
pub proof fn lemma_linked_trans(nodes: Seq<u32>, edges: Set<(u32, u32)>, a: u32, b: u32, c: u32)
    requires
        linked(nodes, edges, a, b),
        linked(nodes, edges, b, c),
    ensures
        linked(nodes, edges, a, c),
{
    let p = choose|p: Seq<u32>| #[trigger] is_concurrency_chain(nodes, edges, p) && p[0] == a && p[p.len() - 1] == b;
    let q = choose|q: Seq<u32>| #[trigger] is_concurrency_chain(nodes, edges, q) && q[0] == b && q[q.len() - 1] == c;
    let r = p + q.skip(1);
    assert forall|i: int| 0 <= i < r.len() implies nodes.contains(#[trigger] r[i]) by {
        if i < p.len() {
            assert(r[i] == p[i]);
        } else {
            assert(r[i] == q[i - p.len() + 1]);
        }
    }
    assert forall|i: int, j: int| 0 <= i && j == i + 1 && j < r.len() implies concurrent(
        edges,
        #[trigger] r[i],
        #[trigger] r[j],
    ) by {
        if j < p.len() {
            assert(r[i] == p[i] && r[j] == p[j]);
        } else if i == p.len() - 1 {
            assert(r[i] == q[0]);
            assert(r[j] == q[1]);
        } else {
            assert(r[i] == q[i - p.len() + 1]);
            assert(r[j] == q[j - p.len() + 1]);
        }
    }
    assert(is_concurrency_chain(nodes, edges, r));
    assert(r[0] == a);
    if q.len() == 1 {
        assert(r[r.len() - 1] == p[p.len() - 1]);
    } else {
        assert(r[r.len() - 1] == q[q.len() - 1]);
    }
}

/// A chain of concurrent operations which starts in a set closed under concurrency stays in it.
proof fn lemma_chain_within(nodes: Seq<u32>, edges: Set<(u32, u32)>, set: Seq<u32>, c: Seq<u32>)
    requires
        is_concurrency_chain(nodes, edges, c),
        set.contains(c[0]),
        closed_under_concurrency(edges, nodes, set),
    ensures
        forall|k: int| 0 <= k < c.len() ==> set.contains(#[trigger] c[k]),
    decreases c.len(),
{
    if c.len() > 1 {
        let d = c.drop_last();
        assert forall|i: int| 0 <= i < d.len() implies nodes.contains(#[trigger] d[i]) by {
            assert(d[i] == c[i]);
        }
        assert forall|i: int, j: int| 0 <= i && j == i + 1 && j < d.len() implies concurrent(
            edges,
            #[trigger] d[i],
            #[trigger] d[j],
        ) by {
            assert(d[i] == c[i] && d[j] == c[j]);
        }
        assert(d[0] == c[0]);
        lemma_chain_within(nodes, edges, set, d);
        let n = c.len() - 1;
        assert(d[n - 1] == c[n - 1]);
        assert(set.contains(c[n - 1]));
        assert(nodes.contains(c[n]));
        assert(concurrent(edges, c[n - 1], c[n]));
        assert forall|k: int| 0 <= k < c.len() implies set.contains(#[trigger] c[k]) by {
            if k < n {
                assert(d[k] == c[k]);
            }
        }
    }
}

/// The operations of a bubble are exactly those linked to any one of them by chains of
/// concurrent operations.
pub proof fn lemma_bubble_component(nodes: Seq<u32>, edges: Set<(u32, u32)>, bubble: Seq<u32>, x: u32, m: u32)
    requires
        is_bubble(nodes, edges, bubble),
        bubble.contains(x),
    ensures
        bubble.contains(m) <==> linked(nodes, edges, x, m),
{
    let b0 = bubble[0];
    assert(bubble.contains(b0));
    if bubble.contains(m) {
        assert(linked(nodes, edges, b0, x));
        assert(linked(nodes, edges, b0, m));
        lemma_linked_symmetric(nodes, edges, b0, x);
        lemma_linked_trans(nodes, edges, x, b0, m);
    }
    if linked(nodes, edges, x, m) {
        let c = choose|c: Seq<u32>| #[trigger] is_concurrency_chain(nodes, edges, c) && c[0] == x && c[c.len() - 1] == m;
        lemma_chain_within(nodes, edges, bubble, c);
        assert(bubble.contains(c[c.len() - 1]));
    }
}

/// An operation in no bubble is linked to itself only.
pub proof fn lemma_lone_component(
    nodes: Seq<u32>,
    edges: Set<(u32, u32)>,
    bubbles: Seq<Seq<u32>>,
    x: u32,
    m: u32,
)
    requires
        all_bubbles(nodes, edges, bubbles),
        forall|b: int| 0 <= b < bubbles.len() ==> !(#[trigger] bubbles[b]).contains(x),
        linked(nodes, edges, x, m),
    ensures
        m == x,
{
    let c = choose|c: Seq<u32>| #[trigger] is_concurrency_chain(nodes, edges, c) && c[0] == x && c[c.len() - 1] == m;
    if c.len() > 1 {
        assert(nodes.contains(c[0]) && nodes.contains(c[1]));
        assert(concurrent(edges, c[0], c[1]));
        let i = choose|i: int| 0 <= i < bubbles.len() && #[trigger] bubbles[i].contains(c[0]);
        assert(bubbles[i].contains(x));
    }
}

/// A node outside a bubble which can be reached from one of its operations cannot lead back into
/// the bubble, in a graph without cycles.
pub proof fn lemma_bubble_not_reentered(
    nodes: Seq<u32>,
    edges: Set<(u32, u32)>,
    bubble: Seq<u32>,
    x: u32,
    y: u32,
    d: u32,
)
    requires
        acyclic(edges),
        is_bubble(nodes, edges, bubble),
        bubble.contains(x),
        bubble.contains(y),
        nodes.contains(d),
        !bubble.contains(d),
        edges.contains((d, y)),
    ensures
        !reaches(edges, x, d),
{
    if reaches(edges, x, d) {
        lemma_bubble_reentry(nodes, edges, bubble, x, y, d);
        assert(!reaches(edges, y, d));
    }
}

proof fn lemma_bubble_reentry(
    nodes: Seq<u32>,
    edges: Set<(u32, u32)>,
    bubble: Seq<u32>,
    x: u32,
    y: u32,
    d: u32,
)
    requires
        is_bubble(nodes, edges, bubble),
        bubble.contains(x),
        bubble.contains(y),
        nodes.contains(d),
        !bubble.contains(d),
        reaches(edges, x, d),
    ensures
        reaches(edges, y, d),
{
    lemma_bubble_component(nodes, edges, bubble, x, y);
    let c = choose|c: Seq<u32>| #[trigger] is_concurrency_chain(nodes, edges, c) && c[0] == x && c[c.len() - 1] == y;
    lemma_chain_within(nodes, edges, bubble, c);
    lemma_chain_reaches(nodes, edges, bubble, c, d);
    assert(reaches(edges, c[c.len() - 1], d));
}

proof fn lemma_chain_reaches(nodes: Seq<u32>, edges: Set<(u32, u32)>, bubble: Seq<u32>, c: Seq<u32>, d: u32)
    requires
        is_concurrency_chain(nodes, edges, c),
        forall|k: int| 0 <= k < c.len() ==> bubble.contains(#[trigger] c[k]),
        closed_under_concurrency(edges, nodes, bubble),
        nodes.contains(d),
        !bubble.contains(d),
        reaches(edges, c[0], d),
    ensures
        forall|k: int| 0 <= k < c.len() ==> reaches(edges, #[trigger] c[k], d),
    decreases c.len(),
{
    if c.len() > 1 {
        let e = c.drop_last();
        assert forall|i: int| 0 <= i < e.len() implies nodes.contains(#[trigger] e[i]) by {
            assert(e[i] == c[i]);
        }
        assert forall|i: int, j: int| 0 <= i && j == i + 1 && j < e.len() implies concurrent(
            edges,
            #[trigger] e[i],
            #[trigger] e[j],
        ) by {
            assert(e[i] == c[i] && e[j] == c[j]);
        }
        assert forall|k: int| 0 <= k < e.len() implies bubble.contains(#[trigger] e[k]) by {
            assert(e[k] == c[k]);
        }
        assert(e[0] == c[0]);
        lemma_chain_reaches(nodes, edges, bubble, e, d);
        let n = c.len() - 1;
        assert(e[n - 1] == c[n - 1]);
        assert(reaches(edges, c[n - 1], d));
        assert(bubble.contains(c[n]));
        assert(concurrent(edges, c[n - 1], c[n]));
        if !reaches(edges, c[n], d) {
            if reaches(edges, d, c[n]) {
                lemma_reaches_trans(edges, c[n - 1], d, c[n]);
            } else {
                assert(concurrent(edges, c[n], d));
                assert(bubble.contains(d));
            }
        }
        assert forall|k: int| 0 <= k < c.len() implies reaches(edges, #[trigger] c[k], d) by {
            if k < n {
                assert(e[k] == c[k]);
            }
        }
    }
}

/// Whether a chain of concurrent operations links two operations depends on which nodes the graph
/// has, not on their order.
pub proof fn lemma_linked_same_nodes(nodes1: Seq<u32>, nodes2: Seq<u32>, edges: Set<(u32, u32)>, a: u32, b: u32)
    requires
        forall|x: u32| nodes1.contains(x) == nodes2.contains(x),
    ensures
        linked(nodes1, edges, a, b) == linked(nodes2, edges, a, b),
{
    if linked(nodes1, edges, a, b) {
        let c = choose|c: Seq<u32>| #[trigger] is_concurrency_chain(nodes1, edges, c) && c[0] == a && c[c.len() - 1] == b;
        assert(is_concurrency_chain(nodes2, edges, c));
    }
    if linked(nodes2, edges, a, b) {
        let c = choose|c: Seq<u32>| #[trigger] is_concurrency_chain(nodes2, edges, c) && c[0] == a && c[c.len() - 1] == b;
        assert(is_concurrency_chain(nodes1, edges, c));
    }
}

/// The nodes of the graph from which `n` can be reached, `n` itself included.
pub open spec fn ancestors(graph: DiGraphMap<u32, ()>, n: u32) -> Set<u32> {
    graph_nodes(graph).to_set().filter(|m: u32| reaches(graph_edges(graph), m, n))
}

/// In a graph without cycles, a dependency has fewer ancestors than the node depending on it.
pub proof fn lemma_ancestors_shrink(graph: DiGraphMap<u32, ()>, d: u32, n: u32)
    requires
        acyclic(graph_edges(graph)),
        graph_edges(graph).contains((d, n)),
        graph_nodes(graph).contains(n),
    ensures
        ancestors(graph, d).len() < ancestors(graph, n).len(),
{
    let edges = graph_edges(graph);
    let all = graph_nodes(graph).to_set();
    let an = ancestors(graph, n);
    let ad = ancestors(graph, d);
    all.lemma_len_filter(|m: u32| reaches(edges, m, n));
    lemma_edge_reaches(edges, d, n);
    assert forall|m: u32| #[trigger] ad.contains(m) implies an.remove(n).contains(m) by {
        lemma_reaches_trans(edges, m, d, n);
        if m == n {
            assert(!reaches(edges, n, d));
        }
    }
    let p = seq![n];
    assert(p[0] == n);
    assert(is_path(edges, p));
    assert(all.contains(n));
    assert(an.contains(n));
    vstd::set_lib::lemma_len_subset(ad, an.remove(n));
}

/// The nodes of the graph which can be reached from `n`, `n` itself included.
pub open spec fn descendants(graph: DiGraphMap<u32, ()>, n: u32) -> Set<u32> {
    graph_nodes(graph).to_set().filter(|m: u32| reaches(graph_edges(graph), n, m))
}

/// Every edge of the graph joins two of its nodes.
pub open spec fn edges_within(graph: DiGraphMap<u32, ()>) -> bool {
    forall|e: (u32, u32)|
        #[trigger] graph_edges(graph).contains(e) ==> graph_nodes(graph).contains(e.0) && graph_nodes(graph).contains(
            e.1,
        )
}

/// In a graph without cycles, every node reaches a tip.
pub proof fn lemma_reaches_sink(graph: DiGraphMap<u32, ()>, n: u32)
    requires
        acyclic(graph_edges(graph)),
        edges_within(graph),
        graph_nodes(graph).contains(n),
    ensures
        exists|s: u32| #[trigger] is_sink(graph, s) && reaches(graph_edges(graph), n, s),
    decreases descendants(graph, n).len(),
{
    let edges = graph_edges(graph);
    let p = seq![n];
    assert(p[0] == n);
    assert(is_path(edges, p));
    if is_sink(graph, n) {
        assert(is_sink(graph, n) && reaches(edges, n, n));
    } else {
        let m = choose|m: u32| #[trigger] edges.contains((n, m));
        assert(graph_nodes(graph).contains(m));
        let all = graph_nodes(graph).to_set();
        let dn = descendants(graph, n);
        let dm = descendants(graph, m);
        all.lemma_len_filter(|k: u32| reaches(edges, n, k));
        lemma_edge_reaches(edges, n, m);
        assert forall|k: u32| #[trigger] dm.contains(k) implies dn.remove(n).contains(k) by {
            lemma_reaches_trans(edges, n, m, k);
            if k == n {
                assert(!reaches(edges, m, n));
            }
        }
        assert(all.contains(n));
        assert(dn.contains(n));
        vstd::set_lib::lemma_len_subset(dm, dn.remove(n));
        lemma_reaches_sink(graph, m);
        let s = choose|s: u32| #[trigger] is_sink(graph, s) && reaches(edges, m, s);
        lemma_reaches_trans(edges, n, m, s);
    }
}

/// Adding a fresh node `x` with edges to it from existing nodes changes no path between other
/// nodes, and creates no cycle.
pub proof fn lemma_fresh_sink(nodes: Seq<u32>, edges: Set<(u32, u32)>, added: Set<(u32, u32)>, x: u32)
    requires
        !nodes.contains(x),
        forall|e: (u32, u32)| #[trigger] edges.contains(e) ==> nodes.contains(e.0) && nodes.contains(e.1),
        forall|e: (u32, u32)| #[trigger] added.contains(e) ==> e.1 == x && nodes.contains(e.0),
    ensures
        forall|a: u32, b: u32| b != x ==> #[trigger] reaches(edges.union(added), a, b) == reaches(edges, a, b),
        acyclic(edges) ==> acyclic(edges.union(added)),
{
    let all = edges.union(added);
    assert forall|a: u32, b: u32| b != x implies #[trigger] reaches(all, a, b) == reaches(edges, a, b) by {
        if reaches(all, a, b) {
            let p = choose|p: Seq<u32>| #[trigger] is_path(all, p) && p[0] == a && p[p.len() - 1] == b;
            assert forall|i: int, j: int| 0 <= i && j == i + 1 && j < p.len() implies edges.contains(
                (#[trigger] p[i], #[trigger] p[j]),
            ) by {
                if added.contains((p[i], p[j])) {
                    assert(p[j] == x);
                    if j + 1 < p.len() {
                        assert(all.contains((p[j], p[j + 1])));
                    }
                }
            }
            assert(is_path(edges, p));
        }
        if reaches(edges, a, b) {
            assert(edges.subset_of(all));
            lemma_reaches_subset(edges, all, a, b);
        }
    }
    if acyclic(edges) {
        assert forall|a: u32, b: u32| #[trigger] all.contains((a, b)) implies !reaches(all, b, a) by {
            if edges.contains((a, b)) {
                assert(nodes.contains(a));
                assert(a != x);
                assert(reaches(all, b, a) == reaches(edges, b, a));
            } else {
                assert(added.contains((a, b)));
                assert(b == x && nodes.contains(a));
                if reaches(all, b, a) {
                    assert(reaches(edges, x, a));
                    let p = choose|p: Seq<u32>| #[trigger] is_path(edges, p) && p[0] == x && p[p.len() - 1] == a;
                    if p.len() > 1 {
                        assert(edges.contains((p[0], p[1])));
                    }
                }
            }
        }
    }
}

/// Collect the bubble of `target`: all nodes linked to it by chains of concurrent operations.
///
/// The nodes are marked as processed; `processed` holds no node concurrent with a node outside
/// it, so none of them belongs to the bubble.
fn concurrent_bubble(graph: &DiGraphMap<u32, ()>, target: u32, processed: &mut Vec<u32>) -> (r: Vec<u32>)
    requires
        old(processed)@.no_duplicates(),
        !old(processed)@.contains(target),
        graph_nodes(*graph).contains(target),
        closed_under_concurrency(graph_edges(*graph), graph_nodes(*graph), old(processed)@),
    ensures
        final(processed)@ == old(processed)@ + r@,
        final(processed)@.no_duplicates(),
        r@.len() >= 1,
        r@[0] == target,
        r@.no_duplicates(),
        forall|x: u32| #[trigger] r@.contains(x) ==> graph_nodes(*graph).contains(x) && linked(
            graph_nodes(*graph),
            graph_edges(*graph),
            target,
            x,
        ),
        closed_under_concurrency(graph_edges(*graph), graph_nodes(*graph), r@),
{
    let ghost edges = graph_edges(*graph);
    let ghost nodes = graph_nodes(*graph);
    let ghost before = processed@;
    let all_nodes = node_list(graph);
    proof {
        lemma_linked_refl(nodes, edges, target);
    }
    processed.push(target);
    let mut bubble: Vec<u32> = Vec::new();
    bubble.push(target);
    let mut stack: Vec<u32> = Vec::new();
    stack.push(target);
    proof {
        assert(processed@ =~= before + bubble@);
    }
    while stack.len() > 0
        invariant
            edges == graph_edges(*graph),
            nodes == graph_nodes(*graph),
            all_nodes@ == nodes,
            nodes.no_duplicates(),
            before.no_duplicates(),
            closed_under_concurrency(edges, nodes, before),
            processed@ == before + bubble@,
            bubble@.len() >= 1,
            bubble@[0] == target,
            bubble@.no_duplicates(),
            stack@.no_duplicates(),
            forall|x: u32| #[trigger] bubble@.contains(x) ==> !before.contains(x),
            forall|x: u32| #[trigger] stack@.contains(x) ==> bubble@.contains(x),
            forall|x: u32|
                #[trigger] bubble@.contains(x) ==> nodes.contains(x) && linked(nodes, edges, target, x),
            forall|x: u32, y: u32|
                #![trigger bubble@.contains(x), nodes.contains(y)]
                bubble@.contains(x) && !stack@.contains(x) && nodes.contains(y) && concurrent(
                    edges,
                    x,
                    y,
                ) ==> processed@.contains(y),
        decreases nodes.len() - bubble@.len(), stack@.len(),
    {
        let ghost stack_before = stack@;
        let x = stack.pop().unwrap();
        let ghost stack_rest = stack@;
        let ghost popped_len = bubble@.len();
        let ops = concurrent_operations(graph, x);
        let ghost pred = |n: u32| concurrent(edges, x, n);
        proof {
            assert(stack_before[stack_before.len() - 1] == x);
            assert(stack_before.contains(x));
            assert(bubble@.contains(x));
            assert(stack@ =~= stack_before.drop_last());
            assert(!stack@.contains(x)) by {
                if stack@.contains(x) {
                    let i = choose|i: int| 0 <= i < stack@.len() && stack@[i] == x;
                    assert(stack_before[i] == x);
                }
            }
            assert forall|z: u32| #[trigger] stack@.contains(z) implies bubble@.contains(z) by {
                let i = choose|i: int| 0 <= i < stack@.len() && stack@[i] == z;
                assert(stack_before[i] == z);
                assert(stack_before.contains(z));
            }
            assert((|n: u32| concurrent(graph_edges(*graph), x, n)) =~= pred);
            assert forall|z: u32, y: u32|
                #![trigger bubble@.contains(z), nodes.contains(y)]
                bubble@.contains(z) && z != x && !stack@.contains(z) && nodes.contains(y)
                    && concurrent(edges, z, y) implies processed@.contains(y) by {
                if stack_before.contains(z) {
                    let i = choose|i: int| 0 <= i < stack_before.len() && stack_before[i] == z;
                    if i < stack_before.len() - 1 {
                        assert(stack@[i] == z);
                    }
                }
            }
        }
        let mut k: usize = 0;
        while k < ops.len()
            invariant
                edges == graph_edges(*graph),
                nodes == graph_nodes(*graph),
                nodes.no_duplicates(),
                before.no_duplicates(),
                pred == (|n: u32| concurrent(edges, x, n)),
                ops@ == nodes.filter(pred),
                k <= ops@.len(),
                bubble@.contains(x),
                !stack@.contains(x),
                processed@ == before + bubble@,
                bubble@.len() >= 1,
                bubble@[0] == target,
                bubble@.no_duplicates(),
                stack@.no_duplicates(),
                forall|z: u32| #[trigger] bubble@.contains(z) ==> !before.contains(z),
                forall|z: u32| #[trigger] stack@.contains(z) ==> bubble@.contains(z),
                forall|z: u32|
                    #[trigger] bubble@.contains(z) ==> nodes.contains(z) && linked(nodes, edges, target, z),
                forall|z: u32, y: u32|
                    #![trigger bubble@.contains(z), nodes.contains(y)]
                    bubble@.contains(z) && z != x && !stack@.contains(z) && nodes.contains(y)
                        && concurrent(edges, z, y) ==> processed@.contains(y),
                forall|j: int| 0 <= j < k ==> processed@.contains(#[trigger] ops@[j]),
                bubble@.len() - popped_len == stack@.len() - stack_rest.len(),
                bubble@.len() >= popped_len,
            decreases ops@.len() - k,
        {
            let op = ops[k];
            proof {
                assert(ops@.contains(op));
                nodes.lemma_filter_contains_rev(pred, op);
                nodes.lemma_filter_pred(pred, k as int);
                assert(concurrent(edges, x, op));
            }
            if !contains_node(processed, op) {
                let ghost old_bubble = bubble@;
                let ghost old_stack = stack@;
                let ghost old_processed = processed@;
                processed.push(op);
                bubble.push(op);
                stack.push(op);
                proof {
                    lemma_linked_extend(nodes, edges, target, x, op);
                    assert(processed@ =~= before + bubble@);
                    assert forall|z: u32| #[trigger] bubble@.contains(z) implies !before.contains(z) by {
                        if z != op {
                            assert(old_bubble.contains(z));
                        } else {
                            assert(!old_processed.contains(op));
                            if before.contains(op) {
                                let i = choose|i: int| 0 <= i < before.len() && before[i] == op;
                                assert(old_processed[i] == op);
                            }
                        }
                    }
                    assert(!old_bubble.contains(op)) by {
                        if old_bubble.contains(op) {
                            let i = choose|i: int| 0 <= i < old_bubble.len() && old_bubble[i] == op;
                            assert(old_processed[before.len() + i] == op);
                        }
                    }
                    assert forall|z: u32| #[trigger] stack@.contains(z) implies bubble@.contains(z) by {
                        if z != op {
                            let i = choose|i: int| 0 <= i < stack@.len() && stack@[i] == z;
                            assert(old_stack[i] == z);
                            assert(old_stack.contains(z));
                            assert(old_bubble.contains(z));
                            let j = choose|j: int| 0 <= j < old_bubble.len() && old_bubble[j] == z;
                            assert(bubble@[j] == z);
                        } else {
                            assert(bubble@[bubble@.len() - 1] == z);
                        }
                    }
                    assert forall|z: u32| #[trigger] bubble@.contains(z) implies nodes.contains(z) && linked(nodes, edges, target, z) by {
                        if z != op {
                            let j = choose|j: int| 0 <= j < bubble@.len() && bubble@[j] == z;
                            assert(old_bubble[j] == z);
                            assert(old_bubble.contains(z));
                        }
                    }
                    assert(!old_stack.contains(op));
                    assert(bubble@.no_duplicates());
                    assert(stack@.no_duplicates());
                    assert(bubble@.contains(x)) by {
                        let j = choose|j: int| 0 <= j < old_bubble.len() && old_bubble[j] == x;
                        assert(bubble@[j] == x);
                    }
                    assert(!stack@.contains(x)) by {
                        if stack@.contains(x) {
                            let i = choose|i: int| 0 <= i < stack@.len() && stack@[i] == x;
                            if i < old_stack.len() {
                                assert(old_stack[i] == x);
                            }
                        }
                    }
                    assert forall|z: u32, y: u32|
                        #![trigger bubble@.contains(z), nodes.contains(y)]
                        bubble@.contains(z) && z != x && !stack@.contains(z) && nodes.contains(y)
                            && concurrent(edges, z, y) implies processed@.contains(y) by {
                        assert(stack@[stack@.len() - 1] == op);
                        assert(z != op);
                        let j = choose|j: int| 0 <= j < bubble@.len() && bubble@[j] == z;
                        assert(old_bubble[j] == z);
                        assert(old_bubble.contains(z));
                        assert(!old_stack.contains(z)) by {
                            if old_stack.contains(z) {
                                let i = choose|i: int| 0 <= i < old_stack.len() && old_stack[i] == z;
                                assert(stack@[i] == z);
                            }
                        }
                        assert(old_processed.contains(y));
                        let i = choose|i: int| 0 <= i < old_processed.len() && old_processed[i] == y;
                        assert(processed@[i] == y);
                    }
                    assert forall|j: int| 0 <= j < k + 1 implies processed@.contains(#[trigger] ops@[j]) by {
                        if j < k {
                            assert(old_processed.contains(ops@[j]));
                            let i = choose|i: int| 0 <= i < old_processed.len() && old_processed[i] == ops@[j];
                            assert(processed@[i] == ops@[j]);
                        } else {
                            assert(processed@[processed@.len() - 1] == op);
                        }
                    }
                }
            }
            k = k + 1;
        }
        proof {
            assert forall|y: u32| nodes.contains(y) && concurrent(edges, x, y) implies processed@.contains(y) by {
                let i = choose|i: int| 0 <= i < nodes.len() && nodes[i] == y;
                nodes.lemma_filter_contains(pred, i);
                assert(ops@.contains(y));
                let j = choose|j: int| 0 <= j < ops@.len() && ops@[j] == y;
                assert(processed@.contains(ops@[j]));
            }
            lemma_distinct_within(bubble@, nodes);
            assert(bubble@.len() <= nodes.len());
        }
    }
    proof {
        assert forall|z: u32, y: u32|
            #![trigger bubble@.contains(z), nodes.contains(y)]
            bubble@.contains(z) && nodes.contains(y) && concurrent(edges, z, y) implies bubble@.contains(y) by {
            assert(processed@.contains(y));
            if before.contains(y) {
                assert(before.contains(z));
            } else {
                let i = choose|i: int| 0 <= i < processed@.len() && processed@[i] == y;
                assert(bubble@[i - before.len()] == y);
            }
        }
        assert(processed@.no_duplicates()) by {
            assert forall|i: int, j: int| 0 <= i < j < processed@.len() implies processed@[i] != processed@[j] by {
                if j >= before.len() && i < before.len() {
                    assert(bubble@.contains(processed@[j]));
                    assert(before.contains(processed@[i]));
                }
            }
        }
    }
    bubble
}


/// The sets of operations held by a list of bubbles.
pub open spec fn bubble_views(bubbles: Seq<Vec<u32>>) -> Seq<Seq<u32>> {
    bubbles.map_values(|b: Vec<u32>| b@)
}

proof fn lemma_reaches_self(edges: Set<(u32, u32)>, a: u32)
    ensures
        reaches(edges, a, a),
{
    assert(is_path(edges, seq![a]));
}

/// Each bubble starts with its first operation in node order, and the bubbles are listed in the
/// node order of their first operations.
pub open spec fn bubbles_in_node_order(nodes: Seq<u32>, bubbles: Seq<Seq<u32>>) -> bool {
    &&& forall|j: int, x: u32|
        0 <= j < bubbles.len() && #[trigger] bubbles[j].contains(x) ==> nodes.index_of(bubbles[j][0]) <= nodes.index_of(x)
    &&& forall|j: int, k: int|
        0 <= j < k < bubbles.len() ==> nodes.index_of((#[trigger] bubbles[j])[0]) < nodes.index_of((#[trigger] bubbles[k])[0])
}

/// Walk the graph and identify all sets of concurrent operations.
///
/// Operations are concurrent when neither is a predecessor of the other; a bubble holds all
/// operations linked to each other by chains of concurrent operations. Bubbles are listed in the
/// order of their first operation among the graph's nodes, each starting with that operation.
pub fn concurrent_bubbles(graph: &DiGraphMap<u32, ()>) -> (r: Vec<Vec<u32>>)
    ensures
        all_bubbles(graph_nodes(*graph), graph_edges(*graph), bubble_views(r@)),
        bubbles_in_node_order(graph_nodes(*graph), bubble_views(r@)),
{
    let ghost edges = graph_edges(*graph);
    let ghost nodes = graph_nodes(*graph);
    let all_nodes = node_list(graph);
    let mut processed: Vec<u32> = Vec::new();
    let mut bubbles: Vec<Vec<u32>> = Vec::new();
    let mut i: usize = 0;
    while i < all_nodes.len()
        invariant
            edges == graph_edges(*graph),
            nodes == graph_nodes(*graph),
            all_nodes@ == nodes,
            nodes.no_duplicates(),
            i <= nodes.len(),
            bubbles_in_node_order(nodes, bubble_views(bubbles@)),
            forall|j: int| 0 <= j < bubbles@.len() ==> nodes.index_of((#[trigger] bubble_views(bubbles@)[j])[0]) < i,
            processed@.no_duplicates(),
            closed_under_concurrency(edges, nodes, processed@),
            forall|j: int| 0 <= j < i ==> processed@.contains(#[trigger] nodes[j]),
            forall|j: int|
                0 <= j < bubbles@.len() ==> is_bubble(nodes, edges, #[trigger] bubble_views(bubbles@)[j]),
            forall|j: int, k: int, x: u32|
                #![trigger bubble_views(bubbles@)[j].contains(x), bubble_views(bubbles@)[k].contains(x)]
                0 <= j < bubbles@.len() && 0 <= k < bubbles@.len() && bubble_views(bubbles@)[j].contains(x)
                    && bubble_views(bubbles@)[k].contains(x) ==> j == k,
            forall|j: int, x: u32|
                0 <= j < bubbles@.len() && #[trigger] bubble_views(bubbles@)[j].contains(x)
                    ==> processed@.contains(x),
            forall|x: u32, y: u32|
                #![trigger processed@.contains(x), nodes.contains(y)]
                processed@.contains(x) && nodes.contains(y) && concurrent(edges, x, y) ==> exists|j: int|
                    0 <= j < bubbles@.len() && #[trigger] bubble_views(bubbles@)[j].contains(x),
        decreases nodes.len() - i,
    {
        let target = all_nodes[i];
        proof {
            assert(nodes.contains(target));
        }
        let ghost start = processed@;
        if !contains_node(&processed, target) {
            let ghost before = processed@;
            let ghost old_views = bubble_views(bubbles@);
            let bubble = concurrent_bubble(graph, target, &mut processed);
            let ghost b = bubble@;
            proof {
                assert forall|x: u32| #[trigger] b.contains(x) implies !before.contains(x) by {
                    let k = choose|k: int| 0 <= k < b.len() && b[k] == x;
                    if before.contains(x) {
                        let m = choose|m: int| 0 <= m < before.len() && before[m] == x;
                        assert(processed@[m] == x);
                        assert(processed@[before.len() + k] == x);
                    }
                }
                assert forall|x: u32| #[trigger] before.contains(x) implies processed@.contains(x) by {
                    let m = choose|m: int| 0 <= m < before.len() && before[m] == x;
                    assert(processed@[m] == x);
                }
                assert forall|x: u32| #[trigger] b.contains(x) implies processed@.contains(x) by {
                    let k = choose|k: int| 0 <= k < b.len() && b[k] == x;
                    assert(processed@[before.len() + k] == x);
                }
                assert forall|x: u32| #[trigger] processed@.contains(x) implies before.contains(x)
                    || b.contains(x) by {
                    let m = choose|m: int| 0 <= m < processed@.len() && processed@[m] == x;
                    if m < before.len() {
                        assert(before[m] == x);
                    } else {
                        assert(b[m - before.len()] == x);
                    }
                }
                assert(closed_under_concurrency(edges, nodes, processed@));
                assert(b[0] == target);
                assert(b.contains(target));
                assert(processed@.contains(target));
            }
            if bubble.len() > 1 {
                bubbles.push(bubble);
                proof {
                    let views = bubble_views(bubbles@);
                    assert(views =~= old_views.push(b));
                    assert(nodes[i as int] == target);
                    assert(nodes.index_of(target) == i) by {
                        assert(nodes.contains(target));
                    }
                    assert forall|x: u32| #[trigger] b.contains(x) implies nodes.index_of(b[0]) <= nodes.index_of(x) by {
                        assert(nodes.contains(x));
                        let m = nodes.index_of(x);
                        assert(nodes[m] == x);
                        if m < i {
                            assert(before.contains(nodes[m]));
                        }
                    }
                    assert forall|j: int| 0 <= j < bubbles@.len() implies nodes.index_of((#[trigger] bubble_views(bubbles@)[j])[0]) < i + 1 by {
                        if j < old_views.len() {
                            assert(views[j] == old_views[j]);
                        } else {
                            assert(views[j] == b);
                        }
                    }
                    assert(bubbles_in_node_order(nodes, views)) by {
                        assert forall|j: int, x: u32|
                            0 <= j < views.len() && #[trigger] views[j].contains(x) implies nodes.index_of(views[j][0]) <= nodes.index_of(x) by {
                            if j < old_views.len() {
                                assert(views[j] == old_views[j]);
                            } else {
                                assert(views[j] == b);
                            }
                        }
                        assert forall|j: int, k: int|
                            0 <= j < k < views.len() implies nodes.index_of((#[trigger] views[j])[0]) < nodes.index_of((#[trigger] views[k])[0]) by {
                            assert(views[j] == old_views[j]);
                            if k < old_views.len() {
                                assert(views[k] == old_views[k]);
                            } else {
                                assert(views[k] == b);
                            }
                        }
                    }
                    assert forall|j: int| 0 <= j < bubbles@.len() implies is_bubble(nodes, edges, #[trigger] bubble_views(bubbles@)[j]) by {
                        if j == old_views.len() {
                            assert(views[j] == b);
                        } else {
                            assert(views[j] == old_views[j]);
                        }
                    }
                    assert forall|j: int, k: int, x: u32|
                        #![trigger bubble_views(bubbles@)[j].contains(x), bubble_views(bubbles@)[k].contains(x)]
                        0 <= j < bubbles@.len() && 0 <= k < bubbles@.len() && bubble_views(bubbles@)[j].contains(x)
                            && bubble_views(bubbles@)[k].contains(x) implies j == k by {
                        if j < old_views.len() {
                            assert(views[j] == old_views[j]);
                            assert(old_views[j].contains(x));
                        }
                        if k < old_views.len() {
                            assert(views[k] == old_views[k]);
                            assert(old_views[k].contains(x));
                        }
                    }
                    assert forall|j: int, x: u32|
                        0 <= j < bubbles@.len() && #[trigger] bubble_views(bubbles@)[j].contains(x)
                            implies processed@.contains(x) by {
                        if j < old_views.len() {
                            assert(views[j] == old_views[j]);
                            assert(old_views[j].contains(x));
                            assert(before.contains(x));
                        }
                    }
                    assert forall|x: u32, y: u32|
                        #![trigger processed@.contains(x), nodes.contains(y)]
                        processed@.contains(x) && nodes.contains(y) && concurrent(edges, x, y) implies exists|j: int|
                            0 <= j < bubbles@.len() && #[trigger] bubble_views(bubbles@)[j].contains(x) by {
                        if before.contains(x) {
                            let j = choose|j: int| 0 <= j < old_views.len() && #[trigger] old_views[j].contains(x);
                            assert(views[j] == old_views[j]);
                        } else {
                            assert(views[old_views.len() as int] == b);
                        }
                    }
                }
            } else {
                proof {
                    assert forall|x: u32, y: u32|
                        #![trigger processed@.contains(x), nodes.contains(y)]
                        processed@.contains(x) && nodes.contains(y) && concurrent(edges, x, y) implies exists|j: int|
                            0 <= j < bubbles@.len() && #[trigger] bubble_views(bubbles@)[j].contains(x) by {
                        if b.contains(x) {
                            assert(x == target);
                            assert(b.contains(y));
                            assert(y == target);
                            lemma_reaches_self(edges, target);
                        }
                    }
                    assert forall|j: int, x: u32|
                        0 <= j < bubbles@.len() && #[trigger] bubble_views(bubbles@)[j].contains(x)
                            implies processed@.contains(x) by {
                        assert(before.contains(x));
                    }
                }
            }
        }
        proof {
            assert(processed@.contains(target));
            assert forall|x: u32| #[trigger] start.contains(x) implies processed@.contains(x) by {
                if processed@ != start {
                    let m = choose|m: int| 0 <= m < start.len() && start[m] == x;
                    assert(processed@[m] == x);
                }
            }
            assert forall|j: int| 0 <= j < i + 1 implies processed@.contains(#[trigger] nodes[j]) by {
                if j == i {
                    assert(nodes[j] == target);
                } else {
                    assert(start.contains(nodes[j]));
                }
            }
        }
        i = i + 1;
    }
    proof {
        assert forall|x: u32, y: u32|
            #![trigger nodes.contains(x), nodes.contains(y)]
            nodes.contains(x) && nodes.contains(y) && concurrent(edges, x, y) implies exists|j: int|
                0 <= j < bubble_views(bubbles@).len() && #[trigger] bubble_views(bubbles@)[j].contains(x) by {
            let m = choose|m: int| 0 <= m < nodes.len() && nodes[m] == x;
            assert(processed@.contains(nodes[m]));
        }
    }
    bubbles
}


/// The nodes of `s` are strictly increasing.
pub open spec fn ascending(s: Seq<u32>) -> bool {
    forall|i: int, j: int| 0 <= i < j < s.len() ==> s[i] < s[j]
}

/// The tips of the graph (the nodes without outgoing edges) in ascending order, each once: the
/// order in which the states at the tips are merged into the current state, so that two peers
/// holding the same graph merge them alike.
pub open spec fn tips(graph: DiGraphMap<u32, ()>) -> Seq<u32> {
    ascending_of(sink_nodes(graph).to_set())
}

/// The nodes of `nodes` in ascending order, each once.
pub open spec fn ascending_of(nodes: Set<u32>) -> Seq<u32> {
    choose|s: Seq<u32>| ascending(s) && s.to_set() == nodes
}

/// `s` with `x` put in its place, unless it is there already.
spec fn insert_ascending(s: Seq<u32>, x: u32) -> Seq<u32>
    decreases s.len(),
{
    if s.len() == 0 {
        seq![x]
    } else if x < s[0] {
        seq![x] + s
    } else if x == s[0] {
        s
    } else {
        seq![s[0]] + insert_ascending(s.drop_first(), x)
    }
}

proof fn lemma_insert_ascending(s: Seq<u32>, x: u32)
    requires
        ascending(s),
    ensures
        ascending(insert_ascending(s, x)),
        insert_ascending(s, x).to_set() == s.to_set().insert(x),
    decreases s.len(),
{
    let r = insert_ascending(s, x);
    if s.len() == 0 {
        assert(r.to_set() =~= s.to_set().insert(x)) by {
            assert forall|y: u32| r.to_set().contains(y) <==> s.to_set().insert(x).contains(y) by {
                if y == x {
                    assert(r[0] == x);
                }
            }
        }
    } else if x < s[0] {
        assert forall|i: int, j: int| 0 <= i < j < r.len() implies r[i] < r[j] by {
            if i > 0 {
                assert(r[i] == s[i - 1] && r[j] == s[j - 1]);
            } else {
                assert(r[j] == s[j - 1]);
                if j - 1 > 0 {
                    assert(s[0] < s[j - 1]);
                }
            }
        }
        assert forall|y: u32| r.to_set().contains(y) <==> s.to_set().insert(x).contains(y) by {
            if r.to_set().contains(y) {
                let m = choose|m: int| 0 <= m < r.len() && r[m] == y;
                if m > 0 {
                    assert(s[m - 1] == y);
                }
            }
            if s.to_set().contains(y) {
                let m = choose|m: int| 0 <= m < s.len() && s[m] == y;
                assert(r[m + 1] == y);
            }
            if y == x {
                assert(r[0] == x);
            }
        }
        assert(r.to_set() =~= s.to_set().insert(x));
    } else if x == s[0] {
        assert(s.to_set().contains(x));
        assert(r.to_set() =~= s.to_set().insert(x));
    } else {
        let t = s.drop_first();
        assert forall|i: int, j: int| 0 <= i < j < t.len() implies t[i] < t[j] by {
            assert(t[i] == s[i + 1] && t[j] == s[j + 1]);
        }
        lemma_insert_ascending(t, x);
        let rt = insert_ascending(t, x);
        assert forall|y: u32| rt.to_set().contains(y) implies s[0] < y by {
            assert(t.to_set().insert(x).contains(y));
            if y != x {
                let m = choose|m: int| 0 <= m < t.len() && t[m] == y;
                assert(s[m + 1] == y);
            }
        }
        assert forall|i: int, j: int| 0 <= i < j < r.len() implies r[i] < r[j] by {
            assert(r[j] == rt[j - 1]);
            assert(rt.to_set().contains(rt[j - 1]));
            if i > 0 {
                assert(r[i] == rt[i - 1]);
            }
        }
        assert forall|y: u32| r.to_set().contains(y) <==> s.to_set().insert(x).contains(y) by {
            if r.to_set().contains(y) {
                let m = choose|m: int| 0 <= m < r.len() && r[m] == y;
                if m > 0 {
                    assert(rt[m - 1] == y);
                    assert(rt.to_set().contains(y));
                    if y != x {
                        assert(t.to_set().contains(y));
                        let k = choose|k: int| 0 <= k < t.len() && t[k] == y;
                        assert(s[k + 1] == y);
                    }
                }
            }
            if s.to_set().insert(x).contains(y) {
                if y == s[0] {
                    assert(r[0] == y);
                } else {
                    if y != x {
                        let m = choose|m: int| 0 <= m < s.len() && s[m] == y;
                        assert(m > 0);
                        assert(t[m - 1] == y);
                        assert(t.to_set().contains(y));
                    }
                    assert(rt.to_set().contains(y));
                    let k = choose|k: int| 0 <= k < rt.len() && rt[k] == y;
                    assert(r[k + 1] == y);
                }
            }
        }
        assert(r.to_set() =~= s.to_set().insert(x));
    }
}

/// Every sequence of nodes has an ascending arrangement of its nodes.
proof fn lemma_ascending_exists(v: Seq<u32>)
    ensures
        ascending(ascending_of(v.to_set())),
        ascending_of(v.to_set()).to_set() == v.to_set(),
    decreases v.len(),
{
    if v.len() == 0 {
        let e = Seq::<u32>::empty();
        assert(e.to_set() =~= v.to_set());
        assert(ascending(e) && e.to_set() == v.to_set());
    } else {
        let w = v.drop_last();
        lemma_ascending_exists(w);
        let s = ascending_of(w.to_set());
        lemma_insert_ascending(s, v.last());
        let r = insert_ascending(s, v.last());
        assert(v =~= w.push(v.last()));
        assert forall|y: u32| v.to_set().contains(y) <==> w.to_set().insert(v.last()).contains(y) by {
            if v.to_set().contains(y) && y != v.last() {
                let m = choose|m: int| 0 <= m < v.len() && v[m] == y;
                assert(m < w.len());
                assert(w[m] == y);
            }
            if w.to_set().contains(y) {
                let m = choose|m: int| 0 <= m < w.len() && w[m] == y;
                assert(v[m] == y);
            }
            if y == v.last() {
                assert(v[v.len() - 1] == y);
            }
        }
        assert(v.to_set() =~= w.to_set().insert(v.last()));
        assert(ascending(r) && r.to_set() == v.to_set());
    }
}

/// The tips are the tips of the graph, in ascending order.
pub proof fn lemma_tips(graph: DiGraphMap<u32, ()>)
    ensures
        ascending(tips(graph)),
        tips(graph).to_set() == sink_nodes(graph).to_set(),
        forall|n: u32| tips(graph).contains(n) <==> #[trigger] is_sink(graph, n),
{
    lemma_ascending_exists(sink_nodes(graph));
    assert forall|n: u32| tips(graph).contains(n) <==> #[trigger] is_sink(graph, n) by {
        assert(tips(graph).to_set().contains(n) == tips(graph).contains(n));
        assert(sink_nodes(graph).to_set().contains(n) == sink_nodes(graph).contains(n));
    }
}

/// Two ascending sequences with the same nodes are the same sequence.
pub proof fn lemma_ascending_unique(a: Seq<u32>, b: Seq<u32>)
    requires
        ascending(a),
        ascending(b),
        a.to_set() == b.to_set(),
    ensures
        a == b,
    decreases a.len(),
{
    if a.len() == 0 {
        if b.len() > 0 {
            assert(b.to_set().contains(b[0]));
        }
        assert(a =~= b);
    } else {
        assert(a.to_set().contains(a[0]));
        assert(b.len() > 0);
        assert(b.to_set().contains(b[0]));
        let j = choose|j: int| 0 <= j < a.len() && a[j] == b[0];
        let k = choose|k: int| 0 <= k < b.len() && b[k] == a[0];
        assert(a[0] <= a[j]);
        assert(b[0] <= b[k]);
        let a1 = a.drop_first();
        let b1 = b.drop_first();
        assert forall|x: u32| a1.to_set().contains(x) <==> b1.to_set().contains(x) by {
            if a1.to_set().contains(x) {
                let i = choose|i: int| 0 <= i < a1.len() && a1[i] == x;
                assert(a[i + 1] == x);
                assert(a.to_set().contains(x));
                let m = choose|m: int| 0 <= m < b.len() && b[m] == x;
                assert(m != 0);
                assert(b1[m - 1] == x);
            }
            if b1.to_set().contains(x) {
                let i = choose|i: int| 0 <= i < b1.len() && b1[i] == x;
                assert(b[i + 1] == x);
                assert(b.to_set().contains(x));
                let m = choose|m: int| 0 <= m < a.len() && a[m] == x;
                assert(m != 0);
                assert(a1[m - 1] == x);
            }
        }
        assert(a1.to_set() =~= b1.to_set());
        lemma_ascending_unique(a1, b1);
        assert forall|i: int| 0 <= i < a.len() implies a[i] == b[i] by {
            if i > 0 {
                assert(a[i] == a1[i - 1]);
                assert(b[i] == b1[i - 1]);
            }
        }
        assert(a =~= b);
    }
}

/// The nodes of `v` in ascending order, each once.
pub fn ascending_nodes(v: &Vec<u32>) -> (r: Vec<u32>)
    ensures
        ascending(r@),
        r@.to_set() == v@.to_set(),
{
    let mut r: Vec<u32> = Vec::new();
    let mut i: usize = 0;
    while i < v.len()
        invariant
            i <= v@.len(),
            ascending(r@),
            r@.to_set() == v@.take(i as int).to_set(),
        decreases v@.len() - i,
    {
        let x = v[i];
        let mut p: usize = 0;
        while p < r.len() && r[p] < x
            invariant
                p <= r@.len(),
                forall|j: int| 0 <= j < p ==> r@[j] < x,
            decreases r@.len() - p,
        {
            p = p + 1;
        }
        let ghost before = r@;
        if p == r.len() || r[p] != x {
            r.insert(p, x);
            proof {
                assert forall|a: int, b: int| 0 <= a < b < r@.len() implies r@[a] < r@[b] by {
                    if b < p {
                        assert(r@[a] == before[a] && r@[b] == before[b]);
                    } else if b == p {
                        assert(r@[a] == before[a]);
                    } else if a < p {
                        assert(r@[a] == before[a] && r@[b] == before[b - 1]);
                        assert(before[p as int] >= x);
                        if b - 1 > p {
                            assert(before[p as int] < before[b - 1]);
                        }
                    } else if a == p {
                        assert(r@[b] == before[b - 1]);
                        assert(before[p as int] > x);
                        if b - 1 > p {
                            assert(before[p as int] < before[b - 1]);
                        }
                    } else {
                        assert(r@[a] == before[a - 1] && r@[b] == before[b - 1]);
                    }
                }
                assert forall|y: u32| r@.to_set().contains(y) <==> before.to_set().insert(x).contains(y) by {
                    if r@.to_set().contains(y) {
                        let m = choose|m: int| 0 <= m < r@.len() && r@[m] == y;
                        if m < p {
                            assert(before[m] == y);
                        } else if m > p {
                            assert(before[m - 1] == y);
                        }
                    }
                    if before.to_set().contains(y) {
                        let m = choose|m: int| 0 <= m < before.len() && before[m] == y;
                        if m < p {
                            assert(r@[m] == y);
                        } else {
                            assert(r@[m + 1] == y);
                        }
                    }
                    if y == x {
                        assert(r@[p as int] == x);
                    }
                }
                assert(r@.to_set() =~= before.to_set().insert(x));
            }
        } else {
            proof {
                assert(before.to_set().contains(x));
                assert(before.to_set() =~= before.to_set().insert(x));
            }
        }
        proof {
            let t = v@.take(i + 1);
            assert(t =~= v@.take(i as int).push(x));
            assert forall|y: u32| t.to_set().contains(y) <==> v@.take(i as int).to_set().insert(x).contains(y) by {
                if t.to_set().contains(y) {
                    let m = choose|m: int| 0 <= m < t.len() && t[m] == y;
                    if m < i {
                        assert(v@.take(i as int)[m] == y);
                    }
                }
                if v@.take(i as int).to_set().contains(y) {
                    let m = choose|m: int| 0 <= m < i && v@.take(i as int)[m] == y;
                    assert(t[m] == y);
                }
                if y == x {
                    assert(t[i as int] == x);
                }
            }
            assert(t.to_set() =~= v@.take(i as int).to_set().insert(x));
        }
        i = i + 1;
    }
    proof {
        assert(v@.take(v@.len() as int) =~= v@);
    }
    r
}

} // verus!
