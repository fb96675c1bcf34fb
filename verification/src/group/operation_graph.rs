//! The group CRDT: a graph of group operations, the group states after each of them, and the
//! processing of new operations.
//!
//! Operations refer to the operations they depend on; these references are the edges of the
//! operation graph. The state of the groups after an operation is the state at its dependencies
//! (their states merged) with the operation's action applied.
use std::marker::PhantomData;

use petgraph::graphmap::DiGraphMap;
use vstd::prelude::*;
use vstd::std_specs::cmp::PartialEqSpec;

use crate::access::{Access, AccessLevel};
use crate::graph::{
    contains_node, cut_off, empty_graph, graph_edges, graph_nodes, insert_edge, insert_node, is_sink,
    predecessor_graph, sink_nodes, sinks, with_node, ascending, ascending_nodes, lemma_ascending_unique, tips,
};
use crate::group::action::GroupAction;
use crate::group::crdt::{
    apply_action, apply_outcome, base_of, change_error, change_fits, clones_exact, closes_cycle, groups_cloned,
    lemma_apply_outcome_unique, merged_groups, merged_view, result_state, GroupCrdtInnerError, GroupStates,
    MembersView, OperationStates, StateChangeResult,
};
use crate::group::member::{member_id, GroupMember};
use crate::group::message::GroupControlMessage;
use crate::group::access::{
    access_cloned, access_eq, access_equals, access_less_than, access_lt, conditions_order_laws, copy_access,
    lemma_access_lt_strict_order,
};
use crate::group::state::{
    conditions_ordered, counters_below_limit, entries_map, has_key, is_member_spec, keys_distinct,
    lemma_entries_map_index, lemma_entries_map_push, lemma_entries_map_update, GroupMembershipError,
};
use crate::group::resolver::{lemma_record_settled, ready_to_record, rebuild_ready, settled};
use crate::test_utils::partial_ord::copy_items;
use crate::traits::{IdentityHandle, Operation, Orderer, Resolver};

verus! {

/// Inner state object for `GroupCrdt` which contains the actual groups state, including the
/// operation graph and the group states after each operation.
pub struct GroupCrdtInnerState<ID, C, M> {
    /// All operations processed by this group, with their identifiers.
    pub operations: Vec<(u32, M)>,
    /// All operations whose actions should be ignored.
    pub ignore: Vec<u32>,
    /// All operations which are part of a mutual remove cycle.
    pub mutual_removes: Vec<u32>,
    /// All resolved states.
    pub states: OperationStates<ID, C>,
    /// Operation graph of all auth operations: an edge leads from a dependency to the operation
    /// depending on it.
    pub graph: DiGraphMap<u32, ()>,
}

/// Every tip of the operation graph has a recorded state.
pub open spec fn tips_recorded<ID, C, M>(inner: GroupCrdtInnerState<ID, C, M>) -> bool {
    forall|n: u32| #[trigger] is_sink(inner.graph, n) ==> inner.states@.contains_key(n)
}

/// An inner state without operations.
pub open spec fn is_empty_inner<ID, C, M>(r: GroupCrdtInnerState<ID, C, M>) -> bool {
    &&& r.operations@ == Seq::<(u32, M)>::empty()
    &&& r.ignore@ == Seq::<u32>::empty()
    &&& r.mutual_removes@ == Seq::<u32>::empty()
    &&& r.states@ == Map::<u32, Map<ID, MembersView<ID, C>>>::empty()
    &&& graph_nodes(r.graph) == Seq::<u32>::empty()
    &&& graph_edges(r.graph) == Set::<(u32, u32)>::empty()
}

impl<ID: IdentityHandle, C, M> GroupCrdtInnerState<ID, C, M> {
    /// An inner state without operations.
    pub fn new() -> (r: Self)
        ensures
            is_empty_inner(r),
    {
        GroupCrdtInnerState {
            operations: Vec::new(),
            ignore: Vec::new(),
            mutual_removes: Vec::new(),
            states: OperationStates::new(),
            graph: empty_graph(),
        }
    }

    /// Current tips for the groups operation graph: the operations no other operation depends
    /// on, in node order.
    pub fn heads(&self) -> (r: Vec<u32>)
        ensures
            r@ == sink_nodes(self.graph),
            r@.no_duplicates(),
    {
        sinks(&self.graph)
    }

    /// The tips of the operation graph in ascending order, each once.
    fn tip_list(&self) -> (r: Vec<u32>)
        ensures
            r@ == tips(self.graph),
            r@.to_set() == sink_nodes(self.graph).to_set(),
            forall|n: u32| r@.contains(n) <==> #[trigger] is_sink(self.graph, n),
    {
        let heads = self.heads();
        let r = ascending_nodes(&heads);
        proof {
            assert(ascending(r@) && r@.to_set() == sink_nodes(self.graph).to_set());
            let t = tips(self.graph);
            assert(ascending(t) && t.to_set() == sink_nodes(self.graph).to_set());
            lemma_ascending_unique(r@, t);
            assert forall|n: u32| r@.contains(n) <==> #[trigger] is_sink(self.graph, n) by {
                assert(r@.to_set().contains(n) == r@.contains(n));
                assert(sink_nodes(self.graph).to_set().contains(n) == sink_nodes(self.graph).contains(n));
            }
        }
        r
    }
}

impl<ID: IdentityHandle, C: Clone + PartialOrd, M> GroupCrdtInnerState<ID, C, M> {
    /// Get the state at a certain point in history: the recorded states of the given operations
    /// merged into one.
    ///
    /// Fails, naming all given operations, when the states of some of them are not recorded.
    pub fn state_at(&self, dependencies: &[u32]) -> (r: Result<GroupStates<ID, C>, GroupCrdtInnerError<u32>>)
        ensures
            match r {
                Ok(m) => {
                    &&& forall|i: int| 0 <= i < dependencies@.len() ==> self.states@.contains_key(#[trigger] dependencies@[i])
                    &&& m@.dom() == merged_groups(self.states@, dependencies@)
                    &&& (conditions_ordered::<C>() && clones_exact::<C>()) ==> m@ == merged_view(self.states@, dependencies@)
                },
                Err(e) => {
                    &&& e matches GroupCrdtInnerError::StatesNotFound(ops) && ops@ == dependencies@
                    &&& exists|i: int| 0 <= i < dependencies@.len() && !self.states@.contains_key(#[trigger] dependencies@[i])
                },
            },
    {
        self.states.state_at(dependencies)
    }

    /// Current group states: the states at all graph tips merged into one.
    pub fn current_state(&self) -> (r: GroupStates<ID, C>)
        requires
            tips_recorded(*self),
        ensures
            r@.dom() == merged_groups(self.states@, tips(self.graph)),
            (conditions_ordered::<C>() && clones_exact::<C>()) ==> r@ == merged_view(self.states@, tips(self.graph)),
    {
        let heads = self.tip_list();
        match self.states.state_at(heads.as_slice()) {
            Ok(m) => m,
            Err(_) => {
                proof {
                    let i = choose|i: int| 0 <= i < heads@.len() && !self.states@.contains_key(#[trigger] heads@[i]);
                    assert(heads@.contains(heads@[i]));
                    assert(is_sink(self.graph, heads@[i]));
                }
                GroupStates::new()
            },
        }
    }
}

impl<ID: IdentityHandle, C, M> Default for GroupCrdtInnerState<ID, C, M> {
    fn default() -> (r: Self)
        ensures
            is_empty_inner(r),
    {
        Self::new()
    }
}

impl<ID: IdentityHandle, C: Clone, M: Clone> Clone for GroupCrdtInnerState<ID, C, M> {
    fn clone(&self) -> (r: Self)
        ensures
            r.ignore@ == self.ignore@,
            r.mutual_removes@ == self.mutual_removes@,
            r.states@.dom() == self.states@.dom(),
            graph_nodes(r.graph) == graph_nodes(self.graph),
            graph_edges(r.graph) == graph_edges(self.graph),
    {
        GroupCrdtInnerState {
            operations: self.operations.clone(),
            ignore: copy_items(&self.ignore),
            mutual_removes: copy_items(&self.mutual_removes),
            states: self.states.clone(),
            graph: crate::graph::copy_graph(&self.graph),
        }
    }
}

/// State object for `GroupCrdt` containing an orderer state and the inner state.
pub struct GroupCrdtState<ID, C, ORD: Orderer<ID, u32, GroupControlMessage<ID, C>>> {
    /// Inner groups state.
    pub inner: GroupCrdtInnerState<ID, C, ORD::Operation>,
    /// State for the orderer.
    pub orderer_y: ORD::State,
}

impl<ID: IdentityHandle, C: Clone, ORD: Orderer<ID, u32, GroupControlMessage<ID, C>>> Clone for GroupCrdtState<ID, C, ORD> where
    ORD::Operation: Clone,
    ORD::State: Clone,
 {
    fn clone(&self) -> (r: Self)
        ensures
            r.inner.ignore@ == self.inner.ignore@,
            r.inner.mutual_removes@ == self.inner.mutual_removes@,
            r.inner.states@.dom() == self.inner.states@.dom(),
            graph_nodes(r.inner.graph) == graph_nodes(self.inner.graph),
            graph_edges(r.inner.graph) == graph_edges(self.inner.graph),
    {
        GroupCrdtState { inner: self.inner.clone(), orderer_y: self.orderer_y.clone() }
    }
}

impl<ID: IdentityHandle, C, ORD: Orderer<ID, u32, GroupControlMessage<ID, C>>> GroupCrdtState<ID, C, ORD> {
    /// Instantiate a new state.
    pub fn new(orderer_y: ORD::State) -> (r: Self)
        ensures
            is_empty_inner(r.inner),
            r.orderer_y == orderer_y,
    {
        GroupCrdtState { inner: GroupCrdtInnerState::new(), orderer_y }
    }
}

/// Max depth of group nesting allowed.
///
/// Depth is checked during group state queries and if the depth is exceeded further additions are
/// ignored. The main reason for this check is to protect against accidental group nesting cycles
/// which may occur as a result of concurrent operations.
pub const MAX_NESTED_DEPTH: u32 = 1000;

/// `id` is an individual which is an active member of group `g`, or of a group which is an active
/// member of `g`, and so on, through a chain of at most `depth` groups.
pub open spec fn reaches_individual<ID, C>(groups: Map<ID, MembersView<ID, C>>, g: ID, id: ID, depth: nat) -> bool
    decreases depth,
{
    if depth == 0 || !groups.contains_key(g) {
        false
    } else {
        ||| groups[g].contains_key(GroupMember::Individual(id)) && is_member_spec(
            groups[g][GroupMember::Individual(id)],
        )
        ||| exists|h: ID|
            #![trigger groups[g][GroupMember::Group(h)]]
            groups[g].contains_key(GroupMember::Group(h)) && is_member_spec(groups[g][GroupMember::Group(h)])
                && reaches_individual(groups, h, id, (depth - 1) as nat)
    }
}

/// `r` is the access level reported for the group-state access level `g`: the same level, with
/// cloned conditions for `Write` and none for the other levels.
pub open spec fn reported_access<C: Clone>(g: crate::group::access::Access<C>, r: Access<C>) -> bool {
    match g {
        crate::group::access::Access::Pull => r.level == AccessLevel::Pull && r.conditions is None,
        crate::group::access::Access::Read => r.level == AccessLevel::Read && r.conditions is None,
        crate::group::access::Access::Manage => r.level == AccessLevel::Manage && r.conditions is None,
        crate::group::access::Access::Write { conditions } => r.level == AccessLevel::Write && match (conditions, r.conditions) {
            (None, None) => true,
            (Some(p), Some(q)) => cloned(p, q),
            _ => false,
        },
    }
}

/// The access level reported for a group-state access level.
fn action_access<C: Clone>(g: &crate::group::access::Access<C>) -> (r: Access<C>)
    ensures
        reported_access(*g, r),
{
    match g {
        crate::group::access::Access::Pull => Access::pull(),
        crate::group::access::Access::Read => Access::read(),
        crate::group::access::Access::Manage => Access::manage(),
        crate::group::access::Access::Write { conditions } => {
            let conditions = match conditions {
                Some(c) => Some(c.clone()),
                None => None,
            };
            Access { conditions, level: AccessLevel::Write }
        },
    }
}

/// Record `access` for individual `id`, unless a greater access level is recorded already.
fn record_access<ID: IdentityHandle, C: PartialOrd>(
    members: &mut Vec<(ID, crate::group::access::Access<C>)>,
    id: ID,
    access: crate::group::access::Access<C>,
)
    requires
        keys_distinct(old(members)@),
    ensures
        keys_distinct(final(members)@),
        forall|k: ID| #[trigger] has_key(final(members)@, k) <==> has_key(old(members)@, k) || k == id,
        entries_map(final(members)@) == entries_map(old(members)@).insert(id, entries_map(final(members)@)[id]),
        !entries_map(old(members)@).contains_key(id) ==> entries_map(final(members)@)[id] == access,
        entries_map(old(members)@).contains_key(id) ==> (entries_map(final(members)@)[id] == access && (
        conditions_ordered::<C>() ==> access_lt(entries_map(old(members)@)[id], access))) || (entries_map(
            final(members)@,
        )[id] == entries_map(old(members)@)[id] && (conditions_ordered::<C>() ==> !access_lt(
            entries_map(old(members)@)[id],
            access,
        ))),
{
    let ghost s = members@;
    let mut i: usize = 0;
    while i < members.len()
        invariant
            i <= members@.len(),
            members@ == s,
            s == old(members)@,
            keys_distinct(s),
            forall|j: int| 0 <= j < i ==> members@[j].0 != id,
        decreases members@.len() - i,
    {
        if members[i].0.is_same(&id) {
            proof {
                lemma_entries_map_index(s, i as int);
            }
            if access_less_than(&members[i].1, &access) {
                members.set(i, (id, access));
                proof {
                    lemma_entries_map_update(s, i as int, access);
                    assert(members@ == s.update(i as int, (s[i as int].0, access)));
                }
            } else {
                proof {
                    assert(entries_map(members@) =~= entries_map(s).insert(id, entries_map(s)[id]));
                }
            }
            proof {
                assert forall|k: ID| #[trigger] has_key(members@, k) <==> has_key(s, k) || k == id by {
                    assert(entries_map(members@).contains_key(k) == has_key(members@, k));
                    assert(entries_map(s).contains_key(k) == has_key(s, k));
                }
            }
            return;
        }
        i = i + 1;
    }
    proof {
        assert(!has_key(s, id)) by {
            if has_key(s, id) {
                let j = choose|j: int| 0 <= j < s.len() && s[j].0 == id;
                assert(members@[j].0 != id);
            }
        }
        lemma_entries_map_push(s, id, access);
    }
    members.push((id, access));
    proof {
        assert forall|k: ID| #[trigger] has_key(members@, k) <==> has_key(s, k) || k == id by {
            assert(entries_map(members@).contains_key(k) == has_key(members@, k));
            assert(entries_map(s).contains_key(k) == has_key(s, k));
        }
    }
}

/// Access levels compare by their specification: the conditions' order and equality follow
/// their specifications, their order is a strict partial order, and clones are exact.
pub open spec fn exact_access_order<C: Clone + PartialOrd + PartialEq>() -> bool {
    &&& conditions_ordered::<C>()
    &&& C::obeys_eq_spec()
    &&& clones_exact::<C>()
    &&& conditions_order_laws::<C>()
}

/// The access level `access` capped by `cap`: a member of a sub-group holds at most the access
/// level of the sub-group.
pub open spec fn capped<C: PartialOrd + PartialEq>(
    access: crate::group::access::Access<C>,
    cap: Option<crate::group::access::Access<C>>,
) -> crate::group::access::Access<C> {
    match cap {
        None => access,
        Some(root) => if access_lt(access, root) || access_eq(access, root) {
            access
        } else {
            root
        },
    }
}

/// Group member `m`, holding access level `held`, offers individual `k` the access level `a` under
/// the cap `cap`: `m` is `k` and `a` is the capped level, or `m` is a group offering `k` the level
/// `a`, capped by the capped level of `m`, through at most `depth` further groups.
pub open spec fn offered_via<ID, C: PartialOrd + PartialEq>(
    groups: Map<ID, MembersView<ID, C>>,
    m: GroupMember<ID>,
    held: crate::group::access::Access<C>,
    k: ID,
    cap: Option<crate::group::access::Access<C>>,
    depth: nat,
    a: crate::group::access::Access<C>,
) -> bool
    decreases depth, 1nat,
{
    ||| m == GroupMember::Individual(k) && a == capped(held, cap)
    ||| m is Group && offers(groups, member_id(m), k, Some(capped(held, cap)), depth, a)
}

/// Group `g` offers individual `k` the access level `a` under the cap `cap`, through a chain of at
/// most `depth` groups: some active member of `g` offers it.
pub open spec fn offers<ID, C: PartialOrd + PartialEq>(
    groups: Map<ID, MembersView<ID, C>>,
    g: ID,
    k: ID,
    cap: Option<crate::group::access::Access<C>>,
    depth: nat,
    a: crate::group::access::Access<C>,
) -> bool
    decreases depth, 0nat,
{
    if depth == 0 || !groups.contains_key(g) {
        false
    } else {
        exists|m: GroupMember<ID>|
            #![trigger groups[g][m]]
            groups[g].contains_key(m) && is_member_spec(groups[g][m]) && offered_via(
                groups,
                m,
                groups[g][m].access,
                k,
                cap,
                (depth - 1) as nat,
                a,
            )
    }
}

/// `k` is an active individual member of group `h`.
pub open spec fn individual_in<ID, C>(groups: Map<ID, MembersView<ID, C>>, h: ID, k: ID) -> bool {
    &&& groups.contains_key(h)
    &&& groups[h].contains_key(GroupMember::Individual(k))
    &&& is_member_spec(groups[h][GroupMember::Individual(k)])
}

/// No member is offered more than it holds itself: whatever access level group `g` offers
/// individual `k`, directly or through sub-groups, `k` is an active individual member of some
/// group in which its own access level is not lower than the offered one.
pub proof fn lemma_offer_within_own_level<ID, C: PartialOrd + PartialEq>(
    groups: Map<ID, MembersView<ID, C>>,
    g: ID,
    k: ID,
    cap: Option<crate::group::access::Access<C>>,
    depth: nat,
    a: crate::group::access::Access<C>,
)
    requires
        conditions_order_laws::<C>(),
        offers(groups, g, k, cap, depth, a),
    ensures
        exists|h: ID|
            #[trigger] individual_in(groups, h, k) && !access_lt(groups[h][GroupMember::Individual(k)].access, a),
    decreases depth,
{
    lemma_access_lt_strict_order::<C>();
    let m = choose|m: GroupMember<ID>|
        #![trigger groups[g][m]]
        groups[g].contains_key(m) && is_member_spec(groups[g][m]) && offered_via(
            groups,
            m,
            groups[g][m].access,
            k,
            cap,
            (depth - 1) as nat,
            a,
        );
    let held = groups[g][m].access;
    if m == GroupMember::Individual(k) && a == capped(held, cap) {
        assert(individual_in(groups, g, k));
        assert(!access_lt(held, a));
    } else {
        lemma_offer_within_own_level(groups, member_id(m), k, Some(capped(held, cap)), (depth - 1) as nat, a);
    }
}

/// Conditions which the conditions' equality holds equal are the same conditions.
pub open spec fn conditions_eq_identity<C: PartialEq>() -> bool {
    forall|p: C, q: C| #[trigger] p.eq_spec(&q) ==> p == q
}

/// The access level capped by `c` is `c` or lower than it.
proof fn lemma_capped_below<C: PartialOrd + PartialEq>(
    held: crate::group::access::Access<C>,
    c: crate::group::access::Access<C>,
)
    requires
        conditions_eq_identity::<C>(),
    ensures
        capped(held, Some(c)) == c || access_lt(capped(held, Some(c)), c),
{
    if access_eq(held, c) {
        match (held, c) {
            (
                crate::group::access::Access::Write { conditions: Some(p) },
                crate::group::access::Access::Write { conditions: Some(q) },
            ) => {
                assert(p.eq_spec(&q));
            },
            _ => {},
        }
    }
}

/// A sub-group's members are never offered more than the sub-group holds: whatever access level
/// group `g` offers individual `k` under the cap `c` (the level of the sub-group through which it
/// is reached), it is not greater than `c`.
pub proof fn lemma_offer_within_cap<ID, C: PartialOrd + PartialEq>(
    groups: Map<ID, MembersView<ID, C>>,
    g: ID,
    k: ID,
    c: crate::group::access::Access<C>,
    depth: nat,
    a: crate::group::access::Access<C>,
)
    requires
        conditions_order_laws::<C>(),
        conditions_eq_identity::<C>(),
        offers(groups, g, k, Some(c), depth, a),
    ensures
        !access_lt(c, a),
    decreases depth,
{
    lemma_access_lt_strict_order::<C>();
    let m = choose|m: GroupMember<ID>|
        #![trigger groups[g][m]]
        groups[g].contains_key(m) && is_member_spec(groups[g][m]) && offered_via(
            groups,
            m,
            groups[g][m].access,
            k,
            Some(c),
            (depth - 1) as nat,
            a,
        );
    let held = groups[g][m].access;
    let cp = capped(held, Some(c));
    lemma_capped_below(held, c);
    if m == GroupMember::Individual(k) && a == cp {
    } else {
        lemma_offer_within_cap(groups, member_id(m), k, cp, (depth - 1) as nat, a);
        if access_lt(c, a) && access_lt(cp, c) {
            assert(access_lt(cp, a));
        }
    }
}

/// A member of a sub-group keeps its own access level where it does not exceed the sub-group's:
/// when group `g` holds sub-group `h` as an active member with access level `c`, and `h` holds
/// individual `k` as an active member with a level `own` not greater than `c`, then `g` offers
/// `k` the level `own` through `h`.
pub proof fn lemma_sub_group_member_keeps_level<ID, C: PartialOrd + PartialEq>(
    groups: Map<ID, MembersView<ID, C>>,
    g: ID,
    h: ID,
    k: ID,
    depth: nat,
)
    requires
        depth >= 2,
        groups.contains_key(g),
        groups[g].contains_key(GroupMember::Group(h)),
        is_member_spec(groups[g][GroupMember::Group(h)]),
        individual_in(groups, h, k),
        access_lt(groups[h][GroupMember::Individual(k)].access, groups[g][GroupMember::Group(h)].access)
            || access_eq(groups[h][GroupMember::Individual(k)].access, groups[g][GroupMember::Group(h)].access),
    ensures
        offers(groups, g, k, None, depth, groups[h][GroupMember::Individual(k)].access),
{
    let own = groups[h][GroupMember::Individual(k)].access;
    let c = groups[g][GroupMember::Group(h)].access;
    assert(capped(c, None) == c);
    assert(capped(own, Some(c)) == own);
    assert(offered_via(groups, GroupMember::Individual(k), own, k, Some(c), (depth - 2) as nat, own));
    assert(groups[h][GroupMember::Individual(k)].access == own);
    assert(offers(groups, h, k, Some(c), (depth - 1) as nat, own));
    assert(member_id(GroupMember::Group(h)) == h);
    assert(offered_via(groups, GroupMember::Group(h), c, k, None, (depth - 1) as nat, own));
}

/// The access level reported for a transitive member (see `members`) is never greater than its
/// own level in some group of which it is an active individual member.
pub proof fn lemma_reported_within_own_level<ID, C: Clone + PartialOrd + PartialEq>(
    groups: Map<ID, MembersView<ID, C>>,
    g: ID,
    k: ID,
    reported: Access<C>,
)
    requires
        conditions_order_laws::<C>(),
        greatest_offer(groups, g, k, reported),
    ensures
        exists|h: ID, v: crate::group::access::Access<C>|
            #[trigger] individual_in(groups, h, k) && #[trigger] reported_access(v, reported) && !access_lt(
                groups[h][GroupMember::Individual(k)].access,
                v,
            ),
{
    let v = choose|v: crate::group::access::Access<C>|
        #![trigger offers(groups, g, k, None, MAX_NESTED_DEPTH as nat, v)]
        reported_access(v, reported) && offers(groups, g, k, None, MAX_NESTED_DEPTH as nat, v) && forall|
            a: crate::group::access::Access<C>,
        | #[trigger] offers(groups, g, k, None, MAX_NESTED_DEPTH as nat, a) ==> !access_lt(v, a);
    lemma_offer_within_own_level(groups, g, k, None, MAX_NESTED_DEPTH as nat, v);
    let h = choose|h: ID|
        #[trigger] individual_in(groups, h, k) && !access_lt(groups[h][GroupMember::Individual(k)].access, v);
    assert(individual_in(groups, h, k) && reported_access(v, reported) && !access_lt(
        groups[h][GroupMember::Individual(k)].access,
        v,
    ));
}

/// Add the individual members of group `group_id`, and of its sub-groups through at most
/// `MAX_NESTED_DEPTH - depth` groups, to `members`, each with the greatest access level found,
/// where a sub-group's members hold at most the access level of the sub-group.
fn collect_members<ID: IdentityHandle, C: Clone + PartialOrd + PartialEq>(
    groups: &GroupStates<ID, C>,
    group_id: ID,
    members: &mut Vec<(ID, crate::group::access::Access<C>)>,
    root_access: Option<crate::group::access::Access<C>>,
    depth: u32,
)
    requires
        depth <= MAX_NESTED_DEPTH,
        keys_distinct(old(members)@),
    ensures
        keys_distinct(final(members)@),
        forall|k: ID| #[trigger] has_key(final(members)@, k) <==> has_key(old(members)@, k) || reaches_individual(
            groups@,
            group_id,
            k,
            (MAX_NESTED_DEPTH - depth) as nat,
        ),
        exact_access_order::<C>() ==> forall|k: ID|
            #[trigger] entries_map(old(members)@).contains_key(k) ==> entries_map(final(members)@)[k] == entries_map(
                old(members)@,
            )[k] || access_lt(entries_map(old(members)@)[k], entries_map(final(members)@)[k]),
        exact_access_order::<C>() ==> forall|k: ID|
            #[trigger] entries_map(final(members)@).contains_key(k) && !(entries_map(old(members)@).contains_key(k)
                && entries_map(final(members)@)[k] == entries_map(old(members)@)[k]) ==> offers(
                groups@,
                group_id,
                k,
                root_access,
                (MAX_NESTED_DEPTH - depth) as nat,
                entries_map(final(members)@)[k],
            ),
        exact_access_order::<C>() ==> forall|k: ID, a: crate::group::access::Access<C>|
            #[trigger] offers(groups@, group_id, k, root_access, (MAX_NESTED_DEPTH - depth) as nat, a)
                ==> entries_map(final(members)@).contains_key(k) && !access_lt(entries_map(final(members)@)[k], a),
    decreases MAX_NESTED_DEPTH - depth,
{
    let ghost s0 = members@;
    let ghost m0 = entries_map(s0);
    let ghost fuel = (MAX_NESTED_DEPTH - depth) as nat;
    let ghost exact = exact_access_order::<C>();
    proof {
        if exact {
            lemma_access_lt_strict_order::<C>();
        }
    }
    if depth == MAX_NESTED_DEPTH {
        return;
    }
    let next_depth = depth + 1;
    let group = match groups.get(&group_id) {
        Some(group) => group,
        None => {
            return;
        },
    };
    let ids = group.members();
    let ghost view = groups@[group_id];
    let mut i: usize = 0;
    while i < ids.len()
        invariant
            i <= ids@.len(),
            depth < MAX_NESTED_DEPTH,
            next_depth == depth + 1,
            fuel == (MAX_NESTED_DEPTH - depth) as nat,
            group@ == view,
            groups@.contains_key(group_id) && groups@[group_id] == view,
            forall|k: GroupMember<ID>| #[trigger] ids@.contains(k) <==> (view.contains_key(k) && is_member_spec(view[k])),
            keys_distinct(members@),
            m0 == entries_map(s0),
            exact == exact_access_order::<C>(),
            exact ==> forall|a: crate::group::access::Access<C>| !#[trigger] access_lt(a, a),
            exact ==> forall|a: crate::group::access::Access<C>, b: crate::group::access::Access<C>, c: crate::group::access::Access<C>|
                #[trigger] access_lt(a, b) && #[trigger] access_lt(b, c) ==> access_lt(a, c),
            forall|k: ID|
                #[trigger] has_key(members@, k) <==> has_key(s0, k) || exists|j: int|
                    0 <= j < i && (ids@[j] == GroupMember::Individual(k) || (#[trigger] ids@[j] is Group
                        && reaches_individual(groups@, member_id(ids@[j]), k, (fuel - 1) as nat))),
            exact ==> forall|k: ID|
                #[trigger] m0.contains_key(k) ==> entries_map(members@)[k] == m0[k] || access_lt(m0[k], entries_map(members@)[k]),
            exact ==> forall|k: ID|
                #[trigger] entries_map(members@).contains_key(k) && !(m0.contains_key(k) && entries_map(members@)[k] == m0[k])
                    ==> exists|j: int|
                    0 <= j < i && #[trigger] offered_via(
                        groups@,
                        ids@[j],
                        view[ids@[j]].access,
                        k,
                        root_access,
                        (fuel - 1) as nat,
                        entries_map(members@)[k],
                    ),
            exact ==> forall|j: int, k: ID, a: crate::group::access::Access<C>|
                0 <= j < i && #[trigger] offered_via(groups@, ids@[j], view[ids@[j]].access, k, root_access, (fuel - 1) as nat, a)
                    ==> entries_map(members@).contains_key(k) && !access_lt(entries_map(members@)[k], a),
        decreases ids@.len() - i,
    {
        let member = ids[i];
        let ghost before = members@;
        let ghost mb = entries_map(before);
        let state = match group.get(&member) {
            Some(state) => state,
            None => {
                proof {
                    assert(ids@.contains(member));
                }
                return;
            },
        };
        let access = copy_access(&state.access);
        let next_access = match &root_access {
            Some(root) => if access_less_than(&access, root) || access_equals(&access, root) {
                access
            } else {
                copy_access(root)
            },
            None => access,
        };
        proof {
            if exact {
                lemma_access_cloned_exact(state.access, access);
                if root_access is Some && !(access_lt(access, root_access->0) || access_eq(access, root_access->0)) {
                    lemma_access_cloned_exact(root_access->0, next_access);
                }
                assert(next_access == capped(view[member].access, root_access));
            }
        }
        match member {
            GroupMember::Individual(id) => {
                record_access(members, id, next_access);
            },
            GroupMember::Group(sub_group) => {
                collect_members(groups, sub_group, members, Some(next_access), next_depth);
            },
        }
        proof {
            assert forall|k: ID|
                #[trigger] has_key(members@, k) <==> has_key(s0, k) || exists|j: int|
                    0 <= j < i + 1 && (ids@[j] == GroupMember::Individual(k) || (#[trigger] ids@[j] is Group
                        && reaches_individual(groups@, member_id(ids@[j]), k, (fuel - 1) as nat))) by {
                if has_key(before, k) {
                    let j = choose|j: int|
                        0 <= j < i && (ids@[j] == GroupMember::Individual(k) || (#[trigger] ids@[j] is Group
                            && reaches_individual(groups@, member_id(ids@[j]), k, (fuel - 1) as nat)));
                }
                if exists|j: int|
                    0 <= j < i + 1 && (ids@[j] == GroupMember::Individual(k) || (#[trigger] ids@[j] is Group
                        && reaches_individual(groups@, member_id(ids@[j]), k, (fuel - 1) as nat))) {
                    let j = choose|j: int|
                        0 <= j < i + 1 && (ids@[j] == GroupMember::Individual(k) || (#[trigger] ids@[j] is Group
                            && reaches_individual(groups@, member_id(ids@[j]), k, (fuel - 1) as nat)));
                    if j < i {
                        assert(has_key(before, k));
                    }
                }
            }
            if exact {
                let ma = entries_map(members@);
                // Every access level only grew during this step.
                assert forall|k: ID| #[trigger] mb.contains_key(k) implies ma[k] == mb[k] || access_lt(mb[k], ma[k]) by {
                    match member {
                        GroupMember::Individual(id) => {
                            if k != id {
                                assert(ma[k] == mb[k]);
                            }
                        },
                        GroupMember::Group(_) => {},
                    }
                }
                assert forall|k: ID| #[trigger] m0.contains_key(k) implies ma[k] == m0[k] || access_lt(m0[k], ma[k]) by {
                    assert(mb.contains_key(k));
                    assert(ma[k] == mb[k] || access_lt(mb[k], ma[k]));
                }
                assert forall|k: ID|
                    #[trigger] ma.contains_key(k) && !(m0.contains_key(k) && ma[k] == m0[k]) implies exists|j: int|
                        0 <= j < i + 1 && #[trigger] offered_via(
                            groups@,
                            ids@[j],
                            view[ids@[j]].access,
                            k,
                            root_access,
                            (fuel - 1) as nat,
                            ma[k],
                        ) by {
                    if mb.contains_key(k) && ma[k] == mb[k] {
                        let j = choose|j: int|
                            0 <= j < i && #[trigger] offered_via(
                                groups@,
                                ids@[j],
                                view[ids@[j]].access,
                                k,
                                root_access,
                                (fuel - 1) as nat,
                                mb[k],
                            );
                    } else {
                        assert(offered_via(groups@, ids@[i as int], view[ids@[i as int]].access, k, root_access, (fuel - 1) as nat, ma[k]));
                    }
                }
                assert forall|j: int, k: ID, a: crate::group::access::Access<C>|
                    0 <= j < i + 1 && #[trigger] offered_via(
                        groups@,
                        ids@[j],
                        view[ids@[j]].access,
                        k,
                        root_access,
                        (fuel - 1) as nat,
                        a,
                    ) implies ma.contains_key(k) && !access_lt(ma[k], a) by {
                    if j < i {
                        assert(mb.contains_key(k) && !access_lt(mb[k], a));
                        assert(has_key(before, k));
                        assert(has_key(members@, k));
                        assert(ma[k] == mb[k] || access_lt(mb[k], ma[k]));
                        if access_lt(ma[k], a) && ma[k] != mb[k] {
                            assert(access_lt(mb[k], a));
                        }
                    } else {
                        assert(ids@[j] == member);
                        match member {
                            GroupMember::Individual(id) => {
                                assert(k == id);
                                assert(a == next_access);
                                assert(!access_lt(next_access, next_access));
                            },
                            GroupMember::Group(sub_group) => {
                                assert((fuel - 1) as nat == (MAX_NESTED_DEPTH - next_depth) as nat);
                                assert(offers(groups@, sub_group, k, Some(next_access), (MAX_NESTED_DEPTH - next_depth) as nat, a));
                            },
                        }
                    }
                }
            }
        }
        i = i + 1;
    }
    proof {
        assert forall|k: ID| #[trigger] has_key(members@, k) <==> has_key(s0, k) || reaches_individual(
            groups@,
            group_id,
            k,
            fuel,
        ) by {
            if reaches_individual(groups@, group_id, k, fuel) {
                if view.contains_key(GroupMember::Individual(k)) && is_member_spec(view[GroupMember::Individual(k)]) {
                    assert(ids@.contains(GroupMember::Individual(k)));
                    let j = choose|j: int| 0 <= j < ids@.len() && ids@[j] == GroupMember::Individual(k);
                    assert(ids@[j] == GroupMember::Individual(k));
                } else {
                    let h = choose|h: ID|
                        #![trigger view[GroupMember::Group(h)]]
                        view.contains_key(GroupMember::Group(h)) && is_member_spec(view[GroupMember::Group(h)])
                            && reaches_individual(groups@, h, k, (fuel - 1) as nat);
                    assert(ids@.contains(GroupMember::Group(h)));
                    let j = choose|j: int| 0 <= j < ids@.len() && ids@[j] == GroupMember::Group(h);
                    assert(ids@[j] is Group && member_id(ids@[j]) == h);
                }
            }
            if exists|j: int|
                0 <= j < ids@.len() && (ids@[j] == GroupMember::Individual(k) || (#[trigger] ids@[j] is Group
                    && reaches_individual(groups@, member_id(ids@[j]), k, (fuel - 1) as nat))) {
                let j = choose|j: int|
                    0 <= j < ids@.len() && (ids@[j] == GroupMember::Individual(k) || (#[trigger] ids@[j] is Group
                        && reaches_individual(groups@, member_id(ids@[j]), k, (fuel - 1) as nat)));
                assert(ids@.contains(ids@[j]));
                if ids@[j] != GroupMember::Individual(k) {
                    let h = member_id(ids@[j]);
                    assert(ids@[j] == GroupMember::Group(h));
                    assert(view.contains_key(GroupMember::Group(h)) && is_member_spec(view[GroupMember::Group(h)]));
                }
            }
        }
        if exact {
            let ma = entries_map(members@);
            assert forall|k: ID|
                #[trigger] ma.contains_key(k) && !(m0.contains_key(k) && ma[k] == m0[k]) implies offers(
                    groups@,
                    group_id,
                    k,
                    root_access,
                    fuel,
                    ma[k],
                ) by {
                let j = choose|j: int|
                    0 <= j < ids@.len() && #[trigger] offered_via(
                        groups@,
                        ids@[j],
                        view[ids@[j]].access,
                        k,
                        root_access,
                        (fuel - 1) as nat,
                        ma[k],
                    );
                assert(ids@.contains(ids@[j]));
                assert(groups@[group_id][ids@[j]] == view[ids@[j]]);
            }
            assert forall|k: ID, a: crate::group::access::Access<C>|
                #[trigger] offers(groups@, group_id, k, root_access, fuel, a) implies ma.contains_key(k) && !access_lt(ma[k], a) by {
                let m = choose|m: GroupMember<ID>|
                    #![trigger groups@[group_id][m]]
                    groups@[group_id].contains_key(m) && is_member_spec(groups@[group_id][m]) && offered_via(
                        groups@,
                        m,
                        groups@[group_id][m].access,
                        k,
                        root_access,
                        (fuel - 1) as nat,
                        a,
                    );
                assert(ids@.contains(m));
                let j = choose|j: int| 0 <= j < ids@.len() && ids@[j] == m;
                assert(offered_via(groups@, ids@[j], view[ids@[j]].access, k, root_access, (fuel - 1) as nat, a));
            }
        }
    }
}

/// With exact clones, a cloned access level is the same access level.
proof fn lemma_access_cloned_exact<C: Clone>(a: crate::group::access::Access<C>, b: crate::group::access::Access<C>)
    requires
        clones_exact::<C>(),
        access_cloned(a, b),
    ensures
        a == b,
{
    match (a, b) {
        (
            crate::group::access::Access::Write { conditions: Some(p) },
            crate::group::access::Access::Write { conditions: Some(q) },
        ) => {
            assert(cloned(p, q));
        },
        _ => {},
    }
}

/// `reported` is the access level reported for individual `k` as a member of group `g`: the
/// report of a level offered to `k` through a chain of groups, which no level offered to `k` is
/// greater than.
pub open spec fn greatest_offer<ID, C: Clone + PartialOrd + PartialEq>(
    groups: Map<ID, MembersView<ID, C>>,
    g: ID,
    k: ID,
    reported: Access<C>,
) -> bool {
    exists|v: crate::group::access::Access<C>|
        #![trigger offers(groups, g, k, None, MAX_NESTED_DEPTH as nat, v)]
        reported_access(v, reported) && offers(groups, g, k, None, MAX_NESTED_DEPTH as nat, v) && forall|
            a: crate::group::access::Access<C>,
        | #[trigger] offers(groups, g, k, None, MAX_NESTED_DEPTH as nat, a) ==> !access_lt(v, a)
}

/// `r` lists the entries of `found` with their access levels as reported.
pub open spec fn reported_entries<ID, C: Clone>(
    found: Seq<(ID, crate::group::access::Access<C>)>,
    r: Seq<(ID, Access<C>)>,
) -> bool {
    &&& r.len() == found.len()
    &&& forall|j: int| 0 <= j < r.len() ==> (#[trigger] r[j]).0 == found[j].0 && reported_access(found[j].1, r[j].1)
}

/// The entries of `found` with their access levels as reported.
fn report_entries<ID: Copy, C: Clone>(found: &Vec<(ID, crate::group::access::Access<C>)>) -> (r: Vec<(ID, Access<C>)>)
    ensures
        reported_entries(found@, r@),
{
    let mut out: Vec<(ID, Access<C>)> = Vec::new();
    let mut i: usize = 0;
    while i < found.len()
        invariant
            i <= found@.len(),
            out@.len() == i,
            forall|j: int| 0 <= j < i ==> (#[trigger] out@[j]).0 == found@[j].0 && reported_access(found@[j].1, out@[j].1),
        decreases found@.len() - i,
    {
        out.push((found[i].0, action_access(&found[i].1)));
        i = i + 1;
    }
    out
}

proof fn lemma_reported_keys<ID, C: Clone>(found: Seq<(ID, crate::group::access::Access<C>)>, r: Seq<(ID, Access<C>)>)
    requires
        reported_entries(found, r),
        keys_distinct(found),
    ensures
        keys_distinct(r),
        forall|k: ID| #[trigger] has_key(r, k) == has_key(found, k),
{
    assert forall|a: int, b: int| 0 <= a < r.len() && 0 <= b < r.len() && a != b implies r[a].0 != r[b].0 by {
        assert(r[a].0 == found[a].0);
        assert(r[b].0 == found[b].0);
    }
    assert forall|k: ID| #[trigger] has_key(r, k) == has_key(found, k) by {
        if has_key(r, k) {
            let j = choose|j: int| 0 <= j < r.len() && r[j].0 == k;
            assert(found[j].0 == r[j].0);
        }
        if has_key(found, k) {
            let j = choose|j: int| 0 <= j < found.len() && found[j].0 == k;
            assert(r[j].0 == found[j].0);
        }
    }
}

impl<ID: IdentityHandle, C: Clone + PartialOrd + PartialEq, M> GroupCrdtInnerState<ID, C, M> {
    /// Get all current members of a group: its individual members, and those of its sub-groups
    /// through a chain of at most `MAX_NESTED_DEPTH` groups, each once, with the greatest access
    /// level found, where the members of a sub-group hold at most the access level of the
    /// sub-group.
    pub fn members(&self, group_id: ID) -> (r: Vec<(ID, Access<C>)>)
        requires
            tips_recorded(*self),
        ensures
            keys_distinct(r@),
            conditions_ordered::<C>() && clones_exact::<C>() ==> forall|k: ID| #[trigger] has_key(r@, k) <==> reaches_individual(
                merged_view(self.states@, tips(self.graph)),
                group_id,
                k,
                MAX_NESTED_DEPTH as nat,
            ),
            exact_access_order::<C>() ==> forall|j: int|
                0 <= j < r@.len() ==> greatest_offer(
                    merged_view(self.states@, tips(self.graph)),
                    group_id,
                    (#[trigger] r@[j]).0,
                    r@[j].1,
                ),
    {
        let state = self.current_state();
        let mut found: Vec<(ID, crate::group::access::Access<C>)> = Vec::new();
        proof {
            assert(entries_map(found@) =~= Map::<ID, crate::group::access::Access<C>>::empty());
        }
        collect_members(&state, group_id, &mut found, None, 0);
        let r = report_entries(&found);
        proof {
            lemma_reported_keys(found@, r@);
            if exact_access_order::<C>() {
                assert forall|j: int| 0 <= j < r@.len() implies greatest_offer(
                    merged_view(self.states@, tips(self.graph)),
                    group_id,
                    (#[trigger] r@[j]).0,
                    r@[j].1,
                ) by {
                    lemma_entries_map_index(found@, j);
                    let k = found@[j].0;
                    assert(entries_map(found@).contains_key(k));
                    assert(offers(state@, group_id, k, None, MAX_NESTED_DEPTH as nat, found@[j].1));
                }
            }
        }
        r
    }

    /// Whether the operation would create a cycle of nested groups in the current state: it adds
    /// a group from which its own group can be reached through sub-groups.
    pub(crate) fn would_create_cycle<O: Operation<ID, u32, C>>(&self, operation: &O) -> (r: bool)
        requires
            tips_recorded(*self),
        ensures
            conditions_ordered::<C>() && clones_exact::<C>() ==> r == closes_cycle(
                merged_view(self.states@, tips(self.graph)),
                operation.operation_group(),
                operation.operation_action(),
            ),
    {
        let state = self.current_state();
        state.would_create_cycle(operation.group_id(), operation.action())
    }
}

impl<ID: IdentityHandle, C: Clone + PartialOrd + PartialEq, ORD: Orderer<ID, u32, GroupControlMessage<ID, C>>> GroupCrdtState<
    ID,
    C,
    ORD,
> {
    /// Get all direct members of a group with their access levels: the active members in the
    /// group's current state, individuals and sub-groups, without recursing into sub-groups.
    pub fn root_members(&self, group_id: ID) -> (r: Vec<(GroupMember<ID>, Access<C>)>)
        requires
            tips_recorded(self.inner),
        ensures
            keys_distinct(r@),
            !merged_groups(self.inner.states@, tips(self.inner.graph)).contains(group_id) ==> r@.len() == 0,
            conditions_ordered::<C>() && clones_exact::<C>() ==> {
                let current = merged_view(self.inner.states@, tips(self.inner.graph));
                &&& forall|m: GroupMember<ID>|
                    #[trigger] has_key(r@, m) <==> (current.contains_key(group_id) && current[group_id].contains_key(m)
                        && is_member_spec(current[group_id][m]))
                &&& forall|j: int|
                    0 <= j < r@.len() ==> reported_access(current[group_id][(#[trigger] r@[j]).0].access, r@[j].1)
            },
    {
        let state = self.inner.current_state();
        match state.get(&group_id) {
            Some(group) => {
                let ids = group.members();
                let mut found: Vec<(GroupMember<ID>, crate::group::access::Access<C>)> = Vec::new();
                let mut i: usize = 0;
                while i < ids.len()
                    invariant
                        i <= ids@.len(),
                        ids@.no_duplicates(),
                        found@.len() == i,
                        forall|k: GroupMember<ID>| #[trigger] ids@.contains(k) <==> (group@.contains_key(k) && is_member_spec(group@[k])),
                        forall|j: int| 0 <= j < i ==> (#[trigger] found@[j]).0 == ids@[j] && access_cloned(group@[ids@[j]].access, found@[j].1),
                    decreases ids@.len() - i,
                {
                    let member = ids[i];
                    let access = match group.get(&member) {
                        Some(m) => copy_access(&m.access),
                        None => {
                            proof {
                                assert(ids@.contains(member));
                            }
                            crate::group::access::Access::Pull
                        },
                    };
                    found.push((member, access));
                    i = i + 1;
                }
                proof {
                    assert forall|a: int, b: int| 0 <= a < found@.len() && 0 <= b < found@.len() && a != b implies found@[a].0
                        != found@[b].0 by {
                        assert(found@[a].0 == ids@[a]);
                        assert(found@[b].0 == ids@[b]);
                    }
                    assert forall|k: GroupMember<ID>| #[trigger] has_key(found@, k) == ids@.contains(k) by {
                        if has_key(found@, k) {
                            let j = choose|j: int| 0 <= j < found@.len() && found@[j].0 == k;
                            assert(ids@[j] == k);
                        }
                        if ids@.contains(k) {
                            let j = choose|j: int| 0 <= j < ids@.len() && ids@[j] == k;
                            assert(found@[j].0 == k);
                        }
                    }
                }
                let r = report_entries(&found);
                proof {
                    lemma_reported_keys(found@, r@);
                    if clones_exact::<C>() {
                        assert forall|j: int| 0 <= j < r@.len() implies reported_access(
                            group@[(#[trigger] r@[j]).0].access,
                            r@[j].1,
                        ) by {
                            assert(r@[j].0 == found@[j].0);
                            assert(ids@.contains(ids@[j]));
                            lemma_access_cloned_exact(group@[ids@[j]].access, found@[j].1);
                        }
                    }
                }
                r
            },
            None => Vec::new(),
        }
    }

    /// Get all transitive members of a group: see `GroupCrdtInnerState::members`.
    pub fn members(&self, group_id: ID) -> (r: Vec<(ID, Access<C>)>)
        requires
            tips_recorded(self.inner),
        ensures
            keys_distinct(r@),
            conditions_ordered::<C>() && clones_exact::<C>() ==> forall|k: ID| #[trigger] has_key(r@, k) <==> reaches_individual(
                merged_view(self.inner.states@, tips(self.inner.graph)),
                group_id,
                k,
                MAX_NESTED_DEPTH as nat,
            ),
            exact_access_order::<C>() ==> forall|j: int|
                0 <= j < r@.len() ==> greatest_offer(
                    merged_view(self.inner.states@, tips(self.inner.graph)),
                    group_id,
                    (#[trigger] r@[j]).0,
                    r@[j].1,
                ),
    {
        self.inner.members(group_id)
    }

    /// Returns `true` if the passed group exists in the current state.
    pub fn has_group(&self, group_id: ID) -> (r: bool)
        requires
            tips_recorded(self.inner),
        ensures
            r == merged_groups(self.inner.states@, tips(self.inner.graph)).contains(group_id),
    {
        let state = self.inner.current_state();
        state.get(&group_id).is_some()
    }
}

/// Error types for `GroupCrdt`.
#[derive(Debug)]
pub enum GroupCrdtError<ID, OP, RE, OE> {
    /// Group states of some operations are not known.
    Inner(GroupCrdtInnerError<OP>),
    /// The operation was processed before, in the given group.
    DuplicateOperation(OP, ID),
    /// Adding the second group to the first would create a cycle of nested groups.
    GroupCycle(ID, ID, OP),
    /// The membership rules refuse the operation's action.
    StateChangeError(OP, GroupMembershipError<GroupMember<ID>>),
    /// Groups cannot be given `Manage` access.
    ManagerGroupsNotAllowed(ID),
    /// The operation's action cannot be applied: its group is not known, or a counter of the
    /// group's members has reached its limit.
    ActionNotApplicable(OP),
    /// Error of the orderer.
    Orderer(OE),
    /// Error of the resolver.
    Resolver(RE),
}

/// The action adds a group with `Manage` access or promotes a group to it.
pub open spec fn manager_group_action<ID, C>(action: GroupAction<ID, C>) -> bool {
    match action {
        GroupAction::Add { member, access } => member is Group && access.level == AccessLevel::Manage,
        GroupAction::Promote { member, access } => member is Group && access.level == AccessLevel::Manage,
        _ => false,
    }
}

/// Identifier of the member an `Add` or `Promote` action is about.
pub open spec fn changed_member<ID, C>(action: GroupAction<ID, C>) -> ID {
    match action {
        GroupAction::Add { member, .. } => member_id(member),
        GroupAction::Promote { member, .. } => member_id(member),
        _ => vstd::pervasive::arbitrary(),
    }
}

/// The action can be applied to the groups: it creates a group, or its group is known and no
/// counter of the group's members has reached its limit.
pub open spec fn applicable_to<ID, C>(groups: Map<ID, MembersView<ID, C>>, group_id: ID, action: GroupAction<ID, C>) -> bool {
    action is Create || (groups.contains_key(group_id) && counters_below_limit(groups[group_id]))
}

/// What checking operation `id` by `actor` against the group states `groups` reports: a cycle of
/// nested groups, an action that cannot be applied, or the membership rules' refusal, unless the
/// operation is ignored.
pub open spec fn check_result<ID, C: Clone + PartialEq, RE, OE>(
    groups: Map<ID, MembersView<ID, C>>,
    ignore: Seq<u32>,
    id: u32,
    group_id: ID,
    actor: ID,
    action: GroupAction<ID, C>,
) -> Option<GroupCrdtError<ID, u32, RE, OE>> {
    if closes_cycle(groups, group_id, action) {
        Some(GroupCrdtError::GroupCycle(group_id, changed_member(action), id))
    } else if !applicable_to(groups, group_id, action) {
        Some(GroupCrdtError::ActionNotApplicable(id))
    } else if ignore.contains(id) {
        None
    } else {
        match change_error(base_of(groups, group_id, action), actor, action) {
            Some(e) => Some(GroupCrdtError::StateChangeError(id, e)),
            None => None,
        }
    }
}

/// Counters which have not reached their limit can all still be increased.
pub(crate) proof fn lemma_counters_fit<ID, C: Clone + PartialEq>(s: MembersView<ID, C>, actor: ID, action: GroupAction<ID, C>)
    requires
        counters_below_limit(s),
    ensures
        change_fits(s, actor, action),
{
}

/// Returns `true` if the action can be applied to the group states.
pub(crate) fn action_applicable<ID: IdentityHandle, C>(groups: &GroupStates<ID, C>, group_id: ID, action: &GroupAction<ID, C>) -> (r: bool)
    ensures
        r == applicable_to(groups@, group_id, *action),
{
    if action.is_create() {
        return true;
    }
    match groups.get(&group_id) {
        Some(members) => members.counters_fit(),
        None => false,
    }
}

/// The two lists hold the same nodes.
pub(crate) fn same_nodes(a: &Vec<u32>, b: &Vec<u32>) -> (r: bool)
    ensures
        r == (a@.to_set() == b@.to_set()),
{
    let mut i: usize = 0;
    while i < a.len()
        invariant
            i <= a@.len(),
            forall|j: int| 0 <= j < i ==> b@.contains(#[trigger] a@[j]),
        decreases a@.len() - i,
    {
        if !contains_node(b, a[i]) {
            proof {
                assert(a@.to_set().contains(a@[i as int]));
                assert(!b@.to_set().contains(a@[i as int]));
            }
            return false;
        }
        i = i + 1;
    }
    let mut k: usize = 0;
    while k < b.len()
        invariant
            k <= b@.len(),
            forall|j: int| 0 <= j < a@.len() ==> b@.contains(#[trigger] a@[j]),
            forall|j: int| 0 <= j < k ==> a@.contains(#[trigger] b@[j]),
        decreases b@.len() - k,
    {
        if !contains_node(a, b[k]) {
            proof {
                assert(b@.to_set().contains(b@[k as int]));
                assert(!a@.to_set().contains(b@[k as int]));
            }
            return false;
        }
        k = k + 1;
    }
    proof {
        assert forall|x: u32| #[trigger] a@.to_set().contains(x) == b@.to_set().contains(x) by {
            if a@.contains(x) {
                let j = choose|j: int| 0 <= j < a@.len() && a@[j] == x;
                assert(b@.contains(a@[j]));
            }
            if b@.contains(x) {
                let j = choose|j: int| 0 <= j < b@.len() && b@[j] == x;
                assert(a@.contains(b@[j]));
            }
        }
        assert(a@.to_set() =~= b@.to_set());
    }
    true
}

impl<ID: IdentityHandle, C: Clone + PartialOrd + PartialEq, M> GroupCrdtInnerState<ID, C, M> {
    /// Check operation `id` by `actor` against the current group states: does it create a cycle
    /// of nested groups, can it be applied, and do the membership rules accept it?
    fn check_operation<RE, OE>(&self, id: u32, group_id: ID, actor: ID, action: &GroupAction<ID, C>) -> (r: Option<
        GroupCrdtError<ID, u32, RE, OE>,
    >)
        ensures
            !tips_recorded(*self) ==> (r matches Some(GroupCrdtError::Inner(GroupCrdtInnerError::StatesNotFound(ops)))
                && ops@ == tips(self.graph)),
            tips_recorded(*self) && conditions_ordered::<C>() && clones_exact::<C>() ==> r == check_result::<
                ID,
                C,
                RE,
                OE,
            >(merged_view(self.states@, tips(self.graph)), self.ignore@, id, group_id, actor, *action),
    {
        let heads = self.tip_list();
        let state = match self.states.state_at(heads.as_slice()) {
            Ok(state) => state,
            Err(e) => {
                proof {
                    let i = choose|i: int| 0 <= i < heads@.len() && !self.states@.contains_key(#[trigger] heads@[i]);
                    assert(is_sink(self.graph, heads@[i]));
                }
                return Some(GroupCrdtError::Inner(e));
            },
        };
        proof {
            assert forall|n: u32| #[trigger] is_sink(self.graph, n) implies self.states@.contains_key(n) by {
                assert(heads@.contains(n));
                let i = choose|i: int| 0 <= i < heads@.len() && heads@[i] == n;
                assert(self.states@.contains_key(heads@[i]));
            }
        }
        if state.would_create_cycle(group_id, action) {
            let child = match action {
                GroupAction::Add { member, .. } => member.id(),
                _ => {
                    proof {
                        assert(false);
                    }
                    group_id
                },
            };
            return Some(GroupCrdtError::GroupCycle(group_id, child, id));
        }
        if !action_applicable(&state, group_id, action) {
            return Some(GroupCrdtError::ActionNotApplicable(id));
        }
        proof {
            if !(*action is Create) {
                lemma_counters_fit(state@[group_id], actor, *action);
            }
        }
        match apply_action(state, group_id, id, actor, action, self.ignore.as_slice()) {
            StateChangeResult::Error { error, .. } => Some(GroupCrdtError::StateChangeError(id, error)),
            _ => None,
        }
    }
}

/// Position of the first entry with key `k`.
pub open spec fn first_key_index<V>(s: Seq<(u32, V)>, k: u32) -> int {
    choose|i: int| 0 <= i < s.len() && s[i].0 == k && forall|j: int| 0 <= j < i ==> s[j].0 != k
}

/// The entries with `(k, v)` in place of the first entry with key `k`, or appended when there is
/// none.
pub open spec fn put_entry<V>(s: Seq<(u32, V)>, k: u32, v: V) -> Seq<(u32, V)> {
    if has_key(s, k) {
        s.update(first_key_index(s, k), (k, v))
    } else {
        s.push((k, v))
    }
}

/// Position of the first entry with key `k`, if any.
pub(crate) fn first_entry<V>(entries: &Vec<(u32, V)>, k: u32) -> (r: Option<usize>)
    ensures
        match r {
            Some(i) => has_key(entries@, k) && i == first_key_index(entries@, k) && i < entries@.len(),
            None => !has_key(entries@, k),
        },
{
    let mut i: usize = 0;
    while i < entries.len()
        invariant
            i <= entries@.len(),
            forall|j: int| 0 <= j < i ==> entries@[j].0 != k,
        decreases entries@.len() - i,
    {
        if entries[i].0 == k {
            proof {
                let s = entries@;
                assert(has_key(s, k));
                let f = first_key_index(s, k);
                assert(0 <= f < s.len() && s[f].0 == k && forall|j: int| 0 <= j < f ==> s[j].0 != k);
                if f < i {
                    assert(s[f].0 != k);
                }
                if f > i {
                    assert(s[i as int].0 != k);
                }
            }
            return Some(i);
        }
        i = i + 1;
    }
    None
}

/// Place `(k, v)` in the first entry with key `k`, or append it.
fn put_operation<V>(entries: &mut Vec<(u32, V)>, k: u32, v: V)
    ensures
        final(entries)@ == put_entry(old(entries)@, k, v),
{
    match first_entry(entries, k) {
        Some(i) => {
            entries.set(i, (k, v));
        },
        None => {
            entries.push((k, v));
        },
    }
}

/// The nodes of `s` with `n` added, as a set.
proof fn lemma_with_node(s: Seq<u32>, n: u32)
    ensures
        with_node(s, n).to_set() == s.to_set().insert(n),
{
    assert forall|x: u32| #[trigger] with_node(s, n).to_set().contains(x) == s.to_set().insert(n).contains(x) by {
        if !s.contains(n) {
            if s.push(n).contains(x) {
                let j = choose|j: int| 0 <= j < s.push(n).len() && s.push(n)[j] == x;
                if j < s.len() {
                    assert(s[j] == x);
                }
            }
            if s.contains(x) {
                let j = choose|j: int| 0 <= j < s.len() && s[j] == x;
                assert(s.push(n)[j] == x);
            }
            if x == n {
                assert(s.push(n)[s.len() as int] == x);
            }
        }
    }
    assert(with_node(s, n).to_set() =~= s.to_set().insert(n));
}

/// The graph edges added for an operation: one from each dependency to the operation.
pub open spec fn dependency_edges(id: u32, dependencies: Seq<u32>) -> Set<(u32, u32)> {
    dependencies.to_set().map(|d: u32| (d, id))
}

impl<ID: IdentityHandle, C, M: Operation<ID, u32, C>> GroupCrdtInnerState<ID, C, M> {
    /// Add an operation to the auth graph and operation map.
    ///
    /// The operation is not processed: no new state is derived.
    fn add_operation(self, operation: M) -> (r: Self)
        ensures
            r.operations@ == put_entry(self.operations@, operation.operation_id(), operation),
            r.ignore == self.ignore,
            r.mutual_removes == self.mutual_removes,
            r.states == self.states,
            graph_nodes(r.graph).to_set() == graph_nodes(self.graph).to_set().insert(operation.operation_id()).union(
                operation.operation_dependencies().to_set(),
            ),
            graph_edges(r.graph) == graph_edges(self.graph).union(
                dependency_edges(operation.operation_id(), operation.operation_dependencies()),
            ),
    {
        let ghost nodes0 = graph_nodes(self.graph);
        let ghost edges0 = graph_edges(self.graph);
        let id = operation.id();
        let dependencies = operation.dependencies();
        let GroupCrdtInnerState { mut operations, ignore, mutual_removes, states, mut graph } = self;
        insert_node(&mut graph, id);
        proof {
            lemma_with_node(nodes0, id);
            assert(dependencies@.take(0) =~= Seq::<u32>::empty());
            assert(graph_nodes(graph).to_set() =~= nodes0.to_set().insert(id).union(dependencies@.take(0).to_set()));
            assert(graph_edges(graph) =~= edges0.union(dependency_edges(id, dependencies@.take(0))));
        }
        let mut k: usize = 0;
        while k < dependencies.len()
            invariant
                k <= dependencies@.len(),
                graph_nodes(graph).to_set() == nodes0.to_set().insert(id).union(dependencies@.take(k as int).to_set()),
                graph_edges(graph) == edges0.union(dependency_edges(id, dependencies@.take(k as int))),
            decreases dependencies@.len() - k,
        {
            let d = dependencies[k];
            let ghost before = graph_nodes(graph);
            insert_edge(&mut graph, d, id);
            proof {
                lemma_with_node(before, d);
                lemma_with_node(with_node(before, d), id);
                let prev = dependencies@.take(k as int);
                let next = dependencies@.take(k + 1);
                assert(next =~= prev.push(d));
                assert(next.to_set() =~= prev.to_set().insert(d)) by {
                    assert forall|x: u32| #[trigger] next.to_set().contains(x) == prev.to_set().insert(d).contains(x) by {
                        if next.contains(x) {
                            let j = choose|j: int| 0 <= j < next.len() && next[j] == x;
                            if j < prev.len() {
                                assert(prev[j] == x);
                            }
                        }
                        if prev.contains(x) {
                            let j = choose|j: int| 0 <= j < prev.len() && prev[j] == x;
                            assert(next[j] == x);
                        }
                        if x == d {
                            assert(next[k as int] == x);
                        }
                    }
                }
                assert(graph_nodes(graph).to_set() =~= nodes0.to_set().insert(id).union(next.to_set()));
                assert forall|e: (u32, u32)| #[trigger] dependency_edges(id, next).contains(e) == dependency_edges(
                    id,
                    prev,
                ).insert((d, id)).contains(e) by {
                    if dependency_edges(id, next).contains(e) {
                        let x = choose|x: u32| next.to_set().contains(x) && (x, id) == e;
                        if x != d {
                            assert(prev.to_set().contains(x));
                        }
                    }
                    if dependency_edges(id, prev).contains(e) {
                        let x = choose|x: u32| prev.to_set().contains(x) && (x, id) == e;
                        assert(next.to_set().contains(x));
                    }
                    if e == (d, id) {
                        assert(next.to_set().contains(d));
                    }
                }
                assert(dependency_edges(id, next) =~= dependency_edges(id, prev).insert((d, id)));
                assert(graph_edges(graph) =~= edges0.union(dependency_edges(id, next)));
            }
            k = k + 1;
        }
        proof {
            assert(dependencies@.take(dependencies@.len() as int) =~= dependencies@);
        }
        put_operation(&mut operations, id, operation);
        GroupCrdtInnerState { operations, ignore, mutual_removes, states, graph }
    }
}

/// `z` is `inner` with `operation` added to the operations and the graph; filter, mutual removes
/// and states unchanged.
pub open spec fn added_operation<ID: Copy, C, M: Operation<ID, u32, C>>(
    inner: GroupCrdtInnerState<ID, C, M>,
    operation: M,
    z: GroupCrdtInnerState<ID, C, M>,
) -> bool {
    &&& z.operations@ == put_entry(inner.operations@, operation.operation_id(), operation)
    &&& z.ignore == inner.ignore
    &&& z.mutual_removes == inner.mutual_removes
    &&& graph_nodes(z.graph).to_set() == graph_nodes(inner.graph).to_set().insert(operation.operation_id()).union(
        operation.operation_dependencies().to_set(),
    )
    &&& graph_edges(z.graph) == graph_edges(inner.graph).union(
        dependency_edges(operation.operation_id(), operation.operation_dependencies()),
    )
}

/// All dependencies of the operation have a recorded state.
pub open spec fn dependencies_recorded<ID: Copy, C, M: Operation<ID, u32, C>>(inner: GroupCrdtInnerState<ID, C, M>, operation: M) -> bool {
    forall|i: int|
        0 <= i < operation.operation_dependencies().len() ==> inner.states@.contains_key(
            #[trigger] operation.operation_dependencies()[i],
        )
}

/// The merged group state at the operation's dependencies.
pub open spec fn state_before<ID: Copy, C: PartialOrd, M: Operation<ID, u32, C>>(inner: GroupCrdtInnerState<ID, C, M>, operation: M) -> Map<
    ID,
    MembersView<ID, C>,
> {
    merged_view(inner.states@, operation.operation_dependencies())
}

impl<ID: IdentityHandle, C: Clone + PartialOrd + PartialEq, M: Operation<ID, u32, C>> GroupCrdtInnerState<ID, C, M> {
    /// Process an operation which needs no rebuild of the group states: add it to the graph and
    /// the operations, and record the group states after it, which are the states at its
    /// dependencies with its action applied (an ignored or refused action changes nothing, a
    /// created group starts empty then).
    ///
    /// Fails when some dependency has no recorded state, and when the action cannot be applied.
    pub fn record_operation<RE, OE>(self, operation: M) -> (r: Result<Self, GroupCrdtError<ID, u32, RE, OE>>)
        ensures
            !dependencies_recorded(self, operation) ==> (r matches Err(
                GroupCrdtError::Inner(GroupCrdtInnerError::StatesNotFound(ops)),
            ) && ops@ == operation.operation_dependencies()),
            dependencies_recorded(self, operation) && conditions_ordered::<C>() && clones_exact::<C>() ==> {
                let base = state_before(self, operation);
                if applicable_to(base, operation.operation_group(), operation.operation_action()) {
                    r matches Ok(z) && {
                        &&& added_operation(self, operation, z)
                        &&& exists|res: StateChangeResult<ID, C>|
                            {
                                &&& apply_outcome(
                                    base,
                                    operation.operation_group(),
                                    operation.operation_id(),
                                    operation.operation_author(),
                                    operation.operation_action(),
                                    self.ignore@,
                                    res,
                                )
                                &&& z.states@ == self.states@.insert(operation.operation_id(), #[trigger] result_state(res)@)
                            }
                    }
                } else {
                    r == Err::<Self, GroupCrdtError<ID, u32, RE, OE>>(GroupCrdtError::ActionNotApplicable(operation.operation_id()))
                }
            },
            r matches Ok(z) ==> added_operation(self, operation, z) && z.states@.dom() == self.states@.dom().insert(
                operation.operation_id(),
            ) && forall|o: u32| o != operation.operation_id() && #[trigger] self.states@.contains_key(o) ==> z.states@[o] == self.states@[o],
            ready_to_record(self, operation) ==> (r matches Ok(z) ==> {
                &&& settled(z)
                &&& rebuild_ready(z.operations@, z.graph)
                &&& forall|x: u32| #[trigger] z.ignore@.contains(x) ==> graph_nodes(z.graph).contains(x)
            }),
    {
        let ghost before = self;
        let id = operation.id();
        let group_id = operation.group_id();
        let actor = operation.author();
        let dependencies = operation.dependencies();
        let groups = match self.states.state_at(dependencies.as_slice()) {
            Ok(groups) => groups,
            Err(e) => return Err(GroupCrdtError::Inner(e)),
        };
        if !action_applicable(&groups, group_id, operation.action()) {
            return Err(GroupCrdtError::ActionNotApplicable(id));
        }
        proof {
            if !(operation.operation_action() is Create) {
                lemma_counters_fit(groups@[group_id], actor, operation.operation_action());
            }
        }
        let result = apply_action(groups, group_id, id, actor, operation.action(), self.ignore.as_slice());
        let ghost res = result;
        let groups = match result {
            StateChangeResult::Applied { state } => state,
            StateChangeResult::Error { state, .. } => state,
            StateChangeResult::Filtered { state } => state,
        };
        proof {
            assert(groups == result_state(res));
        }
        let inner = self.add_operation(operation);
        let GroupCrdtInnerState { operations, ignore, mutual_removes, states, graph } = inner;
        let states = states.insert(id, groups);
        let z = GroupCrdtInnerState { operations, ignore, mutual_removes, states, graph };
        proof {
            if ready_to_record(before, operation) {
                assert(z.states@ =~= before.states@.insert(operation.operation_id(), result_state(res)@));
                lemma_record_settled(before, operation, z, res);
            }
        }
        Ok(z)
    }
}

/// The group state at some operations does not change when a state is recorded for an operation
/// outside them: the states of concurrent operations, neither of which depends on the other, are
/// the same whichever of them is recorded first.
pub proof fn lemma_state_at_independent<ID, C: PartialOrd>(
    states: Map<u32, Map<ID, MembersView<ID, C>>>,
    ids: Seq<u32>,
    other: u32,
    recorded: Map<ID, MembersView<ID, C>>,
)
    requires
        !ids.contains(other),
    ensures
        merged_view(states.insert(other, recorded), ids) == merged_view(states, ids),
        merged_groups(states.insert(other, recorded), ids) == merged_groups(states, ids),
    decreases ids.len(),
{
    if ids.len() > 0 {
        assert(!ids.drop_last().contains(other)) by {
            if ids.drop_last().contains(other) {
                let j = choose|j: int| 0 <= j < ids.drop_last().len() && ids.drop_last()[j] == other;
                assert(ids[j] == other);
            }
        }
        assert(ids.last() != other) by {
            assert(ids[ids.len() - 1] == ids.last());
        }
        lemma_state_at_independent(states, ids.drop_last(), other, recorded);
    }
    assert forall|g: ID| merged_groups(states.insert(other, recorded), ids).contains(g) == merged_groups(states, ids).contains(g) by {
        if merged_groups(states, ids).contains(g) {
            let i = choose|i: int| 0 <= i < ids.len() && #[trigger] states[ids[i]].contains_key(g);
            assert(ids[i] != other);
            assert(states.insert(other, recorded)[ids[i]].contains_key(g));
        }
        if merged_groups(states.insert(other, recorded), ids).contains(g) {
            let i = choose|i: int| 0 <= i < ids.len() && #[trigger] states.insert(other, recorded)[ids[i]].contains_key(g);
            assert(ids[i] != other);
            assert(states[ids[i]].contains_key(g));
        }
    }
    assert(merged_groups(states.insert(other, recorded), ids) =~= merged_groups(states, ids));
}

/// Concurrent operations are recorded in either order with the same result: when neither of two
/// operations depends on the other, recording the first and then the second (see
/// `record_operation`) gives the same group states as recording the second and then the first,
/// given exact clones and an equality of conditions which follows its specification.
pub proof fn lemma_records_commute<ID: Copy, C: Clone + PartialOrd + PartialEq, M: Operation<ID, u32, C>>(
    states: Map<u32, Map<ID, MembersView<ID, C>>>,
    ignore: Seq<u32>,
    a: M,
    b: M,
    a_first: StateChangeResult<ID, C>,
    b_second: StateChangeResult<ID, C>,
    b_first: StateChangeResult<ID, C>,
    a_second: StateChangeResult<ID, C>,
)
    requires
        a.operation_id() != b.operation_id(),
        !a.operation_dependencies().contains(b.operation_id()),
        !b.operation_dependencies().contains(a.operation_id()),
        clones_exact::<C>(),
        C::obeys_eq_spec(),
        apply_outcome(
            merged_view(states, a.operation_dependencies()),
            a.operation_group(),
            a.operation_id(),
            a.operation_author(),
            a.operation_action(),
            ignore,
            a_first,
        ),
        apply_outcome(
            merged_view(states.insert(a.operation_id(), result_state(a_first)@), b.operation_dependencies()),
            b.operation_group(),
            b.operation_id(),
            b.operation_author(),
            b.operation_action(),
            ignore,
            b_second,
        ),
        apply_outcome(
            merged_view(states, b.operation_dependencies()),
            b.operation_group(),
            b.operation_id(),
            b.operation_author(),
            b.operation_action(),
            ignore,
            b_first,
        ),
        apply_outcome(
            merged_view(states.insert(b.operation_id(), result_state(b_first)@), a.operation_dependencies()),
            a.operation_group(),
            a.operation_id(),
            a.operation_author(),
            a.operation_action(),
            ignore,
            a_second,
        ),
    ensures
        states.insert(a.operation_id(), result_state(a_first)@).insert(b.operation_id(), result_state(b_second)@)
            == states.insert(b.operation_id(), result_state(b_first)@).insert(a.operation_id(), result_state(a_second)@),
{
    lemma_state_at_independent(states, b.operation_dependencies(), a.operation_id(), result_state(a_first)@);
    lemma_state_at_independent(states, a.operation_dependencies(), b.operation_id(), result_state(b_first)@);
    lemma_apply_outcome_unique(
        merged_view(states, b.operation_dependencies()),
        b.operation_group(),
        b.operation_id(),
        b.operation_author(),
        b.operation_action(),
        ignore,
        b_second,
        b_first,
    );
    lemma_apply_outcome_unique(
        merged_view(states, a.operation_dependencies()),
        a.operation_group(),
        a.operation_id(),
        a.operation_author(),
        a.operation_action(),
        ignore,
        a_first,
        a_second,
    );
    assert(states.insert(a.operation_id(), result_state(a_first)@).insert(b.operation_id(), result_state(b_second)@)
        =~= states.insert(b.operation_id(), result_state(b_first)@).insert(a.operation_id(), result_state(a_second)@));
}

/// `z` is `inner` with `operation` recorded without a rebuild (see `record_operation`): the
/// operation added to the operations and the graph, and the group states after it recorded, which
/// are the states at its dependencies with its action applied; every state stays resolved where
/// the operation depends on exactly the tips of a settled graph.
pub open spec fn recorded_outcome<ID: Copy, C: Clone + PartialOrd + PartialEq, M: Operation<ID, u32, C>>(
    inner: GroupCrdtInnerState<ID, C, M>,
    operation: M,
    z: GroupCrdtInnerState<ID, C, M>,
) -> bool {
    &&& added_operation(inner, operation, z)
    &&& z.states@.dom() == inner.states@.dom().insert(operation.operation_id())
    &&& forall|o: u32| o != operation.operation_id() && #[trigger] inner.states@.contains_key(o) ==> z.states@[o] == inner.states@[o]
    &&& conditions_ordered::<C>() && clones_exact::<C>() ==> exists|res: StateChangeResult<ID, C>|
        {
            &&& apply_outcome(
                state_before(inner, operation),
                operation.operation_group(),
                operation.operation_id(),
                operation.operation_author(),
                operation.operation_action(),
                inner.ignore@,
                res,
            )
            &&& z.states@ == inner.states@.insert(operation.operation_id(), #[trigger] result_state(res)@)
        }
    &&& ready_to_record(inner, operation) ==> {
        &&& settled(z)
        &&& rebuild_ready(z.operations@, z.graph)
        &&& forall|x: u32| #[trigger] z.ignore@.contains(x) ==> graph_nodes(z.graph).contains(x)
    }
}

/// Core group CRDT for maintaining group membership state in a decentralized system.
///
/// Group members can be assigned different access levels, where only a sub-set of members can
/// mutate the state of the group itself. Group members can be (immutable) individuals or
/// (mutable) sub-groups.
///
/// The core data type is a directed acyclic graph of all operations containing group management
/// actions. Operations refer to the previous global state (set of graph tips) in their
/// "dependencies" field; these references make up the edges in the graph. Operations must be
/// processed in partial order: only once all their dependencies have been processed.
///
/// Every time an action is processed a new state is recorded: the state at the operation's
/// dependencies with the action applied.
///
/// - ID : identifier for both an individual actor and group.
/// - C  : conditions which restrict an access level.
/// - RS : resolver which decides when group state rebuilds are required, and how concurrent
///   actions are handled.
/// - ORD: orderer which creates operations with the meta-data which allows processing them in
///   partial order.
pub struct GroupCrdt<ID, C, RS, ORD> {
    _phantom: PhantomData<(ID, C, RS, ORD)>,
}

/// The tips of the operation graph are not exactly the operation's dependencies: the operation
/// was created concurrently to some operations known here.
pub open spec fn concurrent_to<ID, C, M>(inner: GroupCrdtInnerState<ID, C, M>, dependencies: Seq<u32>) -> bool {
    sink_nodes(inner.graph).to_set() != dependencies.to_set()
}

/// What validating an operation against the current state reports, where the graph tips are the
/// operation's dependencies.
pub open spec fn local_validation<ID: Copy, C: Clone + PartialOrd + PartialEq, M: Operation<ID, u32, C>, RE, OE>(
    inner: GroupCrdtInnerState<ID, C, M>,
    operation: M,
) -> Option<GroupCrdtError<ID, u32, RE, OE>> {
    check_result(
        merged_view(inner.states@, tips(inner.graph)),
        inner.ignore@,
        operation.operation_id(),
        operation.operation_group(),
        operation.operation_author(),
        operation.operation_action(),
    )
}

/// `z` is what successfully processing `operation` on `inner` with the resolver `RS` gives: where
/// the resolver requires no rebuild, the operation recorded (see `recorded_outcome`); where it
/// does, the operation added to the operations and the graph, and the states rebuilt by the
/// resolver.
pub open spec fn processed<ID: IdentityHandle, C: Clone + PartialOrd + PartialEq, M: Operation<ID, u32, C>, RS: Resolver<
    ID,
    u32,
    C,
    M,
    State = GroupCrdtInnerState<ID, C, M>,
>>(inner: GroupCrdtInnerState<ID, C, M>, operation: M, z: GroupCrdtInnerState<ID, C, M>) -> bool {
    &&& !RS::rebuilds(inner, operation) ==> recorded_outcome(inner, operation, z)
    &&& RS::rebuilds(inner, operation) ==> exists|added: GroupCrdtInnerState<ID, C, M>|
        {
            &&& added_operation(inner, operation, added)
            &&& added.states == inner.states
            &&& #[trigger] RS::rebuilt(added, z)
        }
}

/// `r` is what adding a validated operation gives, once the resolver decided whether a rebuild is
/// required: with a rebuild always success; without one, a refusal where some dependency has no
/// recorded state, and otherwise success exactly when the action can be applied to the state at
/// the dependencies.
pub open spec fn added_result<ID: Copy, C: Clone + PartialOrd + PartialEq, M: Operation<ID, u32, C>, Y, RE, OE>(
    inner: GroupCrdtInnerState<ID, C, M>,
    operation: M,
    rebuild_required: bool,
    r: Result<Y, GroupCrdtError<ID, u32, RE, OE>>,
) -> bool {
    &&& rebuild_required ==> r is Ok
    &&& !rebuild_required && !dependencies_recorded(inner, operation) ==> (r matches Err(
        GroupCrdtError::Inner(GroupCrdtInnerError::StatesNotFound(_)),
    ))
    &&& !rebuild_required && dependencies_recorded(inner, operation) && conditions_ordered::<C>() && clones_exact::<C>()
        ==> (r is Ok <==> applicable_to(state_before(inner, operation), operation.operation_group(), operation.operation_action()))
}

/// The inputs on which processing `operation` with the resolver `RS` succeeds: a new operation
/// which gives no group `Manage` access, on which the resolver decides, and which passes
/// validation (against the current state, or, where it is concurrent to it, against every state
/// the resolver may rebuild at its dependencies, which it rebuilds without an error); without a
/// rebuild, its dependencies have recorded states to which its action applies; with one, the
/// resolver rebuilds the state with the operation added without an error.
pub open spec fn process_succeeds<ID: IdentityHandle, C: Clone + PartialOrd + PartialEq, M: Operation<ID, u32, C> + Clone, RS: Resolver<
    ID,
    u32,
    C,
    M,
    State = GroupCrdtInnerState<ID, C, M>,
>, OE>(inner: GroupCrdtInnerState<ID, C, M>, operation: M) -> bool {
    &&& !has_key(inner.operations@, operation.operation_id())
    &&& !manager_group_action(operation.operation_action())
    &&& RS::decides(inner, operation)
    &&& conditions_ordered::<C>()
    &&& clones_exact::<C>()
    &&& !concurrent_to(inner, operation.operation_dependencies()) ==> tips_recorded(inner) && local_validation::<
        ID,
        C,
        M,
        RS::Error,
        OE,
    >(inner, operation) is None
    &&& concurrent_to(inner, operation.operation_dependencies()) ==> forall|input: GroupCrdtInnerState<ID, C, M>|
        #[trigger] reduced_to(inner, operation.operation_dependencies(), input) ==> {
            &&& RS::completes(input)
            &&& forall|rebuilt: GroupCrdtInnerState<ID, C, M>|
                #[trigger] RS::rebuilt(input, rebuilt) ==> tips_recorded(rebuilt) && local_validation::<
                    ID,
                    C,
                    M,
                    RS::Error,
                    OE,
                >(rebuilt, operation) is None
        }
    &&& !RS::rebuilds(inner, operation) ==> dependencies_recorded(inner, operation) && applicable_to(
        state_before(inner, operation),
        operation.operation_group(),
        operation.operation_action(),
    )
    &&& RS::rebuilds(inner, operation) ==> forall|added: GroupCrdtInnerState<ID, C, M>|
        #[trigger] added_operation(inner, operation, added) && added.states == inner.states ==> RS::completes(added)
}

/// `input` is the state handed to the resolver to rebuild `inner` at the given dependencies: the
/// graph reduced to the dependencies and their predecessors, filter and mutual removes as in
/// `inner`, and its operations and states copied, each entry cloned.
pub open spec fn reduced_to<ID, C: Clone, M: Clone>(
    inner: GroupCrdtInnerState<ID, C, M>,
    dependencies: Seq<u32>,
    input: GroupCrdtInnerState<ID, C, M>,
) -> bool {
    &&& input.ignore@ == inner.ignore@
    &&& input.mutual_removes@ == inner.mutual_removes@
    &&& input.operations@.len() == inner.operations@.len()
    &&& forall|i: int| 0 <= i < inner.operations@.len() ==> cloned(inner.operations@[i], #[trigger] input.operations@[i])
    &&& input.states@.dom() == inner.states@.dom()
    &&& forall|o: u32| #[trigger] inner.states@.contains_key(o) ==> groups_cloned(inner.states@[o], input.states@[o])
    &&& graph_nodes(input.graph).to_set() == graph_nodes(inner.graph).to_set().filter(
        |n: u32| !cut_off(inner.graph, n, dependencies),
    )
    &&& graph_edges(input.graph) == graph_edges(inner.graph).filter(
        |e: (u32, u32)| !cut_off(inner.graph, e.0, dependencies) && !cut_off(inner.graph, e.1, dependencies),
    )
}

/// `r` is what validating `operation` against the rebuilt state `rebuilt` gives: a refusal with
/// what checking the operation there reports (see `check_result`), and otherwise `y` unchanged.
pub open spec fn validated_against<ID: Copy, C: Clone + PartialOrd + PartialEq, M: Operation<ID, u32, C>, Y, RE, OE>(
    y: Y,
    operation: M,
    rebuilt: GroupCrdtInnerState<ID, C, M>,
    r: Result<Y, GroupCrdtError<ID, u32, RE, OE>>,
) -> bool {
    &&& !tips_recorded(rebuilt) ==> (r matches Err(GroupCrdtError::Inner(GroupCrdtInnerError::StatesNotFound(ops)))
        && ops@ == tips(rebuilt.graph))
    &&& tips_recorded(rebuilt) && conditions_ordered::<C>() && clones_exact::<C>() ==> r == match local_validation::<
        ID,
        C,
        M,
        RE,
        OE,
    >(rebuilt, operation) {
        Some(e) => Err::<Y, GroupCrdtError<ID, u32, RE, OE>>(e),
        None => Ok(y),
    }
    &&& r matches Ok(z) ==> z == y
}

impl<ID, C, RS, ORD> GroupCrdt<ID, C, RS, ORD> where
    ID: IdentityHandle,
    C: Clone + PartialOrd + PartialEq,
    ORD: Orderer<ID, u32, GroupControlMessage<ID, C>>,
    ORD::Operation: Operation<ID, u32, C> + Clone,
    RS: Resolver<ID, u32, C, ORD::Operation, State = GroupCrdtInnerState<ID, C, ORD::Operation>>,
 {
    /// A state without operations, with the given orderer state.
    pub fn init(orderer_y: ORD::State) -> (r: GroupCrdtState<ID, C, ORD>)
        ensures
            is_empty_inner(r.inner),
            r.orderer_y == orderer_y,
    {
        GroupCrdtState::new(orderer_y)
    }

    /// Prepare a next operation to be processed locally and sent to remote peers: the orderer
    /// creates it from the control message, with the meta-data (such as its dependencies) which
    /// allows processing all operations in partial order.
    pub fn prepare(y: GroupCrdtState<ID, C, ORD>, action: &GroupControlMessage<ID, C>) -> (r: Result<
        (GroupCrdtState<ID, C, ORD>, ORD::Operation),
        GroupCrdtError<ID, u32, RS::Error, ORD::Error>,
    >)
        ensures
            r matches Ok((z, _)) ==> z.inner == y.inner,
            r matches Err(e) ==> e is Orderer,
    {
        let GroupCrdtState { inner, orderer_y } = y;
        match ORD::next_message(orderer_y, action) {
            Ok((orderer_y, operation)) => Ok((GroupCrdtState { inner, orderer_y }, operation)),
            Err(e) => Err(GroupCrdtError::Orderer(e)),
        }
    }

    /// Validate an operation: its author must have had the authority to perform its action at the
    /// point in history the operation claims as its previous state (its dependencies), and the
    /// action must fulfil all group change requirements.
    ///
    /// Operations processed before and groups with `Manage` access are refused. When the graph
    /// tips are the operation's dependencies the current state is checked; otherwise the graph is
    /// reduced to the dependencies and their predecessors, the resolver rebuilds the states of this
    /// reduced graph, and its state is checked. Either way a nested group cycle, an action that
    /// cannot be applied and a refusal by the membership rules are reported. The resolver works on a
    /// copy: on success the state comes back unchanged.
    pub(crate) fn validate(y: GroupCrdtState<ID, C, ORD>, operation: &ORD::Operation) -> (r: Result<
        GroupCrdtState<ID, C, ORD>,
        GroupCrdtError<ID, u32, RS::Error, ORD::Error>,
    >)
        ensures
            has_key(y.inner.operations@, operation.operation_id()) ==> r == Err::<
                GroupCrdtState<ID, C, ORD>,
                GroupCrdtError<ID, u32, RS::Error, ORD::Error>,
            >(GroupCrdtError::DuplicateOperation(operation.operation_id(), operation.operation_group())),
            !has_key(y.inner.operations@, operation.operation_id()) && manager_group_action(operation.operation_action())
                ==> r == Err::<GroupCrdtState<ID, C, ORD>, GroupCrdtError<ID, u32, RS::Error, ORD::Error>>(
                GroupCrdtError::ManagerGroupsNotAllowed(changed_member(operation.operation_action())),
            ),
            !has_key(y.inner.operations@, operation.operation_id()) && !manager_group_action(operation.operation_action())
                && !concurrent_to(y.inner, operation.operation_dependencies()) ==> {
                &&& !tips_recorded(y.inner) ==> (r matches Err(
                    GroupCrdtError::Inner(GroupCrdtInnerError::StatesNotFound(ops)),
                ) && ops@ == tips(y.inner.graph))
                &&& tips_recorded(y.inner) && conditions_ordered::<C>() && clones_exact::<C>() ==> match local_validation::<
                    ID,
                    C,
                    ORD::Operation,
                    RS::Error,
                    ORD::Error,
                >(y.inner, *operation) {
                    Some(e) => r == Err::<GroupCrdtState<ID, C, ORD>, GroupCrdtError<ID, u32, RS::Error, ORD::Error>>(e),
                    None => r == Ok::<GroupCrdtState<ID, C, ORD>, GroupCrdtError<ID, u32, RS::Error, ORD::Error>>(y),
                }
                &&& r matches Ok(z) ==> z == y
            },
            !has_key(y.inner.operations@, operation.operation_id()) && !manager_group_action(operation.operation_action())
                && concurrent_to(y.inner, operation.operation_dependencies()) ==> exists|input: GroupCrdtInnerState<ID, C, ORD::Operation>|
                {
                    &&& #[trigger] reduced_to(y.inner, operation.operation_dependencies(), input)
                    &&& {
                        ||| r matches Err(GroupCrdtError::Resolver(_)) && !RS::completes(input)
                        ||| exists|rebuilt: GroupCrdtInnerState<ID, C, ORD::Operation>|
                            #[trigger] RS::rebuilt(input, rebuilt) && validated_against(y, *operation, rebuilt, r)
                    }
                },
            r matches Ok(z) ==> {
                &&& !has_key(y.inner.operations@, operation.operation_id())
                &&& !manager_group_action(operation.operation_action())
                &&& z == y
            },
    {
        let id = operation.id();
        let group_id = operation.group_id();
        let actor = operation.author();
        let action = operation.action();
        let dependencies = operation.dependencies();
        let GroupCrdtState { inner, orderer_y } = y;
        if first_entry(&inner.operations, id).is_some() {
            return Err(GroupCrdtError::DuplicateOperation(id, group_id));
        }
        match action {
            GroupAction::Add { member, access } => {
                if member.is_group() && access.is_manage() {
                    return Err(GroupCrdtError::ManagerGroupsNotAllowed(member.id()));
                }
            },
            GroupAction::Promote { member, access } => {
                if member.is_group() && access.is_manage() {
                    return Err(GroupCrdtError::ManagerGroupsNotAllowed(member.id()));
                }
            },
            _ => {},
        }
        let heads = inner.heads();
        if same_nodes(&heads, &dependencies) {
            match inner.check_operation(id, group_id, actor, action) {
                Some(e) => Err(e),
                None => Ok(GroupCrdtState { inner, orderer_y }),
            }
        } else {
            let reduced = predecessor_graph(&inner.graph, dependencies.as_slice());
            let GroupCrdtInnerState { operations, ignore, mutual_removes, states, graph } = inner;
            let rebuild = GroupCrdtInnerState {
                operations: operations.clone(),
                ignore: copy_items(&ignore),
                mutual_removes: copy_items(&mutual_removes),
                states: states.clone(),
                graph: reduced,
            };
            let ghost input = rebuild;
            proof {
                assert(reduced_to(y.inner, operation.operation_dependencies(), input));
            }
            let rebuilt = match RS::process(rebuild) {
                Ok(rebuilt) => rebuilt,
                Err(e) => return Err(GroupCrdtError::Resolver(e)),
            };
            let inner = GroupCrdtInnerState { operations, ignore, mutual_removes, states, graph };
            let r = Self::check_against_rebuilt(GroupCrdtState { inner, orderer_y }, operation, &rebuilt);
            proof {
                assert(RS::rebuilt(input, rebuilt));
            }
            r
        }
    }

    /// Validate an operation against a state rebuilt to its dependencies: the operation is refused
    /// with what checking it against the rebuilt state reports (see `check_result`), and otherwise
    /// the state `y` is given back unchanged.
    pub fn check_against_rebuilt(
        y: GroupCrdtState<ID, C, ORD>,
        operation: &ORD::Operation,
        rebuilt: &GroupCrdtInnerState<ID, C, ORD::Operation>,
    ) -> (r: Result<GroupCrdtState<ID, C, ORD>, GroupCrdtError<ID, u32, RS::Error, ORD::Error>>)
        ensures
            validated_against(y, *operation, *rebuilt, r),
    {
        match rebuilt.check_operation(operation.id(), operation.group_id(), operation.author(), operation.action()) {
            Some(e) => Err(e),
            None => Ok(y),
        }
    }

    /// Apply an operation once the resolver has decided whether a rebuild is required: validate
    /// it (see `validate`) and add it to the operations and the graph. Without a rebuild its group
    /// states are recorded too (see `record_operation`); with one, the states are left to the
    /// resolver's rebuild.
    pub fn apply_resolved(y: GroupCrdtState<ID, C, ORD>, operation: ORD::Operation, rebuild_required: bool) -> (r:
        Result<GroupCrdtState<ID, C, ORD>, GroupCrdtError<ID, u32, RS::Error, ORD::Error>>)
        ensures
            has_key(y.inner.operations@, operation.operation_id()) ==> r == Err::<
                GroupCrdtState<ID, C, ORD>,
                GroupCrdtError<ID, u32, RS::Error, ORD::Error>,
            >(GroupCrdtError::DuplicateOperation(operation.operation_id(), operation.operation_group())),
            !has_key(y.inner.operations@, operation.operation_id()) && manager_group_action(operation.operation_action())
                ==> r == Err::<GroupCrdtState<ID, C, ORD>, GroupCrdtError<ID, u32, RS::Error, ORD::Error>>(
                GroupCrdtError::ManagerGroupsNotAllowed(changed_member(operation.operation_action())),
            ),
            !has_key(y.inner.operations@, operation.operation_id()) && !manager_group_action(operation.operation_action())
                && !concurrent_to(y.inner, operation.operation_dependencies()) && tips_recorded(y.inner) && conditions_ordered::<
                C,
            >() && clones_exact::<C>() ==> match local_validation::<ID, C, ORD::Operation, RS::Error, ORD::Error>(
                y.inner,
                operation,
            ) {
                Some(e) => r == Err::<GroupCrdtState<ID, C, ORD>, GroupCrdtError<ID, u32, RS::Error, ORD::Error>>(e),
                None => added_result(y.inner, operation, rebuild_required, r),
            },
            !has_key(y.inner.operations@, operation.operation_id()) && !manager_group_action(operation.operation_action())
                && concurrent_to(y.inner, operation.operation_dependencies()) ==> exists|input: GroupCrdtInnerState<ID, C, ORD::Operation>|
                {
                    &&& #[trigger] reduced_to(y.inner, operation.operation_dependencies(), input)
                    &&& {
                        ||| r matches Err(GroupCrdtError::Resolver(_)) && !RS::completes(input)
                        ||| exists|rebuilt: GroupCrdtInnerState<ID, C, ORD::Operation>|
                            {
                                &&& #[trigger] RS::rebuilt(input, rebuilt)
                                &&& {
                                    ||| r is Err && validated_against(y, operation, rebuilt, r)
                                    ||| validated_against(
                                        y,
                                        operation,
                                        rebuilt,
                                        Ok::<GroupCrdtState<ID, C, ORD>, GroupCrdtError<ID, u32, RS::Error, ORD::Error>>(y),
                                    ) && added_result(y.inner, operation, rebuild_required, r)
                                }
                            }
                    }
                },
            r matches Ok(z) ==> {
                &&& !has_key(y.inner.operations@, operation.operation_id())
                &&& !manager_group_action(operation.operation_action())
                &&& z.orderer_y == y.orderer_y
                &&& rebuild_required ==> added_operation(y.inner, operation, z.inner) && z.inner.states == y.inner.states
                &&& !rebuild_required ==> recorded_outcome(y.inner, operation, z.inner)
            },
    {
        let ghost y0 = y;
        let validated = Self::validate(y, &operation);
        let ghost v = validated;
        let y = match validated {
            Ok(y) => y,
            Err(e) => return Err(e),
        };
        let GroupCrdtState { inner, orderer_y } = y;
        let r = if rebuild_required {
            let inner = inner.add_operation(operation);
            Ok(GroupCrdtState { inner, orderer_y })
        } else {
            match inner.record_operation(operation) {
                Ok(inner) => Ok(GroupCrdtState { inner, orderer_y }),
                Err(e) => Err(e),
            }
        };
        proof {
            assert(v == Ok::<GroupCrdtState<ID, C, ORD>, GroupCrdtError<ID, u32, RS::Error, ORD::Error>>(y0));
            assert(added_result(y0.inner, operation, rebuild_required, r));
        }
        r
    }

    /// Process an operation created locally or received from a remote peer: ask the resolver
    /// whether a rebuild is required, apply the operation (see `apply_resolved`), and rebuild the
    /// group states with the resolver where required. Processing succeeds on the inputs of
    /// `process_succeeds`.
    pub fn process(y: GroupCrdtState<ID, C, ORD>, operation: ORD::Operation) -> (r: Result<
        GroupCrdtState<ID, C, ORD>,
        GroupCrdtError<ID, u32, RS::Error, ORD::Error>,
    >)
        ensures
            has_key(y.inner.operations@, operation.operation_id()) ==> (r == Err::<
                GroupCrdtState<ID, C, ORD>,
                GroupCrdtError<ID, u32, RS::Error, ORD::Error>,
            >(GroupCrdtError::DuplicateOperation(operation.operation_id(), operation.operation_group()))
                || r matches Err(GroupCrdtError::Resolver(_))),
            !has_key(y.inner.operations@, operation.operation_id()) && manager_group_action(operation.operation_action())
                ==> (r == Err::<GroupCrdtState<ID, C, ORD>, GroupCrdtError<ID, u32, RS::Error, ORD::Error>>(
                GroupCrdtError::ManagerGroupsNotAllowed(changed_member(operation.operation_action())),
            ) || r matches Err(GroupCrdtError::Resolver(_))),
            !has_key(y.inner.operations@, operation.operation_id()) && !manager_group_action(operation.operation_action())
                && !concurrent_to(y.inner, operation.operation_dependencies()) && tips_recorded(y.inner) && conditions_ordered::<
                C,
            >() && clones_exact::<C>() ==> (local_validation::<ID, C, ORD::Operation, RS::Error, ORD::Error>(
                y.inner,
                operation,
            ) matches Some(e) ==> (r == Err::<GroupCrdtState<ID, C, ORD>, GroupCrdtError<ID, u32, RS::Error, ORD::Error>>(e)
                || r matches Err(GroupCrdtError::Resolver(_)))) && (local_validation::<
                ID,
                C,
                ORD::Operation,
                RS::Error,
                ORD::Error,
            >(y.inner, operation) is None ==> (r matches Err(GroupCrdtError::Resolver(_)) || added_result(
                y.inner,
                operation,
                RS::rebuilds(y.inner, operation),
                r,
            ))),
            process_succeeds::<ID, C, ORD::Operation, RS, ORD::Error>(y.inner, operation) ==> r is Ok,
            r matches Ok(z) ==> {
                &&& !has_key(y.inner.operations@, operation.operation_id())
                &&& !manager_group_action(operation.operation_action())
                &&& z.orderer_y == y.orderer_y
                &&& processed::<ID, C, ORD::Operation, RS>(y.inner, operation, z.inner)
            },
    {
        let ghost y0 = y;
        let ghost op = operation;
        let rebuild_required = match RS::rebuild_required(&y.inner, &operation) {
            Ok(required) => required,
            Err(e) => return Err(GroupCrdtError::Resolver(e)),
        };
        proof {
            assert(rebuild_required == RS::rebuilds(y0.inner, op));
        }
        let y = match Self::apply_resolved(y, operation, rebuild_required) {
            Ok(y) => y,
            Err(e) => return Err(e),
        };
        if rebuild_required {
            let GroupCrdtState { inner, orderer_y } = y;
            let ghost added = inner;
            match RS::process(inner) {
                Ok(inner) => {
                    let ghost rebuilt = inner;
                    let z = GroupCrdtState { inner, orderer_y };
                    proof {
                        assert(z.inner == rebuilt);
                        assert(RS::rebuilt(added, z.inner));
                        assert(added_operation(y0.inner, op, added));
                    }
                    Ok(z)
                },
                Err(e) => Err(GroupCrdtError::Resolver(e)),
            }
        } else {
            Ok(y)
        }
    }
}

} // verus!
