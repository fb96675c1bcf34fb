//! Applying group actions to the membership states of all groups.
use crate::conditions::NoConditions;
use vstd::prelude::*;
use vstd::std_specs::cmp::PartialEqSpec;

use crate::access::{Access, AccessLevel};
use crate::group::access;
use crate::group::action::GroupAction;
use crate::group::member::GroupMember;
use crate::group::state::{
    self, actor_check, add_spec, check_actor, entries_map, has_key, is_manager_spec,
    is_member_spec, keys_distinct, last_index_of, lemma_entries_map_index,
    lemma_entries_map_push, lemma_entries_map_remove, modify_changes,
    modify_check, modify_outcome, remove_applies, remove_spec, GroupMembersState,
    GroupMembershipError, MemberState, member_cloned, merge_spec, conditions_ordered,
};
use crate::graph::{is_path, reaches};
use crate::traits::{IdentityHandle, OperationId};

verus! {

/// Membership view of one group: each known member and its state.
pub type MembersView<ID, C> = Map<GroupMember<ID>, MemberState<C>>;

/// Membership states of all groups, by group identifier.
#[derive(Debug)]
pub struct GroupStates<ID, C = NoConditions> {
    pub(crate) groups: Vec<(ID, GroupMembersState<GroupMember<ID>, C>)>,
}

impl<ID, C> GroupStates<ID, C> {
    #[verifier::type_invariant]
    spec fn groups_distinct(self) -> bool {
        keys_distinct(self.groups@)
    }
}

/// The map view of a list of group states.
pub open spec fn groups_view<ID, C>(s: Seq<(ID, GroupMembersState<GroupMember<ID>, C>)>) -> Map<
    ID,
    MembersView<ID, C>,
> {
    entries_map(s).map_values(|g: GroupMembersState<GroupMember<ID>, C>| g@)
}

impl<ID, C> View for GroupStates<ID, C> {
    type V = Map<ID, MembersView<ID, C>>;

    closed spec fn view(&self) -> Map<ID, MembersView<ID, C>> {
        groups_view(self.groups@)
    }
}

/// Position of the state of group `id`, if any.
fn find_group<ID: IdentityHandle, V>(groups: &Vec<(ID, V)>, id: ID) -> (r: Option<usize>)
    ensures
        match r {
            Some(i) => i < groups@.len() && groups@[i as int].0 == id,
            None => !has_key(groups@, id),
        },
{
    state::find_entry(groups, id)
}

/// Store `members` as the state of group `id`, replacing a previous state.
fn put_group<ID: IdentityHandle, C>(
    groups: &mut Vec<(ID, GroupMembersState<GroupMember<ID>, C>)>,
    id: ID,
    members: GroupMembersState<GroupMember<ID>, C>,
)
    requires
        keys_distinct(old(groups)@),
    ensures
        keys_distinct(final(groups)@),
        groups_view(final(groups)@) == groups_view(old(groups)@).insert(id, members@),
{
    let ghost s = groups@;
    let ghost m = members;
    match find_group(groups, id) {
        Some(i) => {
            let _ = state::replace_value(groups, i, members);
            proof {
                assert(groups_view(groups@) =~= groups_view(s).insert(id, m@));
            }
        },
        None => {
            proof {
                lemma_entries_map_push(s, id, m);
            }
            groups.push((id, members));
            proof {
                assert(groups_view(groups@) =~= groups_view(s).insert(id, m@));
            }
        },
    }
}

/// Take the state of group `id` out of the list.
fn take_group<ID: IdentityHandle, C>(
    groups: &mut Vec<(ID, GroupMembersState<GroupMember<ID>, C>)>,
    id: ID,
) -> (r: GroupMembersState<GroupMember<ID>, C>)
    requires
        keys_distinct(old(groups)@),
        groups_view(old(groups)@).contains_key(id),
    ensures
        keys_distinct(final(groups)@),
        r@ == groups_view(old(groups)@)[id],
        groups_view(final(groups)@) == groups_view(old(groups)@).remove(id),
{
    let ghost s = groups@;
    match find_group(groups, id) {
        Some(i) => {
            proof {
                lemma_entries_map_index(s, i as int);
                lemma_entries_map_remove(s, i as int);
            }
            let (_, members) = groups.remove(i);
            proof {
                assert(groups_view(groups@) =~= groups_view(s).remove(id));
            }
            members
        },
        None => {
            proof {
                assert(has_key(s, id));
            }
            GroupMembersState::new()
        },
    }
}

impl<ID: IdentityHandle, C> GroupStates<ID, C> {
    /// Membership states for no group at all.
    pub fn new() -> (r: Self)
        ensures
            r@ == Map::<ID, MembersView<ID, C>>::empty(),
    {
        let r = GroupStates { groups: Vec::new() };
        assert(r@ =~= Map::<ID, MembersView<ID, C>>::empty());
        r
    }

    /// Membership state of group `id`, if the group is known.
    pub fn get(&self, id: &ID) -> (r: Option<&GroupMembersState<GroupMember<ID>, C>>)
        ensures
            match r {
                Some(g) => self@.contains_key(*id) && g@ == self@[*id],
                None => !self@.contains_key(*id),
            },
    {
        proof {
            use_type_invariant(self);
        }
        match find_group(&self.groups, *id) {
            Some(i) => {
                proof {
                    lemma_entries_map_index(self.groups@, i as int);
                }
                Some(&self.groups[i].1)
            },
            None => None,
        }
    }

    /// Store `members` as the membership state of group `id`.
    pub fn insert(self, id: ID, members: GroupMembersState<GroupMember<ID>, C>) -> (r: Self)
        ensures
            r@ == self@.insert(id, members@),
    {
        proof {
            use_type_invariant(&self);
        }
        let GroupStates { mut groups } = self;
        put_group(&mut groups, id, members);
        GroupStates { groups }
    }
}

// ------------------------------------------------------------------------------------------------
// Access levels of actions
// ------------------------------------------------------------------------------------------------

/// `g` is the group-state access level for the action's access `a`: same level, and for `Write`
/// the cloned conditions (conditions of other levels are not kept).
pub open spec fn converted<C: Clone>(a: Access<C>, g: access::Access<C>) -> bool {
    match a.level {
        AccessLevel::Pull => g is Pull,
        AccessLevel::Read => g is Read,
        AccessLevel::Manage => g is Manage,
        AccessLevel::Write => match g {
            access::Access::Write { conditions } => match (a.conditions, conditions) {
                (None, None) => true,
                (Some(p), Some(q)) => cloned(p, q),
                _ => false,
            },
            _ => false,
        },
    }
}

/// The group-state access level for an action's access.
fn group_access<C: Clone>(a: &Access<C>) -> (r: access::Access<C>)
    ensures
        converted(*a, r),
{
    match a.level {
        AccessLevel::Pull => access::Access::Pull,
        AccessLevel::Read => access::Access::Read,
        AccessLevel::Manage => access::Access::Manage,
        AccessLevel::Write => {
            let conditions = match &a.conditions {
                Some(c) => Some(c.clone()),
                None => None,
            };
            access::Access::Write { conditions }
        },
    }
}

/// The initial members of a group, with group-state access levels.
fn group_members<ID: Copy, C: Clone>(initial: &Vec<(GroupMember<ID>, Access<C>)>) -> (r: Vec<
    (GroupMember<ID>, access::Access<C>),
>)
    ensures
        r@.len() == initial@.len(),
        forall|i: int| 0 <= i < r@.len() ==> #[trigger] r@[i].0 == initial@[i].0,
        forall|i: int| 0 <= i < r@.len() ==> converted(initial@[i].1, #[trigger] r@[i].1),
{
    let mut out: Vec<(GroupMember<ID>, access::Access<C>)> = Vec::new();
    let mut i: usize = 0;
    while i < initial.len()
        invariant
            i <= initial@.len(),
            out@.len() == i,
            forall|j: int| 0 <= j < i ==> #[trigger] out@[j].0 == initial@[j].0,
            forall|j: int| 0 <= j < i ==> converted(initial@[j].1, #[trigger] out@[j].1),
        decreases initial@.len() - i,
    {
        out.push((initial[i].0, group_access(&initial[i].1)));
        i = i + 1;
    }
    out
}


// ------------------------------------------------------------------------------------------------
// Applying actions
// ------------------------------------------------------------------------------------------------

/// Return types expected from applying an action to group state.
#[derive(Debug)]
pub enum StateChangeResult<ID, C = NoConditions> {
    /// Action was applied and no error occurred.
    Applied { state: GroupStates<ID, C> },
    /// Action was not applied because it failed internal validation.
    Error { state: GroupStates<ID, C>, error: GroupMembershipError<GroupMember<ID>> },
    /// Action was not applied because it has been filtered out.
    Filtered { state: GroupStates<ID, C> },
}

/// The group states carried by a state change result.
pub open spec fn result_state<ID, C>(r: StateChangeResult<ID, C>) -> GroupStates<ID, C> {
    match r {
        StateChangeResult::Applied { state } => state,
        StateChangeResult::Error { state, .. } => state,
        StateChangeResult::Filtered { state } => state,
    }
}

impl<ID, C> StateChangeResult<ID, C> {
    /// The group states after the action, whether or not it was applied.
    pub fn state(&self) -> (r: &GroupStates<ID, C>)
        ensures
            *r == result_state(*self),
    {
        match self {
            StateChangeResult::Applied { state } => state,
            StateChangeResult::Error { state, .. } => state,
            StateChangeResult::Filtered { state } => state,
        }
    }
}

/// Membership state of the group an action applies to, before the action: empty for `Create`.
pub open spec fn base_of<ID, C>(groups: Map<ID, MembersView<ID, C>>, group_id: ID, action: GroupAction<
    ID,
    C,
>) -> MembersView<ID, C> {
    if action is Create {
        Map::empty()
    } else {
        groups[group_id]
    }
}

/// The error, if any, with which the membership rules refuse `action` by `actor` on a group with
/// members `s`.
pub open spec fn change_error<ID, C>(s: MembersView<ID, C>, actor: ID, action: GroupAction<ID, C>) -> Option<
    GroupMembershipError<GroupMember<ID>>,
> {
    let a = GroupMember::Individual(actor);
    match action {
        GroupAction::Create { .. } => None,
        GroupAction::Add { member, .. } => match actor_check(s, a) {
            Err(e) => Some(e),
            Ok(_) => if s.contains_key(member) && is_member_spec(s[member]) {
                Some(GroupMembershipError::AlreadyAdded(member))
            } else {
                None
            },
        },
        GroupAction::Remove { member } => match actor_check(s, a) {
            Err(e) => Some(e),
            Ok(_) => if !s.contains_key(member) {
                Some(GroupMembershipError::UnrecognisedMember(member))
            } else if !is_member_spec(s[member]) {
                Some(GroupMembershipError::AlreadyRemoved(member))
            } else {
                None
            },
        },
        GroupAction::Promote { member, .. } => if !s.contains_key(member) {
            Some(GroupMembershipError::UnrecognisedMember(member))
        } else if is_manager_spec(s[member]) {
            None
        } else {
            match modify_check(s, a, member) {
                Err(e) => Some(e),
                Ok(_) => None,
            }
        },
        GroupAction::Demote { member, .. } => if !s.contains_key(member) {
            Some(GroupMembershipError::UnrecognisedMember(member))
        } else if s[member].access is Pull {
            None
        } else {
            match modify_check(s, a, member) {
                Err(e) => Some(e),
                Ok(_) => None,
            }
        },
    }
}

/// Counters touched by `action` can still be incremented.
pub open spec fn change_fits<ID, C: Clone + PartialEq>(
    s: MembersView<ID, C>,
    actor: ID,
    action: GroupAction<ID, C>,
) -> bool {
    let a = GroupMember::Individual(actor);
    match action {
        GroupAction::Remove { member } => remove_applies(s, a, member)
            ==> s[member].member_counter < usize::MAX,
        GroupAction::Promote { member, access } => forall|g: access::Access<C>|
            #[trigger] converted(access, g) && s.contains_key(member) && !is_manager_spec(s[member])
                && modify_changes(s, a, member, g) ==> s[member].access_counter < usize::MAX,
        GroupAction::Demote { member, access } => forall|g: access::Access<C>|
            #[trigger] converted(access, g) && s.contains_key(member) && !(s[member].access is Pull)
                && modify_changes(s, a, member, g) ==> s[member].access_counter < usize::MAX,
        _ => true,
    }
}

/// Members of a newly created group: each initial member, active, with the access level of its
/// last entry.
pub open spec fn created_from<ID, C: Clone>(
    initial: Seq<(GroupMember<ID>, Access<C>)>,
    out: MembersView<ID, C>,
) -> bool {
    &&& forall|k: GroupMember<ID>| #[trigger] out.contains_key(k) <==> has_key(initial, k)
    &&& forall|k: GroupMember<ID>|
        #[trigger] out.contains_key(k) ==> {
            &&& out[k].member_counter == 1
            &&& out[k].access_counter == 0
            &&& exists|i: int| last_index_of(initial, k, i) && converted(#[trigger] initial[i].1, out[k].access)
        }
}

/// `out` is the membership state after `action` by `actor` was applied to `s` without error.
pub open spec fn applied<ID, C: Clone + PartialEq>(
    s: MembersView<ID, C>,
    actor: ID,
    action: GroupAction<ID, C>,
    out: MembersView<ID, C>,
) -> bool {
    let a = GroupMember::Individual(actor);
    match action {
        GroupAction::Create { initial_members } => created_from(initial_members@, out),
        GroupAction::Add { member, access } => exists|g: access::Access<C>|
            #[trigger] converted(access, g) && out == add_spec(s, a, member, g)->Ok_0,
        GroupAction::Remove { member } => out == remove_spec(s, a, member)->Ok_0,
        GroupAction::Promote { member, access } => exists|g: access::Access<C>|
            #[trigger] converted(access, g) && if is_manager_spec(s[member]) {
                out == s
            } else {
                modify_outcome(s, a, member, g, Ok(out))
            },
        GroupAction::Demote { member, access } => exists|g: access::Access<C>|
            #[trigger] converted(access, g) && if s[member].access is Pull {
                out == s
            } else {
                modify_outcome(s, a, member, g, Ok(out))
            },
    }
}

/// What applying `action` yields: a filtered action leaves the group state unchanged (a created
/// group starts empty), a refused action leaves it unchanged and reports why, and an accepted
/// action changes only the state of `group_id`.
pub open spec fn apply_outcome<ID, OP, C: Clone + PartialEq>(
    groups: Map<ID, MembersView<ID, C>>,
    group_id: ID,
    id: OP,
    actor: ID,
    action: GroupAction<ID, C>,
    filter: Seq<OP>,
    r: StateChangeResult<ID, C>,
) -> bool {
    let base = base_of(groups, group_id, action);
    if filter.contains(id) {
        r matches StateChangeResult::Filtered { state } && state@ == groups.insert(group_id, base)
    } else {
        match change_error(base, actor, action) {
            Some(e) => r matches StateChangeResult::Error { state, error } && error == e
                && state@ == groups.insert(group_id, base),
            None => r matches StateChangeResult::Applied { state } && {
                &&& state@.dom() == groups.dom().insert(group_id)
                &&& forall|k: ID| k != group_id && #[trigger] groups.contains_key(k) ==> state@[k] == groups[k]
                &&& applied(base, actor, action, state@[group_id])
            },
        }
    }
}

/// Returns `true` if `id` occurs in `filter`.
fn filtered_out<OP: OperationId>(filter: &[OP], id: OP) -> (r: bool)
    ensures
        r == filter@.contains(id),
{
    let mut i: usize = 0;
    while i < filter.len()
        invariant
            i <= filter@.len(),
            forall|j: int| 0 <= j < i ==> filter@[j] != id,
        decreases filter@.len() - i,
    {
        if filter[i].is_same_operation(&id) {
            return true;
        }
        i = i + 1;
    }
    false
}

/// The error, if any, with which the membership rules refuse the modification of `member`.
fn modify_error<ID: IdentityHandle, C>(
    members: &GroupMembersState<GroupMember<ID>, C>,
    actor: GroupMember<ID>,
    member: GroupMember<ID>,
) -> (r: Option<GroupMembershipError<GroupMember<ID>>>)
    ensures
        r == (match modify_check(members@, actor, member) {
            Err(e) => Some(e),
            Ok(_) => None,
        }),
{
    match check_actor(members, actor) {
        Err(e) => Some(e),
        Ok(_) => match members.get(&member) {
            None => Some(GroupMembershipError::UnrecognisedMember(member)),
            Some(m) => if !m.is_member() {
                Some(GroupMembershipError::InactiveMember(member))
            } else {
                None
            },
        },
    }
}

/// The error, if any, with which the membership rules refuse `action` by `actor`.
fn action_error<ID: IdentityHandle, C>(
    members: &GroupMembersState<GroupMember<ID>, C>,
    actor: ID,
    action: &GroupAction<ID, C>,
) -> (r: Option<GroupMembershipError<GroupMember<ID>>>)
    ensures
        r == change_error(members@, actor, *action),
{
    let a = GroupMember::Individual(actor);
    match action {
        GroupAction::Create { .. } => None,
        GroupAction::Add { member, .. } => match check_actor(members, a) {
            Err(e) => Some(e),
            Ok(_) => {
                let active = match members.get(member) {
                    Some(m) => m.is_member(),
                    None => false,
                };
                if active {
                    Some(GroupMembershipError::AlreadyAdded(*member))
                } else {
                    None
                }
            },
        },
        GroupAction::Remove { member } => match check_actor(members, a) {
            Err(e) => Some(e),
            Ok(_) => match members.get(member) {
                None => Some(GroupMembershipError::UnrecognisedMember(*member)),
                Some(m) => if !m.is_member() {
                    Some(GroupMembershipError::AlreadyRemoved(*member))
                } else {
                    None
                },
            },
        },
        GroupAction::Promote { member, .. } => match members.get(member) {
            None => Some(GroupMembershipError::UnrecognisedMember(*member)),
            Some(m) => if m.is_manager() {
                None
            } else {
                modify_error(members, a, *member)
            },
        },
        GroupAction::Demote { member, .. } => match members.get(member) {
            None => Some(GroupMembershipError::UnrecognisedMember(*member)),
            Some(m) => if m.is_puller() {
                None
            } else {
                modify_error(members, a, *member)
            },
        },
    }
}

/// Apply an action accepted by the membership rules to the state of one group.
fn apply_accepted<ID: IdentityHandle, C: Clone + PartialEq>(
    members: GroupMembersState<GroupMember<ID>, C>,
    actor: ID,
    action: &GroupAction<ID, C>,
) -> (r: GroupMembersState<GroupMember<ID>, C>)
    requires
        !(*action is Create) ==> change_error(members@, actor, *action) is None,
        change_fits(members@, actor, *action),
    ensures
        applied(members@, actor, *action, r@),
{
    let a = GroupMember::Individual(actor);
    let ghost s = members@;
    match action {
        GroupAction::Create { initial_members } => {
            let members = group_members(initial_members);
            let ghost conv = members@;
            let ghost init = initial_members@;
            let next = state::create_from(members);
            proof {
                assert forall|k: GroupMember<ID>| has_key(conv, k) <==> has_key(init, k) by {
                    if has_key(conv, k) {
                        let i = choose|i: int| 0 <= i < conv.len() && conv[i].0 == k;
                        assert(init[i].0 == k);
                    }
                    if has_key(init, k) {
                        let i = choose|i: int| 0 <= i < init.len() && init[i].0 == k;
                        assert(conv[i].0 == k);
                    }
                }
                assert forall|k: GroupMember<ID>| #[trigger] next@.contains_key(k) implies exists|i: int|
                    last_index_of(init, k, i) && converted(#[trigger] init[i].1, next@[k].access) by {
                    let i = choose|i: int|
                        last_index_of(conv, k, i) && #[trigger] conv[i].1 == next@[k].access;
                    assert(conv[i].0 == init[i].0);
                    assert forall|j: int| i < j < init.len() implies init[j].0 != k by {
                        assert(conv[j].0 == init[j].0);
                    }
                    assert(last_index_of(init, k, i));
                    assert(converted(init[i].1, conv[i].1));
                }
            }
            next
        },
        GroupAction::Add { member, access } => {
            let g = group_access(access);
            match state::add(members, a, *member, g) {
                Ok(next) => next,
                Err(_) => {
                    proof {
                        assert(false);
                    }
                    GroupMembersState::new()
                },
            }
        },
        GroupAction::Remove { member } => match state::remove(members, a, *member) {
            Ok(next) => next,
            Err(_) => {
                proof {
                    assert(false);
                }
                GroupMembersState::new()
            },
        },
        GroupAction::Promote { member, access } => {
            let g = group_access(access);
            proof {
                assert(converted(*access, g));
            }
            match state::promote(members, a, *member, g) {
                Ok(next) => next,
                Err(_) => {
                    proof {
                        assert(false);
                    }
                    GroupMembersState::new()
                },
            }
        },
        GroupAction::Demote { member, access } => {
            let g = group_access(access);
            proof {
                assert(converted(*access, g));
            }
            match state::demote(members, a, *member, g) {
                Ok(next) => next,
                Err(_) => {
                    proof {
                        assert(false);
                    }
                    GroupMembersState::new()
                },
            }
        },
    }
}

/// Apply an action to a single group state.
///
/// The action is not applied when its operation is in `filter`, or when the membership rules
/// refuse it (the actor lacks the rights, or the action is invalid, such as promoting a
/// non-existent member); the group state then stays as it was.
pub fn apply_action<ID: IdentityHandle, OP: OperationId, C: Clone + PartialEq>(
    groups_y: GroupStates<ID, C>,
    group_id: ID,
    id: OP,
    actor: ID,
    action: &GroupAction<ID, C>,
    filter: &[OP],
) -> (r: StateChangeResult<ID, C>)
    requires
        !(*action is Create) ==> groups_y@.contains_key(group_id),
        change_fits(base_of(groups_y@, group_id, *action), actor, *action),
    ensures
        apply_outcome(groups_y@, group_id, id, actor, *action, filter@, r),
{
    proof {
        use_type_invariant(&groups_y);
    }
    let ghost g0 = groups_y@;
    let GroupStates { mut groups } = groups_y;
    let members_y = if action.is_create() {
        let empty = GroupMembersState::new();
        proof {
            assert(empty@ =~= base_of(g0, group_id, *action));
        }
        empty
    } else {
        take_group(&mut groups, group_id)
    };
    let ghost rest = groups_view(groups@);
    proof {
        assert(rest.insert(group_id, members_y@) =~= g0.insert(group_id, members_y@));
    }
    if filtered_out(filter, id) {
        put_group(&mut groups, group_id, members_y);
        return StateChangeResult::Filtered { state: GroupStates { groups } };
    }
    match action_error(&members_y, actor, action) {
        Some(error) => {
            put_group(&mut groups, group_id, members_y);
            StateChangeResult::Error { state: GroupStates { groups }, error }
        },
        None => {
            let next = apply_accepted(members_y, actor, action);
            put_group(&mut groups, group_id, next);
            proof {
                let out = groups_view(groups@);
                assert(out == rest.insert(group_id, next@));
                assert(out.dom() =~= g0.dom().insert(group_id));
            }
            StateChangeResult::Applied { state: GroupStates { groups } }
        },
    }
}

/// Apply a remove operation without validating it against the membership rules: an active
/// `removed` member becomes inactive, nothing else changes.
///
/// This is required when retaining mutual-remove operations which may have lost their delegated
/// access rights.
pub fn apply_remove_unsafe<ID: IdentityHandle, C>(
    groups_y: GroupStates<ID, C>,
    group_id: ID,
    removed: GroupMember<ID>,
) -> (r: GroupStates<ID, C>)
    requires
        groups_y@.contains_key(group_id),
        groups_y@[group_id].contains_key(removed) && is_member_spec(groups_y@[group_id][removed])
            ==> groups_y@[group_id][removed].member_counter < usize::MAX,
    ensures
        r@ == groups_y@.insert(
            group_id,
            if groups_y@[group_id].contains_key(removed) && is_member_spec(
                groups_y@[group_id][removed],
            ) {
                groups_y@[group_id].insert(
                    removed,
                    MemberState {
                        member_counter: (groups_y@[group_id][removed].member_counter + 1) as usize,
                        access: groups_y@[group_id][removed].access,
                        access_counter: groups_y@[group_id][removed].access_counter,
                    },
                )
            } else {
                groups_y@[group_id]
            },
        ),
{
    proof {
        use_type_invariant(&groups_y);
    }
    let ghost g0 = groups_y@;
    let GroupStates { mut groups } = groups_y;
    let members_y = take_group(&mut groups, group_id);
    let next = state::mark_removed(members_y, removed);
    put_group(&mut groups, group_id, next);
    proof {
        assert(groups_view(groups@) =~= g0.insert(group_id, next@));
    }
    GroupStates { groups }
}


/// Only managers modify groups: when an action other than `Create` is applied by `actor` and
/// changes the members of the group, `actor` is an active member of the group with `Manage`
/// access.
pub proof fn lemma_only_managers_modify<ID, OP, C: Clone + PartialEq>(
    groups: Map<ID, MembersView<ID, C>>,
    group_id: ID,
    id: OP,
    actor: ID,
    action: GroupAction<ID, C>,
    filter: Seq<OP>,
    r: StateChangeResult<ID, C>,
)
    requires
        apply_outcome(groups, group_id, id, actor, action, filter, r),
        !(action is Create),
        result_state(r)@[group_id] != base_of(groups, group_id, action),
    ensures
        actor_check(groups[group_id], GroupMember::Individual(actor)) is Ok,
{
}

/// A filtered operation changes nothing: the group states after it are the ones before (a group it
/// creates starts empty).
pub proof fn lemma_filtered_changes_nothing<ID, OP, C: Clone + PartialEq>(
    groups: Map<ID, MembersView<ID, C>>,
    group_id: ID,
    id: OP,
    actor: ID,
    action: GroupAction<ID, C>,
    filter: Seq<OP>,
    r: StateChangeResult<ID, C>,
)
    requires
        apply_outcome(groups, group_id, id, actor, action, filter, r),
        filter.contains(id),
    ensures
        result_state(r)@ == groups.insert(group_id, base_of(groups, group_id, action)),
{
}

/// With exact clones, an action's access level converts to exactly one group-state access level.
proof fn lemma_converted_unique<C: Clone>(a: Access<C>, g1: access::Access<C>, g2: access::Access<C>)
    requires
        clones_exact::<C>(),
        converted(a, g1),
        converted(a, g2),
    ensures
        g1 == g2,
{
    if a.level == AccessLevel::Write {
        match (g1, g2) {
            (access::Access::Write { conditions: x }, access::Access::Write { conditions: y }) => {
                match (a.conditions, x, y) {
                    (Some(p), Some(q1), Some(q2)) => {
                        assert(cloned(p, q1));
                        assert(cloned(p, q2));
                    },
                    _ => {},
                }
            },
            _ => {},
        }
    }
}

/// Applying an action is deterministic: with exact clones and an equality of conditions which
/// follows its specification, every outcome of applying the same action to the same group states
/// leaves the same group states.
pub proof fn lemma_apply_outcome_unique<ID, OP, C: Clone + PartialEq>(
    groups: Map<ID, MembersView<ID, C>>,
    group_id: ID,
    id: OP,
    actor: ID,
    action: GroupAction<ID, C>,
    filter: Seq<OP>,
    r1: StateChangeResult<ID, C>,
    r2: StateChangeResult<ID, C>,
)
    requires
        apply_outcome(groups, group_id, id, actor, action, filter, r1),
        apply_outcome(groups, group_id, id, actor, action, filter, r2),
        clones_exact::<C>(),
        C::obeys_eq_spec(),
    ensures
        result_state(r1)@ == result_state(r2)@,
{
    let base = base_of(groups, group_id, action);
    if !filter.contains(id) && change_error(base, actor, action) is None {
        let o1 = result_state(r1)@[group_id];
        let o2 = result_state(r2)@[group_id];
        assert(o1 == o2) by {
            match action {
                GroupAction::Create { initial_members } => {
                    assert forall|k: GroupMember<ID>| #[trigger] o1.contains_key(k) implies o1[k] == o2[k] by {
                        assert(has_key(initial_members@, k));
                        assert(o2.contains_key(k));
                        let i1 = choose|i: int| last_index_of(initial_members@, k, i) && converted(
                            #[trigger] initial_members@[i].1,
                            o1[k].access,
                        );
                        let i2 = choose|i: int| last_index_of(initial_members@, k, i) && converted(
                            #[trigger] initial_members@[i].1,
                            o2[k].access,
                        );
                        if i1 < i2 {
                            assert(initial_members@[i2].0 != k);
                        }
                        if i2 < i1 {
                            assert(initial_members@[i1].0 != k);
                        }
                        lemma_converted_unique(initial_members@[i1].1, o1[k].access, o2[k].access);
                    }
                    assert(o1 =~= o2);
                },
                GroupAction::Add { member, access } => {
                    let g1 = choose|g: access::Access<C>| #[trigger] converted(access, g) && o1 == add_spec(
                        base,
                        GroupMember::Individual(actor),
                        member,
                        g,
                    )->Ok_0;
                    let g2 = choose|g: access::Access<C>| #[trigger] converted(access, g) && o2 == add_spec(
                        base,
                        GroupMember::Individual(actor),
                        member,
                        g,
                    )->Ok_0;
                    lemma_converted_unique(access, g1, g2);
                },
                GroupAction::Remove { .. } => {},
                GroupAction::Promote { member, access } => {
                    let g1 = choose|g: access::Access<C>| #[trigger] converted(access, g) && if is_manager_spec(base[member]) {
                        o1 == base
                    } else {
                        modify_outcome(base, GroupMember::Individual(actor), member, g, Ok(o1))
                    };
                    let g2 = choose|g: access::Access<C>| #[trigger] converted(access, g) && if is_manager_spec(base[member]) {
                        o2 == base
                    } else {
                        modify_outcome(base, GroupMember::Individual(actor), member, g, Ok(o2))
                    };
                    lemma_converted_unique(access, g1, g2);
                },
                GroupAction::Demote { member, access } => {
                    let g1 = choose|g: access::Access<C>| #[trigger] converted(access, g) && if base[member].access is Pull {
                        o1 == base
                    } else {
                        modify_outcome(base, GroupMember::Individual(actor), member, g, Ok(o1))
                    };
                    let g2 = choose|g: access::Access<C>| #[trigger] converted(access, g) && if base[member].access is Pull {
                        o2 == base
                    } else {
                        modify_outcome(base, GroupMember::Individual(actor), member, g, Ok(o2))
                    };
                    lemma_converted_unique(access, g1, g2);
                },
            }
        }
        assert(result_state(r1)@ =~= result_state(r2)@);
    }
}

// ------------------------------------------------------------------------------------------------
// Nested groups
// ------------------------------------------------------------------------------------------------

/// Group `g` holds group `h` as an active member.
pub open spec fn holds_subgroup<ID, C>(groups: Map<ID, MembersView<ID, C>>, g: ID, h: ID) -> bool {
    &&& groups.contains_key(g)
    &&& groups[g].contains_key(GroupMember::Group(h))
    &&& is_member_spec(groups[g][GroupMember::Group(h)])
}

/// The sub-group relation of all groups: an edge from each group to each group it holds.
pub open spec fn subgroup_edges<ID, C>(groups: Map<ID, MembersView<ID, C>>) -> Set<(ID, ID)> {
    Set::new(|e: (ID, ID)| holds_subgroup(groups, e.0, e.1))
}

/// Adding `action` to group `group_id` would close a cycle of nested groups: it adds a group
/// from which `group_id` can be reached through sub-groups (or `group_id` itself).
pub open spec fn closes_cycle<ID, C>(
    groups: Map<ID, MembersView<ID, C>>,
    group_id: ID,
    action: GroupAction<ID, C>,
) -> bool {
    match action {
        GroupAction::Add { member: GroupMember::Group(child), .. } => reaches(
            subgroup_edges(groups),
            child,
            group_id,
        ),
        _ => false,
    }
}

impl<ID: IdentityHandle, C> GroupStates<ID, C> {
    /// The groups which group `g` holds as active members.
    pub fn subgroups(&self, g: &ID) -> (r: Vec<ID>)
        ensures
            forall|h: ID| #[trigger] r@.contains(h) <==> holds_subgroup(self@, *g, h),
    {
        match self.get(g) {
            None => Vec::new(),
            Some(members_y) => {
                let members = members_y.members();
                let mut out: Vec<ID> = Vec::new();
                let mut i: usize = 0;
                while i < members.len()
                    invariant
                        i <= members@.len(),
                        forall|h: ID| #[trigger] out@.contains(h) <==> exists|j: int|
                            0 <= j < i && #[trigger] members@[j] == GroupMember::Group(h),
                    decreases members@.len() - i,
                {
                    match members[i] {
                        GroupMember::Group(h) => {
                            let ghost before = out@;
                            out.push(h);
                            proof {
                                assert forall|x: ID| #[trigger] out@.contains(x) <==> exists|j: int|
                                    0 <= j < i + 1 && #[trigger] members@[j] == GroupMember::Group(x) by {
                                    if out@.contains(x) && x != h {
                                        let k = choose|k: int| 0 <= k < out@.len() && out@[k] == x;
                                        assert(before[k] == x);
                                        assert(before.contains(x));
                                    }
                                    if exists|j: int| 0 <= j < i && #[trigger] members@[j] == GroupMember::Group(x) {
                                        assert(before.contains(x));
                                        let k = choose|k: int| 0 <= k < before.len() && before[k] == x;
                                        assert(out@[k] == x);
                                    }
                                    if x == h {
                                        assert(out@[out@.len() - 1] == x);
                                    }
                                }
                            }
                        },
                        GroupMember::Individual(_) => {},
                    }
                    i = i + 1;
                }
                proof {
                    assert forall|h: ID| #[trigger] out@.contains(h) <==> holds_subgroup(self@, *g, h) by {
                        if out@.contains(h) {
                            let j = choose|j: int| 0 <= j < i && #[trigger] members@[j] == GroupMember::Group(h);
                            assert(members@.contains(members@[j]));
                        }
                        if holds_subgroup(self@, *g, h) {
                            assert(members@.contains(GroupMember::Group(h)));
                            let j = choose|j: int| 0 <= j < members@.len() && members@[j] == GroupMember::Group(h);
                        }
                    }
                }
                out
            },
        }
    }
}


/// Number of entries of `s` whose key is not in `visited`.
pub open spec fn unvisited<K, V>(s: Seq<(K, V)>, visited: Seq<K>) -> nat
    decreases s.len(),
{
    if s.len() == 0 {
        0
    } else {
        unvisited(s.drop_last(), visited) + if visited.contains(s.last().0) {
            0nat
        } else {
            1nat
        }
    }
}

proof fn lemma_unvisited_visit<K, V>(s: Seq<(K, V)>, visited: Seq<K>, c: K)
    requires
        keys_distinct(s),
    ensures
        unvisited(s, visited.push(c)) + (if has_key(s, c) && !visited.contains(c) {
            1nat
        } else {
            0nat
        }) == unvisited(s, visited),
    decreases s.len(),
{
    let v2 = visited.push(c);
    assert forall|x: K| v2.contains(x) <==> (visited.contains(x) || x == c) by {
        if v2.contains(x) {
            let i = choose|i: int| 0 <= i < v2.len() && v2[i] == x;
            if i < visited.len() {
                assert(visited[i] == x);
            }
        }
        if visited.contains(x) {
            let i = choose|i: int| 0 <= i < visited.len() && visited[i] == x;
            assert(v2[i] == x);
        }
        if x == c {
            assert(v2[visited.len() as int] == x);
        }
    }
    if s.len() > 0 {
        let t = s.drop_last();
        assert(keys_distinct(t)) by {
            assert forall|i: int, j: int| 0 <= i < t.len() && 0 <= j < t.len() && i != j implies t[i].0 != t[j].0 by {
                assert(t[i] == s[i] && t[j] == s[j]);
            }
        }
        lemma_unvisited_visit(t, visited, c);
        assert(has_key(s, c) <==> (has_key(t, c) || s.last().0 == c)) by {
            if has_key(s, c) {
                let i = choose|i: int| 0 <= i < s.len() && s[i].0 == c;
                if i < t.len() {
                    assert(t[i] == s[i]);
                }
            }
            if has_key(t, c) {
                let i = choose|i: int| 0 <= i < t.len() && t[i].0 == c;
                assert(s[i] == t[i]);
            }
        }
        if has_key(t, c) && s.last().0 == c {
            let i = choose|i: int| 0 <= i < t.len() && t[i].0 == c;
            assert(s[i].0 == s[s.len() - 1].0);
        }
    }
}

/// A path starting in a set closed under the edges stays in the set.
proof fn lemma_closed_reach<N>(edges: Set<(N, N)>, set: Seq<N>, a: N, b: N)
    requires
        set.contains(a),
        forall|x: N, y: N| #![trigger set.contains(x), edges.contains((x, y))] set.contains(x) && edges.contains((x, y)) ==> set.contains(y),
        reaches(edges, a, b),
    ensures
        set.contains(b),
{
    let p = choose|p: Seq<N>| #[trigger] is_path(edges, p) && p[0] == a && p[p.len() - 1] == b;
    lemma_closed_path(edges, set, p, 0);
}

proof fn lemma_closed_path<N>(edges: Set<(N, N)>, set: Seq<N>, p: Seq<N>, i: int)
    requires
        is_path(edges, p),
        0 <= i < p.len(),
        set.contains(p[i]),
        forall|x: N, y: N| #![trigger set.contains(x), edges.contains((x, y))] set.contains(x) && edges.contains((x, y)) ==> set.contains(y),
    ensures
        set.contains(p[p.len() - 1]),
    decreases p.len() - i,
{
    if i < p.len() - 1 {
        assert(p[i] == p[i] && p[i + 1] == p[i + 1]);
        assert(edges.contains((p[i], p[i + 1])));
        lemma_closed_path(edges, set, p, i + 1);
    }
}

/// A path extended by an edge is a path.
proof fn lemma_reach_extend<N>(edges: Set<(N, N)>, a: N, b: N, c: N)
    requires
        reaches(edges, a, b),
        edges.contains((b, c)),
    ensures
        reaches(edges, a, c),
{
    let p = choose|p: Seq<N>| #[trigger] is_path(edges, p) && p[0] == a && p[p.len() - 1] == b;
    let q = p.push(c);
    assert forall|i: int, j: int| #![trigger q[i], q[j]] 0 <= i && j == i + 1 && j < q.len() implies edges.contains((q[i], q[j])) by {
        if j < p.len() {
            assert(q[i] == p[i] && q[j] == p[j]);
            assert(p[i] == p[i] && p[j] == p[j]);
        }
    }
    assert(is_path(edges, q));
}

proof fn lemma_reach_self<N>(edges: Set<(N, N)>, a: N)
    ensures
        reaches(edges, a, a),
{
    assert(is_path(edges, seq![a]));
}

/// Returns `true` if `x` occurs in `v`.
fn contains_id<ID: IdentityHandle>(v: &Vec<ID>, x: ID) -> (r: bool)
    ensures
        r == v@.contains(x),
{
    let mut i: usize = 0;
    while i < v.len()
        invariant
            i <= v@.len(),
            forall|j: int| 0 <= j < i ==> v@[j] != x,
        decreases v@.len() - i,
    {
        if v[i].is_same(&x) {
            return true;
        }
        i = i + 1;
    }
    false
}

impl<ID: IdentityHandle, C> GroupStates<ID, C> {
    /// Returns `true` if group `target` can be reached from group `start` through sub-groups.
    fn reaches_group(&self, start: ID, target: ID) -> (r: bool)
        ensures
            r == reaches(subgroup_edges(self@), start, target),
    {
        proof {
            use_type_invariant(self);
        }
        let ghost edges = subgroup_edges(self@);
        let ghost groups = self.groups@;
        let mut stack: Vec<ID> = Vec::new();
        stack.push(start);
        let mut visited: Vec<ID> = Vec::new();
        proof {
            lemma_reach_self(edges, start);
            assert(stack@[0] == start);
        }
        while stack.len() > 0
            invariant
                edges == subgroup_edges(self@),
                groups == self.groups@,
                keys_distinct(groups),
                visited@.contains(start) || stack@.contains(start),
                !visited@.contains(target),
                forall|x: ID| #[trigger] visited@.contains(x) ==> reaches(edges, start, x),
                forall|x: ID| #[trigger] stack@.contains(x) ==> reaches(edges, start, x),
                forall|x: ID, y: ID|
                    #![trigger visited@.contains(x), edges.contains((x, y))]
                    visited@.contains(x) && edges.contains((x, y)) ==> visited@.contains(y)
                        || stack@.contains(y),
            decreases unvisited(groups, visited@), stack@.len(),
        {
            let ghost stack_before = stack@;
            let c = stack.pop().unwrap();
            proof {
                assert(stack_before[stack_before.len() - 1] == c);
                assert(stack_before.contains(c));
                assert forall|x: ID| stack_before.contains(x) implies stack@.contains(x) || x == c by {
                    let i = choose|i: int| 0 <= i < stack_before.len() && stack_before[i] == x;
                    if i < stack@.len() {
                        assert(stack@[i] == x);
                    }
                }
                assert forall|x: ID| #[trigger] stack@.contains(x) implies stack_before.contains(x) by {
                    let i = choose|i: int| 0 <= i < stack@.len() && stack@[i] == x;
                    assert(stack_before[i] == x);
                }
            }
            if contains_id(&visited, c) {
                proof {
                    lemma_unvisited_visit(groups, visited@, c);
                }
                continue;
            }
            let ghost visited_before = visited@;
            visited.push(c);
            proof {
                lemma_unvisited_visit(groups, visited_before, c);
                assert forall|x: ID| #[trigger] visited@.contains(x) <==> (visited_before.contains(x) || x == c) by {
                    if visited@.contains(x) {
                        let i = choose|i: int| 0 <= i < visited@.len() && visited@[i] == x;
                        if i < visited_before.len() {
                            assert(visited_before[i] == x);
                        }
                    }
                    if visited_before.contains(x) {
                        let i = choose|i: int| 0 <= i < visited_before.len() && visited_before[i] == x;
                        assert(visited@[i] == x);
                    }
                    if x == c {
                        assert(visited@[visited_before.len() as int] == x);
                    }
                }
            }
            if c.is_same(&target) {
                return true;
            }
            let subs = self.subgroups(&c);
            let ghost stack_mid = stack@;
            let mut k: usize = 0;
            while k < subs.len()
                invariant
                    k <= subs@.len(),
                    edges == subgroup_edges(self@),
                    reaches(edges, start, c),
                    forall|h: ID| #[trigger] subs@.contains(h) <==> holds_subgroup(self@, c, h),
                    forall|x: ID| #[trigger] stack@.contains(x) <==> (stack_mid.contains(x) || exists|j: int|
                        0 <= j < k && subs@[j] == x),
                    stack@.len() == stack_mid.len() + k,
                    forall|x: ID| #[trigger] stack_mid.contains(x) ==> reaches(edges, start, x),
                    forall|x: ID| #[trigger] stack@.contains(x) ==> reaches(edges, start, x),
                decreases subs@.len() - k,
            {
                let h = subs[k];
                proof {
                    assert(subs@.contains(h));
                    assert(edges.contains((c, h)));
                    lemma_reach_extend(edges, start, c, h);
                }
                let ghost before = stack@;
                stack.push(h);
                proof {
                    assert forall|x: ID| #[trigger] stack@.contains(x) <==> (stack_mid.contains(x) || exists|j: int|
                        0 <= j < k + 1 && subs@[j] == x) by {
                        if stack@.contains(x) {
                            let i = choose|i: int| 0 <= i < stack@.len() && stack@[i] == x;
                            if i < before.len() {
                                assert(before[i] == x);
                                assert(before.contains(x));
                            }
                        }
                        if stack_mid.contains(x) || exists|j: int| 0 <= j < k && subs@[j] == x {
                            assert(before.contains(x));
                            let i = choose|i: int| 0 <= i < before.len() && before[i] == x;
                            assert(stack@[i] == x);
                        }
                        if x == h {
                            assert(stack@[stack@.len() - 1] == x);
                        }
                    }
                    assert forall|x: ID| #[trigger] stack@.contains(x) implies reaches(edges, start, x) by {
                        if x != h {
                            let i = choose|i: int| 0 <= i < stack@.len() && stack@[i] == x;
                            assert(before[i] == x);
                            assert(before.contains(x));
                        }
                    }
                }
                k = k + 1;
            }
            proof {
                if subs@.len() > 0 {
                    assert(subs@.contains(subs@[0]));
                    assert(self@.contains_key(c));
                    assert(has_key(groups, c));
                }
                assert forall|x: ID, y: ID|
                    #![trigger visited@.contains(x), edges.contains((x, y))]
                    visited@.contains(x) && edges.contains((x, y)) implies visited@.contains(y)
                        || stack@.contains(y) by {
                    if x == c {
                        assert(subs@.contains(y));
                        let j = choose|j: int| 0 <= j < subs@.len() && subs@[j] == y;
                    } else {
                        assert(visited_before.contains(x));
                        if !visited_before.contains(y) {
                            assert(stack_before.contains(y));
                            if y != c {
                                assert(stack_mid.contains(y));
                            }
                        }
                    }
                }
            }
        }
        proof {
            if reaches(edges, start, target) {
                lemma_closed_reach(edges, visited@, start, target);
            }
        }
        false
    }

    /// Returns `true` if the given action on group `group_id` would create a cycle of nested
    /// groups: it adds a group from which `group_id` can be reached through sub-groups.
    pub fn would_create_cycle(&self, group_id: ID, action: &GroupAction<ID, C>) -> (r: bool)
        ensures
            r == closes_cycle(self@, group_id, *action),
    {
        match action {
            GroupAction::Add { member: GroupMember::Group(child), .. } => self.reaches_group(*child, group_id),
            _ => false,
        }
    }
}


// ------------------------------------------------------------------------------------------------
// Merging the states of several operations
// ------------------------------------------------------------------------------------------------

/// Errors of the group CRDT's inner state.
#[derive(Debug, PartialEq)]
pub enum GroupCrdtInnerError<OP> {
    /// The states of some of the given operations are not known.
    StatesNotFound(Vec<OP>),
    /// An operation of the graph is not among the processed operations.
    OperationNotFound(OP),
    /// The operation's action cannot be applied: its group is not known, or a counter of the
    /// group's members has reached its limit.
    ActionNotApplicable(OP),
}

/// `b` is a copy of `a` made with `Clone`: the same groups, members and counters, with cloned
/// access levels.
pub open spec fn groups_cloned<ID, C: Clone>(a: Map<ID, MembersView<ID, C>>, b: Map<ID, MembersView<ID, C>>) -> bool {
    &&& a.dom() == b.dom()
    &&& forall|g: ID|
        #[trigger] a.contains_key(g) ==> a[g].dom() == b[g].dom() && forall|k: GroupMember<ID>|
            #[trigger] a[g].contains_key(k) ==> member_cloned(a[g][k], b[g][k])
}

/// Cloning conditions yields equal conditions.
pub open spec fn clones_exact<C: Clone>() -> bool {
    forall|a: C, b: C| #[trigger] cloned(a, b) ==> a == b
}

impl<ID: IdentityHandle, C: Clone> Clone for GroupStates<ID, C> {
    fn clone(&self) -> (r: Self)
        ensures
            groups_cloned(self@, r@),
    {
        proof {
            use_type_invariant(self);
        }
        let ghost s = self.groups@;
        let mut out: Vec<(ID, GroupMembersState<GroupMember<ID>, C>)> = Vec::new();
        let mut i: usize = 0;
        while i < self.groups.len()
            invariant
                i <= s.len(),
                s == self.groups@,
                keys_distinct(s),
                out@.len() == i,
                forall|j: int| 0 <= j < i ==> #[trigger] out@[j].0 == s[j].0,
                forall|j: int| 0 <= j < i ==> (#[trigger] out@[j]).1@.dom() == s[j].1@.dom(),
                forall|j: int, k: GroupMember<ID>|
                    #![trigger out@[j].1@[k]]
                    0 <= j < i && s[j].1@.contains_key(k) ==> member_cloned(s[j].1@[k], out@[j].1@[k]),
            decreases s.len() - i,
        {
            out.push((self.groups[i].0, self.groups[i].1.clone()));
            i = i + 1;
        }
        proof {
            assert forall|a: int, b: int| 0 <= a < out@.len() && 0 <= b < out@.len() && a != b implies out@[a].0
                != out@[b].0 by {
                assert(out@[a].0 == s[a].0);
                assert(out@[b].0 == s[b].0);
            }
            let m1 = groups_view(out@);
            let m0 = groups_view(s);
            assert forall|g: ID| #[trigger] m1.contains_key(g) == m0.contains_key(g) by {
                if has_key(out@, g) {
                    let j = choose|j: int| 0 <= j < out@.len() && out@[j].0 == g;
                    assert(s[j].0 == g);
                }
                if has_key(s, g) {
                    let j = choose|j: int| 0 <= j < s.len() && s[j].0 == g;
                    assert(out@[j].0 == g);
                }
            }
            assert(m0.dom() =~= m1.dom());
            assert forall|g: ID| #[trigger] m0.contains_key(g) implies m0[g].dom() == m1[g].dom() && forall|
                k: GroupMember<ID>,
            | #[trigger] m0[g].contains_key(k) ==> member_cloned(m0[g][k], m1[g][k]) by {
                let j = choose|j: int| 0 <= j < s.len() && s[j].0 == g;
                lemma_entries_map_index(s, j);
                lemma_entries_map_index(out@, j);
                assert forall|k: GroupMember<ID>| #[trigger] m0[g].contains_key(k) implies member_cloned(m0[g][k], m1[g][k]) by {
                    assert(s[j].1@.contains_key(k));
                    assert(member_cloned(s[j].1@[k], out@[j].1@[k]));
                }
            }
        }
        GroupStates { groups: out }
    }
}

/// The group states of `prev` and `next` combined: groups known to both are merged with
/// `group::state::merge` (the state of `next` first), other groups are taken as they are.
pub open spec fn combine<ID, C: PartialOrd>(
    prev: Map<ID, MembersView<ID, C>>,
    next: Map<ID, MembersView<ID, C>>,
) -> Map<ID, MembersView<ID, C>> {
    Map::new(
        |g: ID| prev.contains_key(g) || next.contains_key(g),
        |g: ID|
            if next.contains_key(g) && prev.contains_key(g) {
                merge_spec(next[g], prev[g])
            } else if next.contains_key(g) {
                next[g]
            } else {
                prev[g]
            },
    )
}

/// The group states of the operations `ids`, combined in order.
pub open spec fn merged_view<ID, C: PartialOrd>(
    states: Map<u32, Map<ID, MembersView<ID, C>>>,
    ids: Seq<u32>,
) -> Map<ID, MembersView<ID, C>>
    decreases ids.len(),
{
    if ids.len() == 0 {
        Map::empty()
    } else {
        combine(merged_view(states, ids.drop_last()), states[ids.last()])
    }
}

/// The groups known to any of the states of the operations `ids`.
pub open spec fn merged_groups<ID, C>(states: Map<u32, Map<ID, MembersView<ID, C>>>, ids: Seq<u32>) -> Set<ID> {
    Set::new(|g: ID| exists|i: int| 0 <= i < ids.len() && #[trigger] states[ids[i]].contains_key(g))
}

/// Merge the group states of `next` into `prev`.
fn merge_groups<ID: IdentityHandle, C: PartialOrd>(prev: GroupStates<ID, C>, next: GroupStates<ID, C>) -> (r:
    GroupStates<ID, C>)
    ensures
        r@.dom() == prev@.dom().union(next@.dom()),
        conditions_ordered::<C>() ==> r@ == combine(prev@, next@),
{
    proof {
        use_type_invariant(&prev);
        use_type_invariant(&next);
    }
    let ghost p0 = prev@;
    let ghost n0 = next@;
    let ghost ns = next.groups@;
    let GroupStates { mut groups } = prev;
    let GroupStates { groups: mut rest } = next;
    proof {
        assert(ns.skip(ns.len() as int) =~= Seq::<(ID, GroupMembersState<GroupMember<ID>, C>)>::empty());
        assert(rest@ =~= ns.take(ns.len() as int));
        assert(groups_view(groups@).dom() =~= p0.dom().union(groups_view(ns.skip(ns.len() as int)).dom()));
        assert(combine(p0, groups_view(ns.skip(ns.len() as int))) =~= p0);
    }
    while rest.len() > 0
        invariant
            keys_distinct(groups@),
            keys_distinct(ns),
            rest@.len() <= ns.len(),
            rest@ == ns.take(rest@.len() as int),
            groups_view(groups@).dom() == p0.dom().union(groups_view(ns.skip(rest@.len() as int)).dom()),
            conditions_ordered::<C>() ==> groups_view(groups@) == combine(p0, groups_view(ns.skip(rest@.len() as int))),
        decreases rest@.len(),
    {
        let ghost n = rest@.len() as int;
        let (g, state) = rest.pop().unwrap();
        proof {
            assert(ns.take(n)[n - 1] == ns[n - 1]);
            assert(g == ns[n - 1].0 && state == ns[n - 1].1);
            assert(rest@ =~= ns.take(n - 1));
            state::lemma_suffix_extend(ns, n);
        }
        let ghost before = groups_view(groups@);
        let ghost had = before.contains_key(g);
        let ghost done = groups_view(ns.skip(n));
        let ghost done_next = groups_view(ns.skip(n - 1));
        let merged = match find_group(&groups, g) {
            Some(_) => {
                proof {
                    assert(has_key(groups@, g));
                }
                let current = take_group(&mut groups, g);
                let merged = state::merge(state, current);
                proof {
                    assert(had);
                    if conditions_ordered::<C>() {
                        assert(merged@ == merge_spec(ns[n - 1].1@, before[g]));
                    }
                }
                merged
            },
            None => {
                proof {
                    assert(!had);
                }
                state
            },
        };
        put_group(&mut groups, g, merged);
        proof {
            assert(!done.contains_key(g));
            assert(done_next =~= done.insert(g, ns[n - 1].1@));
            assert(groups_view(groups@).dom() =~= p0.dom().union(done_next.dom()));
            if conditions_ordered::<C>() {
                let after = groups_view(groups@);
                let target = combine(p0, done_next);
                assert(before == combine(p0, done));
                assert forall|k: ID| #[trigger] after.contains_key(k) implies after[k] == target[k] by {
                    if k == g {
                        if had {
                            assert(p0.contains_key(g));
                        } else {
                            assert(!p0.contains_key(g));
                        }
                    } else {
                        assert(done_next.contains_key(k) == done.contains_key(k));
                    }
                }
                assert(after =~= target);
            }
        }
    }
    proof {
        assert(ns.skip(0) =~= ns);
    }
    GroupStates { groups }
}


proof fn lemma_groups_cloned_exact<ID, C: Clone>(a: Map<ID, MembersView<ID, C>>, b: Map<ID, MembersView<ID, C>>)
    requires
        groups_cloned(a, b),
        clones_exact::<C>(),
    ensures
        a == b,
{
    assert forall|g: ID| #[trigger] a.contains_key(g) implies a[g] == b[g] by {
        assert forall|k: GroupMember<ID>| #[trigger] a[g].contains_key(k) implies a[g][k] == b[g][k] by {
            let m1 = a[g][k];
            let m2 = b[g][k];
            assert(member_cloned(m1, m2));
            match (m1.access, m2.access) {
                (access::Access::Write { conditions: x }, access::Access::Write { conditions: y }) => {
                    match (x, y) {
                        (Some(p), Some(q)) => {
                            assert(cloned(p, q));
                        },
                        _ => {},
                    }
                },
                _ => {},
            }
        }
        assert(a[g] =~= b[g]);
    }
    assert(a =~= b);
}

/// Group states recorded after each processed operation.
#[derive(Debug)]
pub struct OperationStates<ID, C = NoConditions> {
    pub(crate) states: Vec<(u32, GroupStates<ID, C>)>,
}

impl<ID, C> OperationStates<ID, C> {
    #[verifier::type_invariant]
    spec fn operations_distinct(self) -> bool {
        keys_distinct(self.states@)
    }
}

impl<ID, C> View for OperationStates<ID, C> {
    type V = Map<u32, Map<ID, MembersView<ID, C>>>;

    closed spec fn view(&self) -> Map<u32, Map<ID, MembersView<ID, C>>> {
        entries_map(self.states@).map_values(|g: GroupStates<ID, C>| g@)
    }
}

impl<ID: IdentityHandle, C: Clone> Clone for OperationStates<ID, C> {
    fn clone(&self) -> (r: Self)
        ensures
            r@.dom() == self@.dom(),
            forall|op: u32| #[trigger] self@.contains_key(op) ==> groups_cloned(self@[op], r@[op]),
    {
        proof {
            use_type_invariant(self);
        }
        let ghost s = self.states@;
        let mut out: Vec<(u32, GroupStates<ID, C>)> = Vec::new();
        let mut i: usize = 0;
        while i < self.states.len()
            invariant
                i <= s.len(),
                s == self.states@,
                keys_distinct(s),
                out@.len() == i,
                forall|j: int| 0 <= j < i ==> #[trigger] out@[j].0 == s[j].0,
                forall|j: int| 0 <= j < i ==> groups_cloned(s[j].1@, (#[trigger] out@[j]).1@),
            decreases s.len() - i,
        {
            out.push((self.states[i].0, self.states[i].1.clone()));
            i = i + 1;
        }
        proof {
            assert forall|a: int, b: int| 0 <= a < out@.len() && 0 <= b < out@.len() && a != b implies out@[a].0
                != out@[b].0 by {
                assert(out@[a].0 == s[a].0);
                assert(out@[b].0 == s[b].0);
            }
            assert forall|op: u32| #[trigger] has_key(out@, op) == has_key(s, op) by {
                if has_key(out@, op) {
                    let j = choose|j: int| 0 <= j < out@.len() && out@[j].0 == op;
                    assert(s[j].0 == op);
                }
                if has_key(s, op) {
                    let j = choose|j: int| 0 <= j < s.len() && s[j].0 == op;
                    assert(out@[j].0 == op);
                }
            }
            let r = OperationStates { states: out };
            assert forall|op: u32| #[trigger] self@.contains_key(op) == r@.contains_key(op) by {
                assert(has_key(out@, op) == has_key(s, op));
            }
            assert(r@.dom() =~= self@.dom());
            assert forall|op: u32| #[trigger] self@.contains_key(op) implies groups_cloned(self@[op], r@[op]) by {
                assert(has_key(s, op));
                let j = choose|j: int| 0 <= j < s.len() && s[j].0 == op;
                lemma_entries_map_index(s, j);
                lemma_entries_map_index(out@, j);
            }
        }
        OperationStates { states: out }
    }
}

/// Position of the entry of operation `op`, if any.
fn find_operation<V>(entries: &Vec<(u32, V)>, op: u32) -> (r: Option<usize>)
    ensures
        match r {
            Some(i) => i < entries@.len() && entries@[i as int].0 == op,
            None => !has_key(entries@, op),
        },
{
    let mut i: usize = 0;
    while i < entries.len()
        invariant
            i <= entries@.len(),
            forall|j: int| 0 <= j < i ==> entries@[j].0 != op,
        decreases entries@.len() - i,
    {
        if entries[i].0 == op {
            return Some(i);
        }
        i = i + 1;
    }
    None
}

impl<ID: IdentityHandle, C> OperationStates<ID, C> {
    /// No recorded states.
    pub fn new() -> (r: Self)
        ensures
            r@ == Map::<u32, Map<ID, MembersView<ID, C>>>::empty(),
    {
        let r = OperationStates { states: Vec::new() };
        assert(r@ =~= Map::<u32, Map<ID, MembersView<ID, C>>>::empty());
        r
    }

    /// Record the group states after operation `op`, replacing earlier ones.
    pub fn insert(self, op: u32, groups: GroupStates<ID, C>) -> (r: Self)
        ensures
            r@ == self@.insert(op, groups@),
    {
        proof {
            use_type_invariant(&self);
        }
        let OperationStates { mut states } = self;
        let ghost s = states@;
        let ghost g = groups;
        match find_operation(&states, op) {
            Some(i) => {
                let _ = state::replace_value(&mut states, i, groups);
                proof {
                    assert(entries_map(states@).map_values(|x: GroupStates<ID, C>| x@) =~= self@.insert(op, g@));
                }
            },
            None => {
                proof {
                    lemma_entries_map_push(s, op, g);
                }
                states.push((op, groups));
                proof {
                    assert(entries_map(states@).map_values(|x: GroupStates<ID, C>| x@) =~= self@.insert(op, g@));
                }
            },
        }
        OperationStates { states }
    }

    /// Merge the group states recorded after the given operations into one: the state of the
    /// groups at the point in history described by these operations.
    ///
    /// Fails, naming all given operations, when the states of some of them are not recorded.
    pub fn state_at(&self, dependencies: &[u32]) -> (r: Result<GroupStates<ID, C>, GroupCrdtInnerError<u32>>)
        where
            C: Clone + PartialOrd,
        ensures
            match r {
                Ok(m) => {
                    &&& forall|i: int| 0 <= i < dependencies@.len() ==> self@.contains_key(#[trigger] dependencies@[i])
                    &&& m@.dom() == merged_groups(self@, dependencies@)
                    &&& (conditions_ordered::<C>() && clones_exact::<C>()) ==> m@ == merged_view(self@, dependencies@)
                },
                Err(e) => {
                    &&& e matches GroupCrdtInnerError::StatesNotFound(ops) && ops@ == dependencies@
                    &&& exists|i: int| 0 <= i < dependencies@.len() && !self@.contains_key(#[trigger] dependencies@[i])
                },
            },
    {
        proof {
            use_type_invariant(self);
        }
        let ghost sm = self@;
        let ghost ids = dependencies@;
        let mut current: GroupStates<ID, C> = GroupStates::new();
        let mut i: usize = 0;
        proof {
            assert(merged_groups(sm, ids.take(0)) =~= Set::<ID>::empty());
            assert(current@.dom() =~= Set::<ID>::empty());
            assert(ids.take(0).len() == 0);
        }
        while i < dependencies.len()
            invariant
                i <= ids.len(),
                ids == dependencies@,
                sm == self@,
                keys_distinct(self.states@),
                forall|j: int| 0 <= j < i ==> sm.contains_key(#[trigger] ids[j]),
                current@.dom() == merged_groups(sm, ids.take(i as int)),
                (conditions_ordered::<C>() && clones_exact::<C>()) ==> current@ == merged_view(sm, ids.take(i as int)),
            decreases ids.len() - i,
        {
            let op = dependencies[i];
            match find_operation(&self.states, op) {
                None => {
                    let mut all: Vec<u32> = Vec::new();
                    let mut k: usize = 0;
                    while k < dependencies.len()
                        invariant
                            k <= ids.len(),
                            ids == dependencies@,
                            all@ == ids.take(k as int),
                        decreases ids.len() - k,
                    {
                        all.push(dependencies[k]);
                        k = k + 1;
                        assert(all@ =~= ids.take(k as int));
                    }
                    proof {
                        assert(ids.take(ids.len() as int) =~= ids);
                        assert(!sm.contains_key(ids[i as int]));
                    }
                    return Err(GroupCrdtInnerError::StatesNotFound(all));
                },
                Some(j) => {
                    proof {
                        lemma_entries_map_index(self.states@, j as int);
                    }
                    let next = self.states[j].1.clone();
                    let ghost prev_view = current@;
                    current = merge_groups(current, next);
                    proof {
                        let t = ids.take(i + 1);
                        assert(t.drop_last() =~= ids.take(i as int));
                        assert(t.last() == op);
                        assert(sm[op] == self.states@[j as int].1@);
                        assert(current@.dom() =~= merged_groups(sm, t)) by {
                            assert forall|g: ID| current@.contains_key(g) <==> merged_groups(sm, t).contains(g) by {
                                if merged_groups(sm, t).contains(g) {
                                    let k = choose|k: int| 0 <= k < t.len() && #[trigger] sm[t[k]].contains_key(g);
                                    if k < i {
                                        assert(ids.take(i as int)[k] == t[k]);
                                        assert(merged_groups(sm, ids.take(i as int)).contains(g));
                                    }
                                }
                                if merged_groups(sm, ids.take(i as int)).contains(g) {
                                    let k = choose|k: int| 0 <= k < i && #[trigger] sm[ids.take(i as int)[k]].contains_key(g);
                                    assert(t[k] == ids.take(i as int)[k]);
                                }
                                if sm[op].contains_key(g) {
                                    assert(t[i as int] == op);
                                }
                            }
                        }
                        if conditions_ordered::<C>() && clones_exact::<C>() {
                            lemma_groups_cloned_exact(sm[op], next@);
                        }
                    }
                },
            }
            i = i + 1;
        }
        proof {
            assert(ids.take(ids.len() as int) =~= ids);
        }
        Ok(current)
    }
}

} // verus!
