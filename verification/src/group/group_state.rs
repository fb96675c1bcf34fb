//! Group membership state with plain, panicking membership changes.
//!
//! This is the earlier interface to the membership CRDT of `group::state`: changes by an actor
//! without manager rights, and changes which would have no effect, leave the state as it is.
use crate::conditions::NoConditions;
use vstd::prelude::*;

use crate::group::access::{access_cloned, access_less_than, access_lt, access_rank, copy_access, Access};
use crate::group::state::{
    self, actor_check, add_spec, conditions_ordered, has_key, is_manager_spec, is_member_spec,
    last_index_of, merge_outcome, merge_spec, modified_entry, remove_spec,
};
use crate::traits::IdentityHandle;
use vstd::std_specs::cmp::PartialOrdSpec;

verus! {

/// Error of the membership changes. They cannot fail at the moment: no value of this type is
/// ever made, and its private field keeps code outside this crate from making one.
#[derive(Debug)]
pub struct GroupMembershipError {
    unused: (),
}

/// Membership state of a single actor, together with the actor's identifier.
#[derive(Debug)]
pub struct MemberState<ID, C = NoConditions> {
    pub member: ID,
    pub member_counter: usize,
    pub access: Access<C>,
    pub access_counter: usize,
}

impl<ID, C> MemberState<ID, C> {
    /// Returns `true` if the actor is an active member (odd member counter).
    pub fn is_member(&self) -> (r: bool)
        ensures
            r == (self.member_counter % 2 != 0),
    {
        self.member_counter % 2 != 0
    }

    /// Returns `true` if the actor holds `Manage` access.
    pub fn is_admin(&self) -> (r: bool)
        ensures
            r == (self.access is Manage),
    {
        match self.access {
            Access::Manage => true,
            _ => false,
        }
    }
}

/// Membership state of all actors known to a group.
#[derive(Debug)]
pub struct GroupMembersState<ID, C = NoConditions> {
    pub(crate) state: state::GroupMembersState<ID, C>,
}

impl<ID, C> View for GroupMembersState<ID, C> {
    type V = Map<ID, state::MemberState<C>>;

    closed spec fn view(&self) -> Map<ID, state::MemberState<C>> {
        self.state@
    }
}

impl<ID: IdentityHandle, C> GroupMembersState<ID, C> {
    /// State of the given actor, if the actor is known to the group.
    pub fn get(&self, id: &ID) -> (r: Option<MemberState<ID, C>>)
        where
            C: Clone,
        ensures
            match r {
                Some(m) => {
                    &&& self@.contains_key(*id)
                    &&& m.member == *id
                    &&& m.member_counter == self@[*id].member_counter
                    &&& m.access_counter == self@[*id].access_counter
                    &&& access_cloned(self@[*id].access, m.access)
                },
                None => !self@.contains_key(*id),
            },
    {
        match self.state.get(id) {
            Some(m) => Some(
                MemberState {
                    member: *id,
                    member_counter: m.member_counter,
                    access: copy_access(&m.access),
                    access_counter: m.access_counter,
                },
            ),
            None => None,
        }
    }

    /// Return all active group members.
    pub fn members(&self) -> (r: Vec<ID>)
        ensures
            r@.no_duplicates(),
            forall|k: ID|
                r@.contains(k) <==> (self@.contains_key(k) && is_member_spec(self@[k])),
    {
        self.state.members()
    }

    /// Return all active group members with manager access.
    pub fn admins(&self) -> (r: Vec<ID>)
        ensures
            r@.no_duplicates(),
            forall|k: ID|
                r@.contains(k) <==> (self@.contains_key(k) && is_member_spec(self@[k])
                    && is_manager_spec(self@[k])),
    {
        self.state.managers()
    }
}

impl<ID: IdentityHandle, C> Default for GroupMembersState<ID, C> {
    fn default() -> (r: Self)
        ensures
            r@ == Map::<ID, state::MemberState<C>>::empty(),
    {
        GroupMembersState { state: state::GroupMembersState::new() }
    }
}

/// Create a group holding the given initial members.
///
/// When an actor appears more than once, its last entry decides its access level.
pub fn create_group<ID: IdentityHandle, C: Clone>(initial_members: &[(ID, Access<C>)]) -> (r:
    Result<GroupMembersState<ID, C>, GroupMembershipError>)
    ensures
        r matches Ok(s) && {
            &&& forall|k: ID| #[trigger] s@.contains_key(k) <==> has_key(initial_members@, k)
            &&& forall|k: ID|
                #[trigger] s@.contains_key(k) ==> {
                    &&& s@[k].member_counter == 1
                    &&& s@[k].access_counter == 0
                    &&& exists|i: int|
                        last_index_of(initial_members@, k, i) && access_cloned(
                            #[trigger] initial_members@[i].1,
                            s@[k].access,
                        )
                }
        },
{
    Ok(GroupMembersState { state: state::create(initial_members) })
}

/// Outcome of adding `member`: an active member stays as it is, otherwise it is (re-)added.
pub open spec fn add_member_spec<ID, C>(
    s: Map<ID, state::MemberState<C>>,
    actor: ID,
    member: ID,
    access: Access<C>,
) -> Map<ID, state::MemberState<C>> {
    if actor_check(s, actor) is Err || (s.contains_key(member) && is_member_spec(s[member])) {
        s
    } else {
        add_spec(s, actor, member, access)->Ok_0
    }
}

/// Add `member` with the given access level, or re-add it if it was removed.
///
/// The actor must be known to the group. When it is not an active member with manager access,
/// the add is not performed and the state comes back unchanged.
pub fn add_member<ID: IdentityHandle, C>(
    state: GroupMembersState<ID, C>,
    actor: ID,
    member: ID,
    access: Access<C>,
) -> (r: Result<GroupMembersState<ID, C>, GroupMembershipError>)
    requires
        state@.contains_key(actor),
    ensures
        r matches Ok(s) && s@ == add_member_spec(state@, actor, member, access),
{
    let allowed = match state.state.get(&actor) {
        Some(a) => a.is_member() && a.is_manager(),
        None => false,
    };
    if !allowed {
        return Ok(state);
    }
    let active = match state.state.get(&member) {
        Some(m) => m.is_member(),
        None => false,
    };
    if active {
        return Ok(state);
    }
    match state::add(state.state, actor, member, access) {
        Ok(s) => Ok(GroupMembersState { state: s }),
        Err(e) => {
            proof {
                assert(false);
            }
            Err(GroupMembershipError { unused: () })
        },
    }
}

/// Outcome of removing `member`: nothing changes when the actor is unknown or the member is not
/// active, otherwise the member's counter is incremented.
pub open spec fn remove_member_spec<ID, C>(
    s: Map<ID, state::MemberState<C>>,
    actor: ID,
    member: ID,
) -> Map<ID, state::MemberState<C>> {
    if actor_check(s, actor) is Err || !is_member_spec(s[member]) {
        s
    } else {
        remove_spec(s, actor, member)->Ok_0
    }
}

/// Remove `member` from the group.
///
/// Nothing changes when the actor is unknown to the group, or is not an active member with
/// manager access. Otherwise `member` must be known to the group.
pub fn remove_member<ID: IdentityHandle, C>(
    state: GroupMembersState<ID, C>,
    actor: ID,
    member: ID,
) -> (r: Result<GroupMembersState<ID, C>, GroupMembershipError>)
    requires
        actor_check(state@, actor) is Ok ==> {
            &&& state@.contains_key(member)
            &&& is_member_spec(state@[member]) ==> state@[member].member_counter < usize::MAX
        },
    ensures
        r matches Ok(s) && s@ == remove_member_spec(state@, actor, member),
{
    let applies = match state.state.get(&actor) {
        None => false,
        Some(a) => a.is_member() && a.is_manager() && match state.state.get(&member) {
            Some(m) => m.is_member(),
            None => false,
        },
    };
    if !applies {
        return Ok(state);
    }
    match state::remove(state.state, actor, member) {
        Ok(s) => Ok(GroupMembersState { state: s }),
        Err(e) => {
            proof {
                assert(false);
            }
            Err(GroupMembershipError { unused: () })
        },
    }
}

/// A change of `member`'s access level towards `access` may be applied: the new level does not
/// rank below the current one, and is strictly higher where the conditions' order follows its
/// specification.
pub open spec fn promote_may_change<ID, C: PartialOrd>(
    s: Map<ID, state::MemberState<C>>,
    member: ID,
    access: Access<C>,
) -> bool {
    &&& access_rank(s[member].access) <= access_rank(access)
    &&& C::obeys_partial_cmp_spec() ==> access_lt(s[member].access, access)
}

/// A change of `member`'s access level towards `access` may be applied when demoting.
pub open spec fn demote_may_change<ID, C: PartialOrd>(
    s: Map<ID, state::MemberState<C>>,
    member: ID,
    access: Access<C>,
) -> bool {
    &&& access_rank(access) <= access_rank(s[member].access)
    &&& C::obeys_partial_cmp_spec() ==> access_lt(access, s[member].access)
}

/// What a change of access level yields: the state with `member` at `access` if the change
/// applies, and the unchanged state otherwise. Whether it applies is decided exactly by
/// `applies` when the conditions' order follows its specification; otherwise a change is only
/// made where `may_change` holds.
pub open spec fn access_change_outcome<ID, C>(
    s: Map<ID, state::MemberState<C>>,
    member: ID,
    access: Access<C>,
    applies: bool,
    may_change: bool,
    exact: bool,
    r: Map<ID, state::MemberState<C>>,
) -> bool {
    &&& exact ==> r == (if applies {
        s.insert(member, modified_entry(s, member, access))
    } else {
        s
    })
    &&& r == s || (may_change && r == s.insert(member, modified_entry(s, member, access)))
}

/// Raise `member`'s access level to `access` if it is currently lower.
///
/// The actor must be known to the group; when it is not an active member with manager access the
/// change is not performed and the state comes back unchanged. Otherwise `member` must be known to
/// the group; the member does not need to be active.
pub fn promote<ID: IdentityHandle, C: PartialOrd>(
    state: GroupMembersState<ID, C>,
    actor: ID,
    member: ID,
    access: Access<C>,
) -> (r: Result<GroupMembersState<ID, C>, GroupMembershipError>)
    requires
        state@.contains_key(actor),
        actor_check(state@, actor) is Ok ==> {
            &&& state@.contains_key(member)
            &&& promote_may_change(state@, member, access) ==> state@[member].access_counter < usize::MAX
        },
    ensures
        r matches Ok(s) && (actor_check(state@, actor) is Err ==> s@ == state@) && (actor_check(state@, actor) is Ok
            ==> access_change_outcome(
            state@,
            member,
            access,
            access_lt(state@[member].access, access),
            promote_may_change(state@, member, access),
            conditions_ordered::<C>(),
            s@,
        )),
{
    let allowed = match state.state.get(&actor) {
        Some(a) => a.is_member() && a.is_manager(),
        None => false,
    };
    if !allowed {
        return Ok(state);
    }
    let raise = match state.state.get(&member) {
        Some(m) => access_less_than(&m.access, &access),
        None => false,
    };
    if raise {
        Ok(GroupMembersState { state: state::change_access(state.state, member, access) })
    } else {
        Ok(state)
    }
}

/// Lower `member`'s access level to `access` if it is currently higher.
///
/// The actor must be known to the group; when it is not an active member with manager access the
/// change is not performed and the state comes back unchanged. Otherwise `member` must be known to
/// the group; the member does not need to be active.
pub fn demote<ID: IdentityHandle, C: PartialOrd>(
    state: GroupMembersState<ID, C>,
    actor: ID,
    member: ID,
    access: Access<C>,
) -> (r: Result<GroupMembersState<ID, C>, GroupMembershipError>)
    requires
        state@.contains_key(actor),
        actor_check(state@, actor) is Ok ==> {
            &&& state@.contains_key(member)
            &&& demote_may_change(state@, member, access) ==> state@[member].access_counter < usize::MAX
        },
    ensures
        r matches Ok(s) && (actor_check(state@, actor) is Err ==> s@ == state@) && (actor_check(state@, actor) is Ok
            ==> access_change_outcome(
            state@,
            member,
            access,
            access_lt(access, state@[member].access),
            demote_may_change(state@, member, access),
            conditions_ordered::<C>(),
            s@,
        )),
{
    let allowed = match state.state.get(&actor) {
        Some(a) => a.is_member() && a.is_manager(),
        None => false,
    };
    if !allowed {
        return Ok(state);
    }
    let lower = match state.state.get(&member) {
        Some(m) => access_less_than(&access, &m.access),
        None => false,
    };
    if lower {
        Ok(GroupMembersState { state: state::change_access(state.state, member, access) })
    } else {
        Ok(state)
    }
}

/// Merge two group states; see `group::state::merge` for how each actor's states combine.
pub fn merge<ID: IdentityHandle, C: PartialOrd>(
    state_1: GroupMembersState<ID, C>,
    state_2: GroupMembersState<ID, C>,
) -> (r: Result<GroupMembersState<ID, C>, GroupMembershipError>)
    ensures
        r matches Ok(s) && {
            &&& merge_outcome(state_1@, state_2@, s@)
            &&& conditions_ordered::<C>() ==> s@ == merge_spec(state_1@, state_2@)
        },
{
    Ok(GroupMembersState { state: state::merge(state_1.state, state_2.state) })
}

} // verus!
