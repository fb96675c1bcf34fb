//! Group membership CRDT functions with plain error values.
//!
//! The group state is the one of `group::state`; this module applies membership changes with
//! errors that carry no identifier, and promotes or demotes only in the direction requested.
use vstd::prelude::*;

use crate::group::state::{
    access_lt, access_less_than, add_spec, check_actor, conditions_ordered, merge_outcome, merge_spec,
    modified_entry, modify_check, remove_applies, remove_spec,
};
use crate::traits::IdentityHandle;
use vstd::std_specs::cmp::PartialOrdSpec;

pub use crate::group::state::{Access, GroupMembersState, MemberState};

verus! {

/// Errors which can occur when applying a membership change to a group.
#[derive(Debug, PartialEq)]
pub enum GroupMembershipError {
    /// Tried to add a member who is already active in the group.
    AlreadyAdded,
    /// Tried to remove a member who is already inactive in the group.
    AlreadyRemoved,
    /// Actor lacks sufficient access to update the group.
    InsufficientAccess,
    /// Actor is not an active member of the group.
    InactiveActor,
    /// Member is not an active member of the group.
    InactiveMember,
    /// Actor is not known to the group.
    UnrecognisedActor,
    /// Member is not known to the group.
    UnrecognisedMember,
}

/// The error without its identifier.
pub open spec fn plain_error<ID>(e: crate::group::state::GroupMembershipError<ID>) -> GroupMembershipError {
    match e {
        crate::group::state::GroupMembershipError::AlreadyAdded(_) => GroupMembershipError::AlreadyAdded,
        crate::group::state::GroupMembershipError::AlreadyRemoved(_) => GroupMembershipError::AlreadyRemoved,
        crate::group::state::GroupMembershipError::InsufficientAccess(_) => GroupMembershipError::InsufficientAccess,
        crate::group::state::GroupMembershipError::InactiveActor(_) => GroupMembershipError::InactiveActor,
        crate::group::state::GroupMembershipError::InactiveMember(_) => GroupMembershipError::InactiveMember,
        crate::group::state::GroupMembershipError::UnrecognisedActor(_) => GroupMembershipError::UnrecognisedActor,
        crate::group::state::GroupMembershipError::UnrecognisedMember(_) => GroupMembershipError::UnrecognisedMember,
    }
}

/// A result of the group state module with the error stripped of its identifier.
pub open spec fn plain_result<ID, C>(
    r: Result<Map<ID, MemberState<C>>, crate::group::state::GroupMembershipError<ID>>,
) -> Result<Map<ID, MemberState<C>>, GroupMembershipError> {
    match r {
        Ok(s) => Ok(s),
        Err(e) => Err(plain_error(e)),
    }
}

/// A group state, or the error which prevented a change, seen as a map.
pub open spec fn crdt_result<ID, C>(r: Result<GroupMembersState<ID, C>, GroupMembershipError>) -> Result<
    Map<ID, MemberState<C>>,
    GroupMembershipError,
> {
    match r {
        Ok(s) => Ok(s@),
        Err(e) => Err(e),
    }
}

/// Strip the identifier from an error.
fn to_plain_error<ID>(e: crate::group::state::GroupMembershipError<ID>) -> (r: GroupMembershipError)
    ensures
        r == plain_error(e),
{
    match e {
        crate::group::state::GroupMembershipError::AlreadyAdded(_) => GroupMembershipError::AlreadyAdded,
        crate::group::state::GroupMembershipError::AlreadyRemoved(_) => GroupMembershipError::AlreadyRemoved,
        crate::group::state::GroupMembershipError::InsufficientAccess(_) => GroupMembershipError::InsufficientAccess,
        crate::group::state::GroupMembershipError::InactiveActor(_) => GroupMembershipError::InactiveActor,
        crate::group::state::GroupMembershipError::InactiveMember(_) => GroupMembershipError::InactiveMember,
        crate::group::state::GroupMembershipError::UnrecognisedActor(_) => GroupMembershipError::UnrecognisedActor,
        crate::group::state::GroupMembershipError::UnrecognisedMember(_) => GroupMembershipError::UnrecognisedMember,
    }
}

/// Create a new group with the given set of initial members; this never fails.
pub fn create<ID: IdentityHandle, C: Clone>(initial_members: &[(ID, Access<C>)]) -> (r: Result<
    GroupMembersState<ID, C>,
    GroupMembershipError,
>)
    ensures
        r matches Ok(s) && {
            &&& forall|k: ID| #[trigger] s@.contains_key(k) <==> crate::group::state::has_key(initial_members@, k)
            &&& forall|k: ID|
                #[trigger] s@.contains_key(k) ==> {
                    &&& s@[k].member_counter == 1
                    &&& s@[k].access_counter == 0
                    &&& exists|i: int|
                        crate::group::state::last_index_of(initial_members@, k, i)
                            && crate::group::state::access_cloned(
                            #[trigger] initial_members@[i].1,
                            s@[k].access,
                        )
                }
        },
{
    Ok(crate::group::state::create(initial_members))
}

/// Add a member to the group with the given access level.
///
/// The actor performing the action must be an active member of the group with manager access.
/// Re-adding a previously removed member is supported.
pub fn add<ID: IdentityHandle, C>(
    state: GroupMembersState<ID, C>,
    adder: ID,
    added: ID,
    access: Access<C>,
) -> (r: Result<GroupMembersState<ID, C>, GroupMembershipError>)
    ensures
        crdt_result(r) == plain_result(add_spec(state@, adder, added, access)),
{
    match crate::group::state::add(state, adder, added, access) {
        Ok(s) => Ok(s),
        Err(e) => Err(to_plain_error(e)),
    }
}

/// Remove a member from the group.
///
/// The actor performing the action must be an active member of the group with manager access.
pub fn remove<ID: IdentityHandle, C>(state: GroupMembersState<ID, C>, remover: ID, removed: ID) -> (r:
    Result<GroupMembersState<ID, C>, GroupMembershipError>)
    requires
        remove_applies(state@, remover, removed) ==> state@[removed].member_counter < usize::MAX,
    ensures
        crdt_result(r) == plain_result(remove_spec(state@, remover, removed)),
{
    match crate::group::state::remove(state, remover, removed) {
        Ok(s) => Ok(s),
        Err(e) => Err(to_plain_error(e)),
    }
}

/// Outcome of raising (`raise`) or lowering (`!raise`) the access level of `member` to
/// `access`: the level changes only when it moves in the requested direction.
pub open spec fn shift_spec<ID, C: PartialOrd>(
    s: Map<ID, MemberState<C>>,
    actor: ID,
    member: ID,
    access: Access<C>,
    raise: bool,
) -> Result<Map<ID, MemberState<C>>, GroupMembershipError> {
    match modify_check(s, actor, member) {
        Err(e) => Err(plain_error(e)),
        Ok(_) => if (raise && access_lt(s[member].access, access)) || (!raise && access_lt(
            access,
            s[member].access,
        )) {
            Ok(s.insert(member, modified_entry(s, member, access)))
        } else {
            Ok(s)
        },
    }
}

/// What raising or lowering an access level returns: the exact outcome when the conditions'
/// order follows its specification, and otherwise the same errors and, on success, either the
/// unchanged state or the state with the new access level.
pub open spec fn shift_outcome<ID, C: PartialOrd>(
    s: Map<ID, MemberState<C>>,
    actor: ID,
    member: ID,
    access: Access<C>,
    raise: bool,
    r: Result<Map<ID, MemberState<C>>, GroupMembershipError>,
) -> bool {
    &&& conditions_ordered::<C>() ==> r == shift_spec(s, actor, member, access, raise)
    &&& match modify_check(s, actor, member) {
        Err(e) => r == Err::<Map<ID, MemberState<C>>, GroupMembershipError>(plain_error(e)),
        Ok(_) => r == Ok::<Map<ID, MemberState<C>>, GroupMembershipError>(s) || r == Ok::<
            Map<ID, MemberState<C>>,
            GroupMembershipError,
        >(s.insert(member, modified_entry(s, member, access))),
    }
}

/// Change the access level of `member` when it moves in the requested direction.
fn shift<ID: IdentityHandle, C: PartialOrd>(
    state: GroupMembersState<ID, C>,
    actor: ID,
    member: ID,
    access: Access<C>,
    raise: bool,
) -> (r: Result<GroupMembersState<ID, C>, GroupMembershipError>)
    requires
        modify_check(state@, actor, member) is Ok ==> state@[member].access_counter < usize::MAX,
    ensures
        shift_outcome(state@, actor, member, access, raise, crdt_result(r)),
{
    match check_actor(&state, actor) {
        Err(e) => {
            return Err(to_plain_error(e));
        },
        Ok(_) => {},
    }
    let change = match state.get(&member) {
        None => {
            return Err(GroupMembershipError::UnrecognisedMember);
        },
        Some(m) => {
            if !m.is_member() {
                return Err(GroupMembershipError::InactiveMember);
            }
            if raise {
                access_less_than(&m.access, &access)
            } else {
                access_less_than(&access, &m.access)
            }
        },
    };
    if change {
        Ok(crate::group::state::change_access(state, member, access))
    } else {
        Ok(state)
    }
}

/// Promote a group member to the given access level, if it is higher than their current one.
///
/// The actor performing the action must be an active member of the group with manager access.
pub fn promote<ID: IdentityHandle, C: PartialOrd>(
    state: GroupMembersState<ID, C>,
    promoter: ID,
    promoted: ID,
    access: Access<C>,
) -> (r: Result<GroupMembersState<ID, C>, GroupMembershipError>)
    requires
        modify_check(state@, promoter, promoted) is Ok ==> state@[promoted].access_counter
            < usize::MAX,
    ensures
        shift_outcome(state@, promoter, promoted, access, true, crdt_result(r)),
{
    shift(state, promoter, promoted, access, true)
}

/// Demote a group member to the given access level, if it is lower than their current one.
///
/// The actor performing the action must be an active member of the group with manager access.
pub fn demote<ID: IdentityHandle, C: PartialOrd>(
    state: GroupMembersState<ID, C>,
    demoter: ID,
    demoted: ID,
    access: Access<C>,
) -> (r: Result<GroupMembersState<ID, C>, GroupMembershipError>)
    requires
        modify_check(state@, demoter, demoted) is Ok ==> state@[demoted].access_counter
            < usize::MAX,
    ensures
        shift_outcome(state@, demoter, demoted, access, false, crdt_result(r)),
{
    shift(state, demoter, demoted, access, false)
}

/// Merge two group states into one using a deterministic, conflict-free approach; this never
/// fails.
///
/// See `group::state::merge` for the rules.
pub fn merge<ID: IdentityHandle, C: PartialOrd>(
    state_1: GroupMembersState<ID, C>,
    state_2: GroupMembersState<ID, C>,
) -> (r: Result<GroupMembersState<ID, C>, GroupMembershipError>)
    ensures
        r matches Ok(s) && merge_outcome(state_1@, state_2@, s@),
        r matches Ok(s) && (conditions_ordered::<C>() ==> s@ == merge_spec(state_1@, state_2@)),
{
    Ok(crate::group::state::merge(state_1, state_2))
}

} // verus!
