//! Validation methods for group membership actions.
//!
//! Each check works on a list of members with their access levels, as resolved at some point in
//! the history of a group. When an identifier occurs more than once, its first entry counts.
use vstd::prelude::*;

use crate::access::AccessLevel;
use crate::traits::IdentityHandle;

verus! {

/// Position `i` holds the first entry of `members` with identifier `id`.
pub open spec fn first_index_of<ID>(members: Seq<(ID, AccessLevel)>, id: ID, i: int) -> bool {
    &&& 0 <= i < members.len()
    &&& members[i].0 == id
    &&& forall|j: int| 0 <= j < i ==> members[j].0 != id
}

/// The identifier occurs in the member list.
pub open spec fn member_in<ID>(members: Seq<(ID, AccessLevel)>, id: ID) -> bool {
    exists|i: int| 0 <= i < members.len() && #[trigger] members[i].0 == id
}

/// The first entry of the identifier has `Manage` access.
pub open spec fn manager_in<ID>(members: Seq<(ID, AccessLevel)>, id: ID) -> bool {
    exists|i: int| first_index_of(members, id, i) && #[trigger] members[i].1 == AccessLevel::Manage
}

/// The first entry of the identifier has at least `Write` access.
pub open spec fn writer_in<ID>(members: Seq<(ID, AccessLevel)>, id: ID) -> bool {
    exists|i: int| first_index_of(members, id, i) && #[trigger] members[i].1.rank() >= 2
}

/// Some entry of the identifier has an access level greater than or equal to `access`.
pub open spec fn gte_in<ID>(members: Seq<(ID, AccessLevel)>, id: ID, access: AccessLevel) -> bool {
    exists|i: int|
        0 <= i < members.len() && #[trigger] members[i].0 == id && members[i].1.rank()
            >= access.rank()
}

/// Some entry of the identifier has an access level less than or equal to `access`.
pub open spec fn lte_in<ID>(members: Seq<(ID, AccessLevel)>, id: ID, access: AccessLevel) -> bool {
    exists|i: int|
        0 <= i < members.len() && #[trigger] members[i].0 == id && members[i].1.rank()
            <= access.rank()
}

/// Position of the first entry with the given identifier, if any.
fn find_member<ID: IdentityHandle>(id: ID, members: &[(ID, AccessLevel)]) -> (r: Option<usize>)
    ensures
        match r {
            Some(i) => first_index_of(members@, id, i as int),
            None => !member_in(members@, id),
        },
{
    let mut i: usize = 0;
    while i < members.len()
        invariant
            i <= members@.len(),
            forall|j: int| 0 <= j < i ==> members@[j].0 != id,
        decreases members@.len() - i,
    {
        if members[i].0.is_same(&id) {
            return Some(i);
        }
        i = i + 1;
    }
    None
}

/// Returns `true` if the first entry of `actor` has `Manage` access.
pub fn is_manager<ID: IdentityHandle>(actor: ID, members: &[(ID, AccessLevel)]) -> (r: bool)
    ensures
        r == manager_in(members@, actor),
{
    match find_member(actor, members) {
        None => false,
        Some(i) => {
            let level = members[i].1;
            match level {
                AccessLevel::Manage => true,
                _ => {
                    proof {
                        assert forall|j: int|
                            first_index_of(members@, actor, j) implies #[trigger] members@[j].1
                            != AccessLevel::Manage by {
                            assert(j == i);
                        }
                    }
                    false
                },
            }
        },
    }
}

/// Returns `true` if the first entry of `actor` has at least `Write` access.
pub fn is_writer<ID: IdentityHandle>(actor: ID, members: &[(ID, AccessLevel)]) -> (r: bool)
    ensures
        r == writer_in(members@, actor),
{
    match find_member(actor, members) {
        None => false,
        Some(i) => {
            if members[i].1.is_lower_than(&AccessLevel::Write) {
                proof {
                    assert forall|j: int| first_index_of(members@, actor, j) implies #[trigger] members@[j].1.rank()
                        < 2 by {
                        assert(j == i);
                    }
                }
                false
            } else {
                true
            }
        },
    }
}

/// Returns `true` if `member` has an entry in the member list.
pub fn is_member<ID: IdentityHandle>(member: ID, members: &[(ID, AccessLevel)]) -> (r: bool)
    ensures
        r == member_in(members@, member),
{
    find_member(member, members).is_some()
}

/// Check that the actor may write: it must be a member with at least `Write` access.
pub fn can_write<ID: IdentityHandle>(actor: ID, members: &[(ID, AccessLevel)]) -> (r: Result<
    (),
    WriteError,
>)
    ensures
        !member_in(members@, actor) ==> r == Err::<(), WriteError>(WriteError::UnrecognisedActor),
        member_in(members@, actor) && !writer_in(members@, actor) ==> r == Err::<(), WriteError>(
            WriteError::InsufficientAccess,
        ),
        member_in(members@, actor) && writer_in(members@, actor) ==> r is Ok,
{
    if !is_member(actor, members) {
        return Err(WriteError::UnrecognisedActor);
    }
    if !is_writer(actor, members) {
        return Err(WriteError::InsufficientAccess);
    }
    Ok(())
}

/// Check if the member has greater than or equal access to passed level.
pub fn has_gte_access<ID: IdentityHandle>(
    member: ID,
    access: AccessLevel,
    members: &[(ID, AccessLevel)],
) -> (r: bool)
    ensures
        r == gte_in(members@, member, access),
{
    let mut i: usize = 0;
    while i < members.len()
        invariant
            i <= members@.len(),
            forall|j: int|
                0 <= j < i ==> !(#[trigger] members@[j].0 == member && members@[j].1.rank()
                    >= access.rank()),
        decreases members@.len() - i,
    {
        if members[i].0.is_same(&member) && !members[i].1.is_lower_than(&access) {
            return true;
        }
        i = i + 1;
    }
    false
}

/// Check if the member has less than or equal access to passed level.
pub fn has_lte_access<ID: IdentityHandle>(
    member: ID,
    access: AccessLevel,
    members: &[(ID, AccessLevel)],
) -> (r: bool)
    ensures
        r == lte_in(members@, member, access),
{
    let mut i: usize = 0;
    while i < members.len()
        invariant
            i <= members@.len(),
            forall|j: int|
                0 <= j < i ==> !(#[trigger] members@[j].0 == member && members@[j].1.rank()
                    <= access.rank()),
        decreases members@.len() - i,
    {
        if members[i].0.is_same(&member) && !access.is_lower_than(&members[i].1) {
            return true;
        }
        i = i + 1;
    }
    false
}

/// Validate if a member can be added to a group.
///
/// The actor performing the action must be a member with manager rights and the to-be-added
/// member must not already be a member.
pub fn can_add_member<ID: IdentityHandle>(actor: ID, added: ID, members: &[(ID, AccessLevel)]) -> (r:
    Result<(), AddMemberError>)
    ensures
        r == (if !member_in(members@, actor) {
            Err(AddMemberError::UnrecognisedActor)
        } else if !manager_in(members@, actor) {
            Err(AddMemberError::InsufficientAccess)
        } else if member_in(members@, added) {
            Err(AddMemberError::AlreadyAdded)
        } else {
            Ok(())
        }),
{
    if !is_member(actor, members) {
        return Err(AddMemberError::UnrecognisedActor);
    }
    if !is_manager(actor, members) {
        return Err(AddMemberError::InsufficientAccess);
    }
    if is_member(added, members) {
        return Err(AddMemberError::AlreadyAdded);
    }
    Ok(())
}

/// Validate if a member can be removed from a group.
///
/// The actor performing the action must be a member with manager rights and the to-be-removed
/// member must be an existing member.
pub fn can_remove_member<ID: IdentityHandle>(
    actor: ID,
    removed: ID,
    members: &[(ID, AccessLevel)],
) -> (r: Result<(), RemoveMemberError>)
    ensures
        r == (if !member_in(members@, actor) {
            Err(RemoveMemberError::UnrecognisedActor)
        } else if !manager_in(members@, actor) {
            Err(RemoveMemberError::InsufficientAccess)
        } else if !member_in(members@, removed) {
            Err(RemoveMemberError::NonMember)
        } else {
            Ok(())
        }),
{
    if !is_member(actor, members) {
        return Err(RemoveMemberError::UnrecognisedActor);
    }
    if !is_manager(actor, members) {
        return Err(RemoveMemberError::InsufficientAccess);
    }
    if !is_member(removed, members) {
        return Err(RemoveMemberError::NonMember);
    }
    Ok(())
}

/// Validate if an existing group member can be promoted to a higher access level.
///
/// The actor performing the action must be a member with manager rights and the to-be-promoted
/// member must already be a member with lower access level than the promotion gives.
pub fn can_promote_member<ID: IdentityHandle>(
    actor: ID,
    promoted: ID,
    access: AccessLevel,
    members: &[(ID, AccessLevel)],
) -> (r: Result<(), PromoteMemberError>)
    ensures
        r == (if !member_in(members@, actor) {
            Err(PromoteMemberError::UnrecognisedActor)
        } else if !manager_in(members@, actor) {
            Err(PromoteMemberError::InsufficientAccess)
        } else if !member_in(members@, promoted) {
            Err(PromoteMemberError::NonMember)
        } else if gte_in(members@, promoted, access) {
            Err(PromoteMemberError::HasGreaterOrEqualAccess)
        } else {
            Ok(())
        }),
{
    if !is_member(actor, members) {
        return Err(PromoteMemberError::UnrecognisedActor);
    }
    if !is_manager(actor, members) {
        return Err(PromoteMemberError::InsufficientAccess);
    }
    if !is_member(promoted, members) {
        return Err(PromoteMemberError::NonMember);
    }
    if has_gte_access(promoted, access, members) {
        return Err(PromoteMemberError::HasGreaterOrEqualAccess);
    }
    Ok(())
}

/// Validate if an existing group member can be demoted to a lower access level.
///
/// The actor performing the action must be a member with manager rights and the to-be-demoted
/// member must already be a member with higher access level than the demotion allows.
pub fn can_demote_member<ID: IdentityHandle>(
    actor: ID,
    demoted: ID,
    access: AccessLevel,
    members: &[(ID, AccessLevel)],
) -> (r: Result<(), DemoteMemberError>)
    ensures
        r == (if !member_in(members@, actor) {
            Err(DemoteMemberError::UnrecognisedActor)
        } else if !manager_in(members@, actor) {
            Err(DemoteMemberError::InsufficientAccess)
        } else if !member_in(members@, demoted) {
            Err(DemoteMemberError::NonMember)
        } else if lte_in(members@, demoted, access) {
            Err(DemoteMemberError::HasLowerOrEqualAccess)
        } else {
            Ok(())
        }),
{
    if !is_member(actor, members) {
        return Err(DemoteMemberError::UnrecognisedActor);
    }
    if !is_manager(actor, members) {
        return Err(DemoteMemberError::InsufficientAccess);
    }
    if !is_member(demoted, members) {
        return Err(DemoteMemberError::NonMember);
    }
    if has_lte_access(demoted, access, members) {
        return Err(DemoteMemberError::HasLowerOrEqualAccess);
    }
    Ok(())
}

/// Claimed write access could not be verified.
#[derive(Debug)]
pub enum VerifyClaimedWriteError {
    /// Error computing members at claimed state.
    MembersAt(MembersAtError),
    /// Invalid claimed write access.
    InvalidWrite(WriteError),
}

/// Members at a point in history could not be computed.
#[derive(Debug)]
pub enum MembersAtError {
    /// Error occurred rebuilding auth groups graph.
    RebuildFailure(String),
}

/// Reasons why an actor may not write.
#[derive(Debug, PartialEq, Eq)]
pub enum WriteError {
    /// Actor is not a member.
    UnrecognisedActor,
    /// Actor lacks sufficient access to perform a write action.
    InsufficientAccess,
}

/// Reasons why a member may not be added.
#[derive(Debug, PartialEq, Eq)]
pub enum AddMemberError {
    /// Actor is not a member.
    UnrecognisedActor,
    /// Actor lacks sufficient access to add a member.
    InsufficientAccess,
    /// Attempted to re-add an existing member.
    AlreadyAdded,
}

/// Reasons why a member may not be removed.
#[derive(Debug, PartialEq, Eq)]
pub enum RemoveMemberError {
    /// Actor is not a member.
    UnrecognisedActor,
    /// Actor lacks sufficient access to remove a member.
    InsufficientAccess,
    /// Attempted to remove non-member actor.
    NonMember,
}

/// Reasons why a member may not be promoted.
#[derive(Debug, PartialEq, Eq)]
pub enum PromoteMemberError {
    /// Actor is not a member.
    UnrecognisedActor,
    /// Actor lacks sufficient access to add a member.
    InsufficientAccess,
    /// Member already holds greater or equal access.
    HasGreaterOrEqualAccess,
    /// Attempted to promote non-member actor.
    NonMember,
}

/// Reasons why a member may not be demoted.
#[derive(Debug, PartialEq, Eq)]
pub enum DemoteMemberError {
    /// Actor is not a member.
    UnrecognisedActor,
    /// Actor lacks sufficient access to add a member.
    InsufficientAccess,
    /// Member already holds lower or equal access.
    HasLowerOrEqualAccess,
    /// Attempted to demote non-member actor.
    NonMember,
}

} // verus!
