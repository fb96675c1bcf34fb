//! Members of a group, which are individuals or other groups.
use vstd::prelude::*;

use crate::traits::IdentityHandle;

verus! {

/// A group member which can be a single individual or another group.
///
/// The `Group` variant can be used to express nested group relations. In both cases, the member
/// identifier is the same generic ID.
#[derive(Clone, Copy, Debug, Eq, Hash, PartialEq, PartialOrd, Ord)]
pub enum GroupMember<ID> {
    Individual(ID),
    Group(ID),
}

/// Identifier of a group member.
pub open spec fn member_id<ID>(m: GroupMember<ID>) -> ID {
    match m {
        GroupMember::Individual(id) => id,
        GroupMember::Group(id) => id,
    }
}

impl<ID: Copy> GroupMember<ID> {
    /// Return the ID of a group member.
    pub fn id(&self) -> (r: ID)
        ensures
            r == member_id(*self),
    {
        match self {
            GroupMember::Individual(id) => *id,
            GroupMember::Group(id) => *id,
        }
    }

    /// Return true if this group member is itself a group.
    pub fn is_group(&self) -> (r: bool)
        ensures
            r == (*self is Group),
    {
        match self {
            GroupMember::Individual(_) => false,
            GroupMember::Group(_) => true,
        }
    }

    /// Return true if this group member is an individual.
    pub fn is_individual(&self) -> (r: bool)
        ensures
            r == (*self is Individual),
    {
        !self.is_group()
    }
}

impl<ID: IdentityHandle> IdentityHandle for GroupMember<ID> {
    fn is_same(&self, other: &Self) -> (r: bool) {
        match (self, other) {
            (GroupMember::Individual(a), GroupMember::Individual(b)) => a.is_same(b),
            (GroupMember::Group(a), GroupMember::Group(b)) => a.is_same(b),
            _ => false,
        }
    }
}

} // verus!
