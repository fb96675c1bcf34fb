//! Actions for creating groups and modifying group membership.
use crate::conditions::NoConditions;
use vstd::prelude::*;

use crate::access::Access;
use crate::group::member::GroupMember;

verus! {

/// Actions for creating groups and modifying group membership.
#[derive(Clone, Debug, PartialEq, Eq)]
pub enum GroupAction<ID, C = NoConditions> {
    Create { initial_members: Vec<(GroupMember<ID>, Access<C>)> },
    Add { member: GroupMember<ID>, access: Access<C> },
    Remove { member: GroupMember<ID> },
    Promote { member: GroupMember<ID>, access: Access<C> },
    Demote { member: GroupMember<ID>, access: Access<C> },
}

/// The members an action is about: all initial members of a `Create`, otherwise the one member.
pub open spec fn action_members<ID, C>(action: GroupAction<ID, C>) -> Seq<GroupMember<ID>> {
    match action {
        GroupAction::Create { initial_members } => initial_members@.map_values(
            |p: (GroupMember<ID>, Access<C>)| p.0,
        ),
        GroupAction::Add { member, .. } => seq![member],
        GroupAction::Remove { member } => seq![member],
        GroupAction::Promote { member, .. } => seq![member],
        GroupAction::Demote { member, .. } => seq![member],
    }
}

/// Identifiers of the members which are groups, in order.
pub open spec fn group_ids<ID>(members: Seq<GroupMember<ID>>) -> Seq<ID>
    decreases members.len(),
{
    if members.len() == 0 {
        Seq::empty()
    } else {
        let rest = group_ids(members.drop_last());
        match members.last() {
            GroupMember::Group(id) => rest.push(id),
            GroupMember::Individual(_) => rest,
        }
    }
}

impl<ID: Copy, C> GroupAction<ID, C> {
    /// Return `true` if this is a create action.
    pub fn is_create(&self) -> (r: bool)
        ensures
            r == (*self is Create),
    {
        match self {
            GroupAction::Create { .. } => true,
            _ => false,
        }
    }

    /// Returns groups which are dependant on being able to process this action.
    ///
    /// This calculation looks into the members being added / removed by the action and returns
    /// only the members which are groups.
    pub fn required_groups(&self) -> (r: Vec<ID>)
        ensures
            r@ == group_ids(action_members(*self)),
    {
        match self {
            GroupAction::Create { initial_members } => {
                let ghost members = action_members(*self);
                let mut out: Vec<ID> = Vec::new();
                let mut i: usize = 0;
                while i < initial_members.len()
                    invariant
                        i <= initial_members@.len(),
                        members == initial_members@.map_values(
                            |p: (GroupMember<ID>, Access<C>)| p.0,
                        ),
                        out@ == group_ids(members.take(i as int)),
                    decreases initial_members@.len() - i,
                {
                    let member = initial_members[i].0;
                    proof {
                        assert(members.take(i + 1).drop_last() =~= members.take(i as int));
                        assert(members.take(i + 1).last() == member);
                    }
                    match member {
                        GroupMember::Group(id) => out.push(id),
                        GroupMember::Individual(_) => {},
                    }
                    i = i + 1;
                }
                proof {
                    assert(members.take(initial_members@.len() as int) =~= members);
                }
                out
            },
            GroupAction::Add { member, .. } | GroupAction::Remove { member } | GroupAction::Promote {
                member,
                ..
            } | GroupAction::Demote { member, .. } => {
                let mut out: Vec<ID> = Vec::new();
                proof {
                    assert(seq![*member].drop_last() =~= Seq::<GroupMember<ID>>::empty());
                    assert(seq![*member].last() == *member);
                }
                match member {
                    GroupMember::Group(id) => out.push(*id),
                    GroupMember::Individual(_) => {},
                }
                proof {
                    reveal_with_fuel(group_ids, 2);
                    assert(out@ =~= group_ids(seq![*member]));
                }
                out
            },
        }
    }
}

} // verus!
