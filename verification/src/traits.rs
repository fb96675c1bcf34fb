//! Generic interfaces required by the data-types of this crate.
use vstd::prelude::*;

use crate::group::access;
use crate::group::action::{action_members, group_ids, GroupAction};
use crate::group::member::GroupMember;
use crate::Access;

verus! {

/// Identifier of an actor, which can be an individual or a group.
///
/// Identifiers are small copyable values which can be compared for equality.
pub trait IdentityHandle: Copy + Sized {
    /// Returns `true` if both handles identify the same actor.
    fn is_same(&self, other: &Self) -> (r: bool)
        ensures
            r == (*self == *other),
    ;
}

/// Identifier of an operation.
pub trait OperationId: Copy + Sized {
    /// Returns `true` if both identifiers name the same operation.
    fn is_same_operation(&self, other: &Self) -> (r: bool)
        ensures
            r == (*self == *other),
    ;
}

/// Conditions associated with an actors access level.
pub trait Conditions: PartialEq + PartialOrd {

}

impl IdentityHandle for char {
    fn is_same(&self, other: &Self) -> (r: bool) {
        *self == *other
    }
}

impl IdentityHandle for u8 {
    fn is_same(&self, other: &Self) -> (r: bool) {
        *self == *other
    }
}

impl IdentityHandle for u16 {
    fn is_same(&self, other: &Self) -> (r: bool) {
        *self == *other
    }
}

impl IdentityHandle for u32 {
    fn is_same(&self, other: &Self) -> (r: bool) {
        *self == *other
    }
}

impl IdentityHandle for u64 {
    fn is_same(&self, other: &Self) -> (r: bool) {
        *self == *other
    }
}

impl IdentityHandle for usize {
    fn is_same(&self, other: &Self) -> (r: bool) {
        *self == *other
    }
}

impl IdentityHandle for i32 {
    fn is_same(&self, other: &Self) -> (r: bool) {
        *self == *other
    }
}

impl IdentityHandle for i64 {
    fn is_same(&self, other: &Self) -> (r: bool) {
        *self == *other
    }
}

impl OperationId for u32 {
    fn is_same_operation(&self, other: &Self) -> (r: bool) {
        *self == *other
    }
}

impl OperationId for u64 {
    fn is_same_operation(&self, other: &Self) -> (r: bool) {
        *self == *other
    }
}

impl Conditions for () {

}


/// Information required from operations processed by the group CRDT.
///
/// Applications implementing this trait should authenticate the original sender of each
/// operation. Each accessor returns the value its specification function names, so that the same
/// operation always reports the same identifier, author, dependencies and action.
pub trait Operation<ID: Copy, OP, C> {
    /// Identifier of the operation.
    spec fn operation_id(&self) -> OP;

    /// Author of the operation.
    spec fn operation_author(&self) -> ID;

    /// Operations this one depends on.
    spec fn operation_dependencies(&self) -> Seq<OP>;

    /// Group the action applies to.
    spec fn operation_group(&self) -> ID;

    /// The group action.
    spec fn operation_action(&self) -> GroupAction<ID, C>;

    /// Id of this operation.
    fn id(&self) -> (r: OP)
        ensures
            r == self.operation_id(),
    ;

    /// ID of the author of this operation.
    fn author(&self) -> (r: ID)
        ensures
            r == self.operation_author(),
    ;

    /// Auth dependencies.
    fn dependencies(&self) -> (r: Vec<OP>)
        ensures
            r@ == self.operation_dependencies(),
    ;

    /// The id of the group the action applies to.
    fn group_id(&self) -> (r: ID)
        ensures
            r == self.operation_group(),
    ;

    /// The group action.
    fn action(&self) -> (r: &GroupAction<ID, C>)
        ensures
            *r == self.operation_action(),
    ;

    /// Returns groups which are dependant on being able to process this action: the groups among
    /// the members the action is about, followed by the target group itself.
    fn required_groups(&self) -> (r: Vec<ID>)
        ensures
            r@ == group_ids(action_members(self.operation_action())).push(self.operation_group()),
    {
        let mut members = self.action().required_groups();
        members.push(self.group_id());
        members
    }
}

/// Creates operations and queues them for processing in an order which respects their
/// dependencies.
pub trait Orderer<ID, OP, P> {
    type State;

    type Operation;

    type Error;

    /// Create a next message with generic payload based on current local state, relevant
    /// meta-data is attached to the message.
    fn next_message(y: Self::State, payload: &P) -> Result<(Self::State, Self::Operation), Self::Error>;

    /// Queue up a new local or remote message.
    fn queue(y: Self::State, message: &Self::Operation) -> Result<Self::State, Self::Error>;

    /// Retrieve the next ready message.
    fn next_ready_message(y: Self::State) -> Result<(Self::State, Option<Self::Operation>), Self::Error>;
}

/// Decides when concurrent operations require the group state to be rebuilt, and how they are
/// resolved.
pub trait Resolver<ID: IdentityHandle, OP: OperationId, C, M> {
    type State;

    type Error;

    /// The decision of `rebuild_required`: a full rebuild is required for `msg` on state `y`.
    spec fn rebuilds(y: Self::State, msg: M) -> bool;

    /// What `process` promises of a successful rebuild of `before` into `after`.
    spec fn rebuilt(before: Self::State, after: Self::State) -> bool;

    /// The inputs on which `rebuild_required` answers without an error.
    spec fn decides(y: Self::State, msg: M) -> bool;

    /// The states which `process` rebuilds without an error.
    spec fn completes(y: Self::State) -> bool;

    /// Check if this message requires that a full state re-build takes place. This would usually
    /// be due to concurrent operations arriving which require special handling.
    fn rebuild_required(y: &Self::State, msg: &M) -> (r: Result<bool, Self::Error>)
        ensures
            r matches Ok(b) ==> b == Self::rebuilds(*y, *msg),
            Self::decides(*y, *msg) ==> r is Ok,
    ;

    /// Process all operations and update internal state as required.
    ///
    /// This could include updating any internal filter object.
    fn process(y: Self::State) -> (r: Result<Self::State, Self::Error>)
        ensures
            r matches Ok(z) ==> Self::rebuilt(y, z),
            Self::completes(y) ==> r is Ok,
    ;
}

/// Queries of the membership of a single group.
pub trait GroupMembershipQuery<ID, OP, C> {
    type State;

    type Error;

    /// Query the current access level of the given member.
    ///
    /// The member is expected to be a "stateless" individual, not a "stateful" group.
    fn access(y: &Self::State, member: &ID) -> Result<access::Access<C>, Self::Error>;

    /// Query group membership.
    fn member_ids(y: &Self::State) -> Result<Vec<ID>, Self::Error>;

    /// Return `true` if the given ID is an active member of the group.
    fn is_member(y: &Self::State, member: &ID) -> Result<bool, Self::Error>;

    /// Return `true` if the given member is currently assigned the `Pull` access level.
    fn is_puller(y: &Self::State, member: &ID) -> Result<bool, Self::Error>;

    /// Return `true` if the given member is currently assigned the `Read` access level.
    fn is_reader(y: &Self::State, member: &ID) -> Result<bool, Self::Error>;

    /// Return `true` if the given member is currently assigned the `Write` access level.
    fn is_writer(y: &Self::State, member: &ID) -> Result<bool, Self::Error>;

    /// Return `true` if the given member is currently assigned the `Manage` access level.
    fn is_manager(y: &Self::State, member: &ID) -> Result<bool, Self::Error>;
}

/// Creating groups and changing their membership.
pub trait Groups<ID: IdentityHandle, OP: OperationId, C, MSG> {
    type Error;

    /// Creates a new group, returning the creation operation message.
    fn create(&mut self, group_id: ID, initial_members: Vec<(GroupMember<ID>, Access<C>)>) -> Result<
        MSG,
        Self::Error,
    >;

    /// Process a remotely-authored group action message.
    fn receive_from_remote(&mut self, remote_operation: MSG) -> Result<(), Self::Error>;

    /// Add a member to the group, returning the `add` operation which should be shared with
    /// remote peers so they can update their group state accordingly.
    fn add(&mut self, group_id: ID, adder: ID, added: ID, access: Access<C>) -> Result<
        MSG,
        Self::Error,
    >;

    /// Removes a member from the group.
    fn remove(&mut self, group_id: ID, remover: ID, removed: ID) -> Result<MSG, Self::Error>;

    /// Promote a member to the given access level.
    fn promote(&mut self, group_id: ID, promoter: ID, promoted: ID, access: Access<C>) -> Result<
        MSG,
        Self::Error,
    >;

    /// Demote a member to the given access level.
    fn demote(&mut self, group_id: ID, demoter: ID, demoted: ID, access: Access<C>) -> Result<
        MSG,
        Self::Error,
    >;
}

/// Queries of the membership of groups.
pub trait GroupMembership<ID, OP, C> {
    type Error;

    /// Query the current access level of the given member.
    ///
    /// The member is expected to be a "stateless" individual, not a "stateful" group.
    fn access(&self, group_id: ID, member: ID) -> Result<Access<C>, Self::Error>;

    /// Query group membership.
    fn member_ids(&self, group_id: ID) -> Result<Vec<ID>, Self::Error>;

    /// Return `true` if the given ID is an active member of the group.
    fn is_member(&self, group_id: ID, member: ID) -> Result<bool, Self::Error>;

    /// Return `true` if the given member is currently assigned the `Pull` access level.
    fn is_puller(&self, group_id: ID, member: ID) -> Result<bool, Self::Error>;

    /// Return `true` if the given member is currently assigned the `Read` access level.
    fn is_reader(&self, group_id: ID, member: ID) -> Result<bool, Self::Error>;

    /// Return `true` if the given member is currently assigned the `Write` access level.
    fn is_writer(&self, group_id: ID, member: ID) -> Result<bool, Self::Error>;

    /// Return `true` if the given member is currently assigned the `Manage` access level.
    fn is_manager(&self, group_id: ID, member: ID) -> Result<bool, Self::Error>;
}

} // verus!
