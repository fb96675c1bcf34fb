//! Operations and orderer used to drive group tests.
use crate::conditions::NoConditions;
use vstd::prelude::*;

use crate::group::action::GroupAction;
use crate::group::message::GroupControlMessage;
use crate::traits::Operation;
use crate::test_utils::partial_ord::copy_items;

pub use crate::test_utils::partial_ord::{OrdererError, TestOrderer};

verus! {

/// Operation used in tests: a group control message with its identifier, sender and the
/// operations it depends on.
#[derive(Clone, Debug)]
pub struct TestOperation<ID, OP, C = NoConditions> {
    pub id: OP,
    pub sender: ID,
    pub dependencies: Vec<OP>,
    pub previous: Vec<OP>,
    pub payload: GroupControlMessage<ID, C>,
}

impl<ID: Copy, OP: Copy, C> TestOperation<ID, OP, C> {
    /// Identifier of the operation.
    pub fn id(&self) -> (r: OP)
        ensures
            r == self.id,
    {
        self.id
    }

    /// Sender of the operation.
    pub fn sender(&self) -> (r: ID)
        ensures
            r == self.sender,
    {
        self.sender
    }

    /// Operations of any group which must be processed before this one.
    pub fn dependencies(&self) -> (r: Vec<OP>)
        ensures
            r@ == self.dependencies@,
    {
        copy_items(&self.dependencies)
    }

    /// Tip operations of the operation's own group graph.
    pub fn previous(&self) -> (r: Vec<OP>)
        ensures
            r@ == self.previous@,
    {
        copy_items(&self.previous)
    }
}

impl<ID: Copy, OP: Copy, C> Operation<ID, OP, C> for TestOperation<ID, OP, C> {
    open spec fn operation_id(&self) -> OP {
        self.id
    }

    open spec fn operation_author(&self) -> ID {
        self.sender
    }

    open spec fn operation_dependencies(&self) -> Seq<OP> {
        self.dependencies@
    }

    open spec fn operation_group(&self) -> ID {
        self.payload.group_id
    }

    open spec fn operation_action(&self) -> GroupAction<ID, C> {
        self.payload.action
    }

    fn id(&self) -> (r: OP) {
        self.id
    }

    fn author(&self) -> (r: ID) {
        self.sender
    }

    fn dependencies(&self) -> (r: Vec<OP>) {
        copy_items(&self.dependencies)
    }

    fn group_id(&self) -> (r: ID) {
        self.payload.group_id
    }

    fn action(&self) -> (r: &GroupAction<ID, C>) {
        &self.payload.action
    }
}

} // verus!
