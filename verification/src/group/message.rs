//! Control messages which are processed in order to update group state.
use vstd::prelude::*;

use crate::group::action::GroupAction;

verus! {

/// Control messages which are processed in order to update group state.
///
/// A message holds a group action and the ID of the group to which the action should be applied.
#[derive(Clone, Debug)]
pub struct GroupControlMessage<ID, C> {
    pub group_id: ID,
    pub action: GroupAction<ID, C>,
}

impl<ID: Copy, C> GroupControlMessage<ID, C> {
    /// Return `true` if this is a create control message.
    pub fn is_create(&self) -> (r: bool)
        ensures
            r == (self.action is Create),
    {
        self.action.is_create()
    }

    /// Return the ID of the group this message should be applied to.
    pub fn group_id(&self) -> (r: ID)
        ensures
            r == self.group_id,
    {
        self.group_id
    }
}

} // verus!
