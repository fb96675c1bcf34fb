//! Group membership and authorisation.
pub mod access;
pub mod authority_graphs;
pub mod group_state;
pub mod action;
pub mod crdt;
pub mod member;
pub mod message;
pub mod operation_graph;
pub mod resolver;
pub mod state;
pub mod test_utils;

pub use action::GroupAction;
pub use member::GroupMember;
pub use message::GroupControlMessage;
pub use operation_graph::{GroupCrdtInnerState, GroupCrdtState};
pub use state::{GroupMembersState, GroupMembershipError, MemberState};
