//! Decentralised group management with fine-grained, per-member permissions.
pub mod access;
pub mod conditions;
pub mod graph;
pub mod group_crdt;
pub mod group;
pub mod test_utils;
pub mod traits;
pub mod validation;

pub use access::{Access, AccessLevel};
pub use conditions::NoConditions;
