//! Helpers for driving group operations in tests.
pub mod orderer;
pub mod partial_ord;
