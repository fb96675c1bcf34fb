//! Helpers for driving group operations in tests.
pub mod partial_ord;
