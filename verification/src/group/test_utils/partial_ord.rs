//! Queue which releases items once all their dependencies were released.
pub use crate::test_utils::partial_ord::{PartialOrderer, PartialOrdererError, PartialOrdererState};
