//! The three combinators, for one import.

pub use crate::branch::branch;
pub use crate::not_containing::not_containing;
pub use crate::not_starting_with::not_starting_with;
