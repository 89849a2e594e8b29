//! Rebuilding the state of an exchange from what was recorded of it.

pub mod replay;
pub mod snapshot;
