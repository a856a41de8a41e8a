//! The gateway's own blocks: the same line language without assignments,
//! its command set, and environments of named values.
pub mod block;
pub mod chain;
