//! Thin orchestration: each command is one or two repository operations
//! and one domain operation on the in-memory database; reading the store
//! file in and writing it back out belongs to the caller.

pub mod add;
pub mod delete;
pub mod done;
pub mod list;
