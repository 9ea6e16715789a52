//! A small task tracker: tasks with non-blank titles, an Active/Completed
//! life cycle, and a durable store that round-trips through a canonical,
//! human-readable text format.

pub mod codec;
pub mod commands;
pub mod database;
pub mod errors;
pub mod repository;
pub mod storage;
pub mod time;
pub mod todo;
pub mod value_objects;
