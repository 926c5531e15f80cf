//! Generation-stamped handles, a slot allocator that recycles them, keyed
//! component stores that reject stale handles, and the joint queries that a
//! per-tick processing loop runs over them.

pub mod gendex;
pub mod query;

pub use gendex::{GenerationalIndex, GenerationalIndexAllocator, GenerationalIndexArray};
pub use query::{live_handles, with_component};
