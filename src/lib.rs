//! Deterministic, collision-free orderings of shard identifiers derived from
//! a 64-bit hash state.
pub mod hasher;
pub mod iterator;
pub mod sequence;

pub use hasher::ShardHasher;
pub use iterator::{ShardError, ShardIterator};
