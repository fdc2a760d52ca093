//! Verified core of a set of concurrency patterns: graph traversal,
//! a readers-writers lock, a spin lock and lock ordering.

pub mod dfs_concurr;
pub mod optimistic_locking;
mod randomness;
pub mod read_write_lock;
pub mod total_ordering_for_deadlocks;
