//! A worker-pool task-execution core, together with the sequential data
//! structures that tasks submitted to it tend to use.
//!
//! The heart of the crate is [`pool`]: a task queue and a pool state machine
//! that account for every submitted task, so that no task is lost, none runs
//! twice, and shutdown drains the queue before the workers stop.  A runtime
//! that owns real threads drives this state machine; everything the pool
//! *decides* is verified here.

pub mod doubly_linked_list;
pub mod linked_list;
pub mod lru_cache;
pub mod pool;
pub mod quick_sort;
pub mod strsplit;
pub mod token_bucket;
pub mod trie;
pub mod twitter;
pub mod union_find;
pub mod voting;

pub use pool::{ClaimOutcome, DequeueOutcome, Pool, PoolError, TaskOutcome, TaskQueue};
