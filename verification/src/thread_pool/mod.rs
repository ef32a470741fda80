//! Thread pools: the rules by which the pool with a shared queue is run.
pub mod shared_queue;
