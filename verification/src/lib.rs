//! A thread-sharded allocator and recycler for fixed-size command buffers.
//!
//! The registry gives each calling thread its own sub-pool so allocation never
//! contends across threads, and recycles finished buffers into per-thread,
//! per-level lock-free queues instead of releasing them to the native layer.

pub mod descriptor_sets;
pub mod pool;
pub mod queues;
