//! Concurrent building blocks: a hazard-pointer registry with retired lists,
//! an ordered set, a job counter for a worker pool, and a single-flight cache.
//! Each module holds the verified state and decisions of one component.

pub mod list_set;
pub mod cache;
pub mod thread_pool;
pub mod hazard;
pub mod retire;
