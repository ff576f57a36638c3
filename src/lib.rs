//! The core of a monorepo task runner: expanding task definitions into an
//! acyclic task graph, computing each task's cache key from its complete
//! input surface, a content-addressed result cache, the per-node run state
//! machine, and the client's decisions when contacting the background
//! daemon.

pub mod bytes;
pub mod cache;
pub mod canonical;
pub mod daemon;
pub mod executor;
pub mod scheduler;
pub mod task_graph;
pub mod task_hash;
pub mod version;
