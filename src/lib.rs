//! A pool of reusable values kept on a free list of nodes.
//!
//! Each node lives in an arena and is identified by its index. A node is
//! either on the free list or held by exactly one [`PoolGuard`]. Acquiring
//! pops the head of the free list, or builds a fresh node with the pool's
//! construction function when the list is empty; releasing pushes the
//! guard's node back as the new head.
pub mod model;
pub mod pool;

pub use model::{PoolModel, PoolOp};
pub use pool::{Head, Pool, PoolGuard};
