//! The buffer pool and the page replacement policies it can use.

pub mod buffer_pool;
pub mod clock;
pub mod frame;
pub mod lru;
pub mod replacer;

use vstd::prelude::*;
use crate::storage::StorageError;

verus! {

/// Errors that the buffer pool reports.
#[derive(Debug)]
pub enum BufferError {
    /// Every frame holds a pinned page.
    NoFreeFrames,
    /// The page is not in the buffer pool.
    PageNotFound,
    /// The disk manager failed.
    StorageError(StorageError),
}

} // verus!
