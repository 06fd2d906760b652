//! B+ tree nodes, the B+ tree index over the buffer pool, and a hash index.

pub mod node;
pub mod traits;
pub mod hash;
pub mod tree;
