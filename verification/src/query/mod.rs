//! Volcano-style query executors and the plan optimizer.

pub mod executors;
pub mod sort;
pub mod index_scan;
pub mod optimizer;
