//! Distributed sparse matrix-vector products over a partitioned index space,
//! with the dense array storage that they rest on.

pub mod dense;
pub mod error;
pub mod lapack;
pub mod process_group;
pub mod sparse;
pub mod traits;
pub mod types;
