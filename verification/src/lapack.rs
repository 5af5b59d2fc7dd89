//! Preparing calls into LAPACK.

pub mod svd;
