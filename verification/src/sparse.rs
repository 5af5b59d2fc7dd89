//! Distributed sparse storage and the matrix-vector product.

pub mod csr_mat;
pub mod ghost_communicator;
pub mod in_process;
pub mod index_layout;
pub mod kernel;
pub mod mpi_csr_mat;
pub mod sorted;
pub mod vector;
