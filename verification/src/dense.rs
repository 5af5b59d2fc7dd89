//! Dense strided arrays held in one process, and arithmetic on them that is
//! evaluated on access.

pub mod addition;
pub mod base_array;
pub mod layout;
pub mod other;
pub mod scalar_mult;
