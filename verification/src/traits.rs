//! What the library asks of in-process array storage.

pub mod accessors;
pub mod in_place_operations;
pub mod properties;
