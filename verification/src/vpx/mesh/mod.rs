//! Mesh generation.

pub mod builtin_primitive;
pub mod triggers;
