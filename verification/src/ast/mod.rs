//! The projection of parsed sections into typed variable values.

pub mod kind;
pub mod laws;
