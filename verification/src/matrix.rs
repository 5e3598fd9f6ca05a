//! The matrix value type and the operations on it.

pub mod determinant;
pub mod ops;
pub mod render;
pub mod transpose;
pub mod types;
