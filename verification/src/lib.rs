//! A small linear-algebra core: rectangular matrices of numeric cells, with
//! construction validation, element-wise arithmetic, matrix multiplication,
//! transposition, shape editing and determinant computation.
//!
//! Cells are stored as text (the editable surface a caller supplies) and are
//! parsed on demand into exact rational numbers for every arithmetic
//! operation; results are formatted back into trimmed decimal text.
//!
//! The core is synchronous and free of shared mutable state; a caller that
//! embeds it in a concurrent context must serialize access to each matrix
//! externally.

pub mod app;
pub mod decimal;
pub mod errors;
pub mod matrix;
pub mod rational;
