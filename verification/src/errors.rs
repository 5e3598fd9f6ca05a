use vstd::prelude::*;

verus! {

/// The failure outcomes of the matrix operations. All of them are expected,
/// recoverable results that are handed back to the caller as values; no
/// operation panics, and no operation mutates its operands before failing.
#[derive(Clone, Copy, Debug, PartialEq, Eq, Structural)]
pub enum MatrixError {
    /// Construction was given rows of differing lengths.
    NotRectangular,
    /// The operands' dimensions do not fit the requested operation.
    ShapeMismatch,
    /// A textual cell could not be parsed as a number, or its value does not
    /// fit the numeric range the core computes in.
    InvalidNumber,
    /// The determinant was asked of a matrix with `rows != cols`.
    NotSquare,
    /// An intermediate or final value of a computation left the numeric range
    /// the core computes in.
    Overflow,
}

} // verus!
