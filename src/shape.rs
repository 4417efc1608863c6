use vstd::prelude::*;

verus! {

/// The dimensions of a matrix: `rows` by `cols`.
#[derive(Clone, Copy, Debug, PartialEq, Eq, Structural)]
pub struct Shape {
    pub rows: usize,
    pub cols: usize,
}

/// Why a matrix operation refused its operands.
#[derive(Clone, Copy, Debug, PartialEq, Eq, Structural)]
pub enum ShapeError {
    /// A matrix was asked for with no rows or with no columns.
    Empty,
    /// The rows handed to a constructor differ in length.
    Ragged,
    /// An operand has `actual` where the operation needs `expected`.
    Mismatch { expected: Shape, actual: Shape },
}

} // verus!
