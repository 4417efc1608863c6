use vstd::prelude::*;

use crate::matrix::{mapped, multiplied, Matrix};
use crate::shape::{Shape, ShapeError};

verus! {

/// `y` is an output that a layer with weights `w` can give on `x`: the
/// product of `w` and `x`, with `activate` applied to each entry.
pub open spec fn layer_gives<T, X: Fn(T, T) -> T, P: Fn(T, T) -> T, F: Fn(T) -> T>(
    w: Seq<Seq<T>>,
    x: Seq<Seq<T>>,
    times: X,
    plus: P,
    zero: T,
    activate: F,
    y: Seq<Seq<T>>,
) -> bool {
    exists|p: Seq<Seq<T>>| #[trigger] multiplied(w, x, times, plus, zero, p) && mapped(p, activate, y)
}

/// One stage of a network: a weight matrix of `output_size` rows by
/// `input_size` columns, followed by an activation applied entry by entry.
#[derive(Debug)]
pub struct Layer<T> {
    pub weights: Matrix<T>,
}

impl<T: Copy> Layer<T> {
    pub open spec fn wf(&self) -> bool {
        self.weights.wf()
    }

    /// The width of the column vectors the layer takes.
    pub open spec fn input_size_spec(&self) -> usize {
        self.weights.cols
    }

    /// The width of the column vectors the layer gives.
    pub open spec fn output_size_spec(&self) -> usize {
        self.weights.rows
    }

    /// The layer whose weight matrix is `weights`.
    pub fn new(weights: Matrix<T>) -> (r: Layer<T>)
        ensures
            r.weights == weights,
    {
        Layer { weights }
    }

    /// The number of columns of the weight matrix.
    pub fn input_size(&self) -> (r: usize)
        ensures
            r == self.input_size_spec(),
    {
        self.weights.cols
    }

    /// The number of rows of the weight matrix.
    pub fn output_size(&self) -> (r: usize)
        ensures
            r == self.output_size_spec(),
    {
        self.weights.rows
    }

    /// The layer's output on `input`: the product of the weights and `input`,
    /// with `activate` applied to each entry. Fails where `input` does not
    /// have `input_size` rows.
    pub fn call<X: Fn(T, T) -> T, P: Fn(T, T) -> T, F: Fn(T) -> T>(
        &self,
        input: &Matrix<T>,
        times: X,
        plus: P,
        zero: T,
        activate: F,
    ) -> (r: Result<Matrix<T>, ShapeError>)
        requires
            self.wf(),
            input.wf(),
            forall|x: T, y: T| times.requires((x, y)),
            forall|x: T, y: T| plus.requires((x, y)),
            forall|x: T| activate.requires((x,)),
        ensures
            input.rows != self.input_size_spec() <==> r is Err,
            r is Err ==> r == Err::<Matrix<T>, ShapeError>(
                ShapeError::Mismatch {
                    expected: Shape { rows: self.weights.cols, cols: input.cols },
                    actual: input.shape_spec(),
                },
            ),
            r matches Ok(m) ==> {
                &&& m.wf()
                &&& m.rows == self.output_size_spec()
                &&& m.cols == input.cols
                &&& layer_gives(self.weights@, input@, times, plus, zero, activate, m@)
            },
    {
        let sum = self.weights.product(input, times, plus, zero)?;
        let r = sum.map(activate);
        assert(multiplied(self.weights@, input@, times, plus, zero, sum@));
        Ok(r)
    }
}

} // verus!
