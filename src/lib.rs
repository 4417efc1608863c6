//! A small feedforward neural network trained by backpropagation, on top of a
//! dense matrix engine.
//!
//! The engine is generic in its entry type: the arithmetic on entries (and the
//! activation) is handed in by the caller as functions or closures, and each
//! contract states the result in terms of what those return. Shapes are
//! checked, and a mismatch is reported as a [`shape::ShapeError`].
pub mod classify;
pub mod layer;
pub mod matrix;
pub mod nn;
pub mod shape;
