//! Mathematical constructs: the storage and indexing of matrices.

pub mod matrix;

pub use matrix::MatrixN;
