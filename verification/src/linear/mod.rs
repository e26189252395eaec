//! Linear algebra.

pub mod matrix;

pub use matrix::Matrix;
