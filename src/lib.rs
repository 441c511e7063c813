//! Gauss–Jordan reduction of a matrix to reduced row-echelon form, and
//! classification of the linear system that the reduced matrix represents.
//!
//! The library is generic over the entry type: the caller supplies the zero
//! test and the few arithmetic operations that elimination needs.

pub mod matrix;
pub mod eliminate;
pub mod classify;
