//! Items of the dense and the sparse arrays.
pub mod dense;
pub mod sparse;
