//! Reverse-mode automatic differentiation over scalar values, kept in an
//! append-only arena of nodes addressed by handles.
pub mod scalar;
pub mod value;
pub mod order;
pub mod nn;
