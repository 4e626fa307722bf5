//! An in-memory N-dimensional array (tensor) engine: immutable,
//! structurally shared arrays with broadcasting, reductions, and
//! shape-manipulating views, built on a verified layout algebra.

pub mod tensor;
