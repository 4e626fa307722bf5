//! The tensor engine's failure condition.

use vstd::prelude::*;

verus! {

/// The single structured error of the engine: an operation was handed two
/// shapes — or a shape and a list of dimension indices — that it cannot
/// reconcile. The payload carries both offending sequences so a caller can
/// build a precise message.
#[derive(Debug, Clone, PartialEq, Eq)]
pub enum TensorError {
    IncompatibleShapes(Vec<usize>, Vec<usize>),
}

} // verus!
