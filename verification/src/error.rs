//! Errors that the library's checks report.
use vstd::prelude::*;

verus! {

/// Why a tree or a training run was refused.
#[derive(Debug, PartialEq, Eq, Structural)]
pub enum Error {
    /// A tree needs at least one layer of `eml` nodes.
    InvalidDepth(usize),
    /// The training data holds no points.
    EmptyDataset,
    /// The initial logits do not number `n_params(depth)`.
    ParamCountMismatch { expected: usize, got: usize },
    /// The inputs and the targets differ in length.
    LengthMismatch { xs: usize, ys: usize },
}

} // verus!
