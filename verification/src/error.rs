//! What the library reports when it refuses an input.

use vstd::prelude::*;

verus! {

/// The argument that an `InvalidArgument` error speaks of.
#[derive(Clone, Copy, Debug, PartialEq, Eq, Structural)]
pub enum Argument {
    /// The number of candidates drawn per iteration.
    SampleSize,
    /// The fraction of each batch that is kept as elite.
    Quantile,
    /// The iteration budget.
    Iterations,
    /// The elite candidates handed to a refit.
    EliteSet,
    /// A candidate handed to the evaluator.
    Candidate,
    /// A batch of candidates handed to the optimizer.
    Batch,
    /// The problem instance.
    Instance,
}

/// What is wrong with a line of an instance text.
#[derive(Clone, Copy, Debug, PartialEq, Eq, Structural)]
pub enum LineFault {
    /// The text has no line at all, so no capacity.
    Missing,
    /// The field with this index (from 0) is not a number that fits.
    NotANumber { field: usize },
    /// Every field is a number, but there are not as many as the line needs.
    FieldCount { found: usize },
}

/// A fatal condition, with enough context to find its cause.
#[derive(Clone, Copy, Debug, PartialEq, Eq, Structural)]
pub enum CeError {
    /// The instance text is malformed at `line` (counted from 0).
    Input { line: usize, fault: LineFault },
    /// An argument is outside what the operation accepts.
    InvalidArgument { argument: Argument },
}

} // verus!
