//! Failures of the pipeline; every one of them ends the run.
use vstd::prelude::*;

verus! {

#[derive(Debug)]
pub enum PipelineError {
    /// The data source could not be reached or answered with a failure.
    Transport,
    /// The archive is corrupt or lacks the requested member.
    Archive,
    /// Line `line` (counted from 0) has no tab between label and message.
    Format { line: usize },
    /// Line `line` carries a label other than `spam` or `ham`.
    InvalidLabel { line: usize, label: String },
    /// A matrix whose column count differs from the model's feature count.
    ConfigMismatch { expected: usize, found: usize },
}

} // verus!
