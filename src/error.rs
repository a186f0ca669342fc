//! The ways the pipeline can stop.

use vstd::prelude::*;

verus! {

/// Why the pipeline stops.
#[derive(Clone, Copy, Debug, PartialEq, Eq, Structural)]
pub enum PipelineError {
    /// A required column is not in the header.
    Schema,
    /// No reading was left to aggregate.
    EmptyInput,
    /// No hourly statistic was there to draw.
    NoData,
}

} // verus!
