//! The command-line choice of aggregation.
use vstd::prelude::*;

use crate::aggregate::Aggregation;

verus! {

/// The aggregation to apply, as a CLI argument.
#[derive(Clone, Copy, Debug, PartialEq, Eq, Structural)]
pub enum AggArg {
    Min,
    Max,
    Sum,
    Avg,
    Count,
}

impl AggArg {
    /// Maps the CLI argument to the core aggregation.
    pub fn to_core(&self) -> (r: Aggregation)
        ensures
            r == match *self {
                AggArg::Min => Aggregation::Min,
                AggArg::Max => Aggregation::Max,
                AggArg::Sum => Aggregation::Sum,
                AggArg::Avg => Aggregation::Avg,
                AggArg::Count => Aggregation::Count,
            },
    {
        match self {
            AggArg::Min => Aggregation::Min,
            AggArg::Max => Aggregation::Max,
            AggArg::Sum => Aggregation::Sum,
            AggArg::Avg => Aggregation::Avg,
            AggArg::Count => Aggregation::Count,
        }
    }
}

} // verus!
