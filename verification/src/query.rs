//! The query specification for a windowed range query.
use vstd::prelude::*;

use crate::aggregate::Aggregation;
use crate::point::Timestamp;

verus! {

/// A range query: scan `[from, to)` and fold the matching points into windows
/// of size `window`, applying `agg`.
#[derive(Debug, Clone, Copy, PartialEq, Eq, Structural)]
pub struct QuerySpec {
    pub from: Timestamp,
    pub to: Timestamp,
    pub window: u64,
    pub agg: Aggregation,
}

impl QuerySpec {
    /// A query of `[from, to)` in windows of `window` ticks, applying `agg`.
    pub fn new(from: Timestamp, to: Timestamp, window: u64, agg: Aggregation) -> (r: Self)
        ensures
            r == (QuerySpec { from, to, window, agg }),
    {
        QuerySpec { from, to, window, agg }
    }
}

} // verus!
