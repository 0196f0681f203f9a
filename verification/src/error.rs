//! Core error type.
use vstd::prelude::*;

verus! {

/// Errors produced by the pure storage and query engine.
#[derive(Debug, PartialEq, Eq, Structural)]
pub enum CoreError {
    /// The window size of a windowed query was zero.
    InvalidWindow,
}

impl CoreError {
    /// The error's message.
    pub fn message(&self) -> (r: &'static str)
        ensures
            r@ == "window size must be positive"@,
    {
        match self {
            CoreError::InvalidWindow => "window size must be positive",
        }
    }
}

} // verus!
