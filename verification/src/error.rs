//! The error type shared by all filters of this crate.

use vstd::prelude::*;

verus! {

/// Query filter error.
#[derive(Debug, PartialEq)]
pub enum QueryFilterError {
    /// Some error occurred.
    Other(String),
}

impl QueryFilterError {
    /// A human-readable description of the error.
    pub fn message(&self) -> (r: &String)
        ensures
            self matches QueryFilterError::Other(m) && r == m,
    {
        match self {
            QueryFilterError::Other(m) => m,
        }
    }
}

/// Query filter result.
pub type QueryFilterResult<T> = Result<T, QueryFilterError>;

} // verus!
