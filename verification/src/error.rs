//! The errors of a tower.

use vstd::prelude::*;

verus! {

/// Errors that can occur when using a tower.
#[derive(Debug, PartialEq, Eq)]
pub enum LazyTowerError {
    /// A width of 0 or 1 was asked for.
    InvalidWidth { width: usize },
    /// A proof was asked for an index that holds no item; `max` is the
    /// number of items.
    InvalidIndex { index: usize, max: usize },
    /// The walk through the record of folds did not end where it should: a
    /// defect of the tower, which no caller can cause.
    ProofUnavailable,
}

impl Clone for LazyTowerError {
    fn clone(&self) -> (out: Self)
        ensures
            out == *self,
    {
        match self {
            LazyTowerError::InvalidWidth { width } => LazyTowerError::InvalidWidth {
                width: *width,
            },
            LazyTowerError::InvalidIndex { index, max } => LazyTowerError::InvalidIndex {
                index: *index,
                max: *max,
            },
            LazyTowerError::ProofUnavailable => LazyTowerError::ProofUnavailable,
        }
    }
}

} // verus!
