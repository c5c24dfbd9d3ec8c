//! How a resolution fails.

use vstd::prelude::*;
use crate::model::Resolution;

verus! {

/// Why no next item could be given.
#[derive(Debug, PartialEq, Eq)]
pub enum DepGraphError {
    /// The dependencies of the named item lead back to that item.
    CycleDetected(String),
}

/// What a resolution request returned, as the model sees it.
pub open spec fn resolution_of(result: Result<String, DepGraphError>) -> Resolution {
    match result {
        Ok(item) => Resolution::Ready(item@),
        Err(DepGraphError::CycleDetected(item)) => Resolution::Cycle(item@),
    }
}

/// What a pull returned, as the model sees it.
pub open spec fn pulled(result: Option<Result<String, DepGraphError>>) -> Option<Resolution> {
    match result {
        None => None,
        Some(r) => Some(resolution_of(r)),
    }
}

} // verus!
