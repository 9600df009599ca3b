//! Error taxonomy for the event store. Every storage failure is surfaced to
//! the immediate caller as one of these typed values; none is swallowed.

use vstd::prelude::*;

verus! {

/// A storage-layer failure.
#[derive(Clone, Copy, Debug, PartialEq, Eq, Structural)]
pub enum StoreError {
    /// The underlying persistent file could not be opened or created.
    StoreUnavailable,
    /// A read or write transaction could not be started or committed.
    TransactionFailure,
    /// A partition's table could not be opened or created inside an
    /// otherwise-valid transaction.
    TableAccessFailure,
}

impl StoreError {
    /// A human-readable description of the failure.
    pub fn message(&self) -> (r: &'static str)
        ensures
            self is StoreUnavailable ==> r@ == "store unavailable"@,
            self is TransactionFailure ==> r@ == "transaction failure"@,
            self is TableAccessFailure ==> r@ == "table access failure"@,
    {
        match self {
            StoreError::StoreUnavailable => "store unavailable",
            StoreError::TransactionFailure => "transaction failure",
            StoreError::TableAccessFailure => "table access failure",
        }
    }
}

} // verus!
