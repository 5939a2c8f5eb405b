//! The error taxonomy of the store.

use vstd::prelude::*;

verus! {

/// Why a store operation failed.
#[derive(Clone, Copy, Debug, PartialEq, Eq, Structural)]
pub enum StoreError {
    /// The backing data could not be opened or its shape could not be
    /// established; fatal for the invoked command.
    StorageUnavailable,
    /// A uniqueness or foreign-key rule rejected a write; existing state is
    /// untouched.
    ConstraintViolation,
    /// A read or a targeted mutation addressed an id with no row.
    NotFound,
}

impl StoreError {
    /// A one-line rendering for the boundary layer to print.
    pub fn message(&self) -> (r: &'static str)
        ensures
            r@ == self.spec_message(),
    {
        match self {
            StoreError::StorageUnavailable => "storage unavailable",
            StoreError::ConstraintViolation => "constraint violation",
            StoreError::NotFound => "not found",
        }
    }

    pub open spec fn spec_message(self) -> Seq<char> {
        match self {
            StoreError::StorageUnavailable => "storage unavailable"@,
            StoreError::ConstraintViolation => "constraint violation"@,
            StoreError::NotFound => "not found"@,
        }
    }
}

} // verus!
