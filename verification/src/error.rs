use vstd::prelude::*;

verus! {

/// What can go wrong in an operation on the job store.
#[derive(Debug, Clone, Copy, PartialEq, Eq, Structural)]
pub enum StoreError {
    /// No job has the id that was asked for.
    NotFound,
    /// An argument is outside what the operation accepts.
    InvalidArgument,
    /// The store could not carry the operation out; nothing was changed and
    /// the whole operation may be tried again.
    StoreUnavailable,
    /// A row does not have the shape the store relies on; trying again will
    /// not help.
    StoreCorruption,
}

impl StoreError {
    /// Whether the same call may succeed when it is simply made again.
    pub open spec fn retryable(self) -> bool {
        self == StoreError::StoreUnavailable
    }

    pub fn is_retryable(&self) -> (r: bool)
        ensures
            r == self.retryable(),
    {
        match self {
            StoreError::StoreUnavailable => true,
            _ => false,
        }
    }
}

} // verus!
