//! The faults that the runtime reports.
use vstd::prelude::*;

verus! {

/// A misuse of the runtime, reported at the point where it is detected.
#[derive(Debug, Clone, Copy, PartialEq, Eq, Structural)]
pub enum EcsError {
    /// A second component was attached under a key already present.
    DuplicateComponent,
    /// An entity was reached while it is already held exclusively by a run
    /// further up the call stack.
    BorrowConflict,
    /// A system was queried before it was registered.
    MissingRegistration,
}

} // verus!
