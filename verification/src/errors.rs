//! Fault taxonomy of the registry.

use vstd::prelude::*;

verus! {

/// Terminal outcome of a failed registry call. Every validation failure aborts
/// the call with exactly one of these; no partial write is ever visible.
#[derive(Clone, Copy, Debug, PartialEq, Eq, Structural)]
pub enum GuardianError {
    /// Fewer guardians than the minimum, or a duplicate key in the supplied list.
    InvalidGuardianSetup,
    /// Threshold is zero or exceeds the guardian count.
    InvalidThreshold,
    /// Initialization attempted on an account that already has a committed record.
    AlreadyInitialized,
    /// A query that requires an existing record targeted an account with none.
    AccountNotFound,
}

} // verus!
