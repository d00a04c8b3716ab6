//! The error kinds of the storage layers.

use vstd::prelude::*;

verus! {

/// The four kinds of failure that callers must be able to tell apart.
#[derive(Debug, Clone, Copy, PartialEq, Eq, Structural)]
pub enum ErrorKind {
    /// An oversize or empty key, prefix or value, or a bad namespace: rejected
    /// before any I/O and never retried.
    Validation,
    /// Connectivity, throttling or a missing resource on the backend side.
    Backend,
    /// A missing or malformed stored attribute or record.
    DataIntegrity,
    /// Recovery of a journaled batch could not complete; retryable.
    JournalConsistency,
}

} // verus!
