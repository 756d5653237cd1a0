//! The coordination layer's failure classes. Backend and network failures
//! arrive through the adapter as `BackendUnavailable`; the other classes are
//! decided inside the library.

use vstd::prelude::*;

verus! {

/// Everything a coordination-layer operation can fail with.
#[derive(Debug)]
pub enum Error {
    /// The key (its full, namespaced form is carried) has no live entry.
    NotFound { key: String },
    /// Every bounded retry of a lock acquisition hit the timeout class.
    LockTimeout { key: String },
    /// A non-timeout failure during lock acquisition; not retried.
    LockAcquireFailure { detail: String },
    /// The backend could not be reached or a command failed in transit.
    BackendUnavailable { detail: String },
    /// A response had an unexpected shape; fatal, not retried.
    Malformed { detail: String },
    /// The caller-supplied read-modify-write logic rejected the update; no
    /// writes were applied.
    UpdateRejected { detail: String },
}

} // verus!
