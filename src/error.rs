//! Errors that the engine reports.
use vstd::prelude::*;

verus! {

/// What went wrong in an engine operation.
#[derive(Debug, Clone, PartialEq, Eq)]
pub enum OblivionError {
    /// A filesystem operation failed; the text describes it.
    Io(String),
    /// An encoder was given what its format cannot hold.
    Serialization(String),
    /// Stored bytes failed their integrity check.
    Corruption(String),
    /// A strict lookup found nothing.
    KeyNotFound,
    /// Replaying the log failed other than by a clean truncation.
    RecoveryFailed(String),
    /// A parameter is out of range.
    Config(String),
}

} // verus!
