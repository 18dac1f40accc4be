//! The error taxonomy of the store.

use vstd::prelude::*;

verus! {

/// The three outcomes a store operation must keep distinguishable, so that a
/// caller can choose its message and exit behaviour per command.
#[derive(Clone, Copy, Debug, PartialEq, Eq, Structural)]
pub enum KvError {
    /// Domain-level negative result: the key is absent. Not a failure.
    NotFound,
    /// A file create, open, read or write failed. Never retried internally.
    IoError,
    /// A record at a supposedly valid framing boundary cannot be decoded, or
    /// the index and the log disagree. Fatal for the current operation.
    CorruptionError,
}

} // verus!
