//! A single-node, log-structured key-value store core.
//!
//! The store keeps an append-only command log (a byte sequence mirroring the
//! on-disk log file) and an in-memory index mapping each live key to the byte
//! offset of its most recent `Set` record in the log. All file handling lives
//! outside this crate: callers hand the log bytes in and append the bytes the
//! store produces.

use vstd::prelude::*;

pub mod codec;
pub mod error;
pub mod index;
pub mod store;

pub use error::KvError;
pub use store::KvStore;

verus! {

/// Joins a working directory with the well-known log file name.
pub fn make_path(dir: &str) -> (r: String)
    ensures
        r@ == dir@ + "/commands.log"@,
{
    let mut p = String::from_str(dir);
    p.append("/commands.log");
    p
}

} // verus!
