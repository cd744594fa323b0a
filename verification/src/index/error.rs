//! Errors of index operations.

use vstd::prelude::*;

verus! {

/// Errors that index and storage operations report.
///
/// The in-memory storage of this crate never fails; the error type keeps
/// the storage interface open to backends that can.
#[derive(Debug, Clone, Copy, PartialEq, Eq)]
pub enum IndexError {
    /// The storage backend could not complete the operation.
    Storage,
}

} // verus!
