//! Error types shared by the engine and the note list.

use vstd::prelude::*;

verus! {

/// Errors surfaced by the workspace engine.
///
/// Every operation returns a tagged variant rather than a wrapped I/O error:
/// `InvalidInput` rejects an empty commit message, `NotFound` names a commit
/// id that is not in history, `PathEscape` and `PathOutsideRoot` report
/// sandbox violations, and `StorageFailure` stands for a store-integrity
/// problem such as a duplicate commit id.
#[derive(Debug, Clone, PartialEq, Eq)]
pub enum WorkSpaceError {
    InvalidInput(String),
    NotFound(String),
    PathEscape(String),
    PathOutsideRoot(String),
    InvalidRoot(String),
    InvalidFileName(String),
    StorageFailure(String),
}

/// Errors surfaced by the note list.
#[derive(Debug, Clone, PartialEq, Eq)]
pub enum AppError {
    InvalidId(u64),
}

} // verus!
