//! The errors that filesystem operations report.

use vstd::prelude::*;

verus! {

/// Why an operation on a node failed.
#[derive(Clone, Copy, Debug, PartialEq, Eq, Structural)]
pub enum FsError {
    /// A path component names no entry of the directory it is looked up in.
    NotFound,
    /// A directory operation, or a path step, was applied to a node that is
    /// not a directory.
    NotADirectory,
    /// A file operation was applied to a directory.
    IsADirectory,
    /// The name to create is already present.
    AlreadyExists,
    /// The directory to remove still has entries.
    DirectoryNotEmpty,
    /// The name to remove is `.` or `..`.
    InvalidInput,
    /// The filesystem is read-only.
    PermissionDenied,
}

} // verus!
