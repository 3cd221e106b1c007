//! The failures that the store reports.

use crate::document::InvalidPathError;
use vstd::prelude::*;

verus! {

/// Why an operation of the store failed.
#[derive(Debug, Clone, Copy, PartialEq, Eq)]
pub enum StoreError {
    /// The file system refused an access.
    Io,
    /// The persisted text is not a well-formed document.
    Parse,
    /// The document cannot be written as text.
    Encode,
    /// The document has no entry under the key that was asked for.
    MissingKey,
    /// The path of a write is malformed or does not fit the document.
    InvalidPath(InvalidPathError),
    /// The public address could not be fetched, or the mail not be sent.
    Network,
}

} // verus!
