//! The errors reported to the user.
use vstd::prelude::*;

verus! {

/// What went wrong, with the file or the context concerned.
#[derive(Debug, Clone, PartialEq, Eq)]
pub enum Error {
    /// A file could not be opened for reading.
    CantReadFile { filename: String },
    /// A file could not be created or opened for writing.
    CantWriteFile { filename: String },
    /// A file could not be parsed.
    ReadingError { filename: String },
    /// Writing to a file failed.
    WritingError { filename: String },
    /// An internal invariant did not hold.
    NotReachableCode { name: String },
}

} // verus!
