//! The error taxonomy of the store: configuration problems found on
//! import, I/O failures around temp files, and schema mismatches in
//! columnar data. Partial state is abandoned by the caller; nothing here
//! is retried.

use vstd::prelude::*;

verus! {

/// Why a store, freeze, export or import operation failed.
#[derive(Clone, Copy, Debug, PartialEq, Eq, Structural)]
pub enum Error {
    /// Creating, writing, flushing or reading a backing file failed.
    Io,
    /// A columnar batch could not be built, or a column had an
    /// unexpected type.
    Schema,
    /// An imported file lacks a required metadata key.
    MissingMetadata,
    /// A metadata value is not a decimal number in range.
    BadMetadata,
    /// Imported rows are not in strictly ascending `(timestamp, cid)`
    /// order, or repeat a cid.
    Unsorted,
    /// An imported timestamp lies outside the file's window.
    OutOfWindow,
    /// A batch's blob bytes exceed the columnar format's capacity.
    Oversized,
}

impl Error {
    /// A short description, for callers that print errors.
    pub fn describe(&self) -> (r: &'static str)
        ensures
            r@.len() > 0,
    {
        proof {
            reveal_strlit("file read or write failed");
            reveal_strlit("columnar schema mismatch");
            reveal_strlit("missing window metadata");
            reveal_strlit("malformed window metadata");
            reveal_strlit("rows out of order");
            reveal_strlit("timestamp outside window");
            reveal_strlit("blob bytes exceed the format capacity");
        }
        match self {
            Error::Io => "file read or write failed",
            Error::Schema => "columnar schema mismatch",
            Error::MissingMetadata => "missing window metadata",
            Error::BadMetadata => "malformed window metadata",
            Error::Unsorted => "rows out of order",
            Error::OutOfWindow => "timestamp outside window",
            Error::Oversized => "blob bytes exceed the format capacity",
        }
    }
}

} // verus!
