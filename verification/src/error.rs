//! Error values returned from fallible table operations.

use vstd::prelude::*;

verus! {

/// The error taxonomy exposed at the boundary of the SST engine.
#[derive(Debug, Clone)]
pub enum Error {
    /// A table file name that is not `<u64-decimal>.sst`.
    InvalidFilename(String),
    /// A structural fault found while reading table or block framing.
    TableRead(String),
    /// A buffer too short to hold the message expected in it.
    DecodeError,
    /// A stored checksum that does not match the recomputed one.
    ChecksumMismatch,
    /// A key handed to the builder that is smaller than its predecessor.
    OutOfOrderKey,
    /// A table with no entries.
    EmptyTable,
}

impl Error {
    /// A short description of the error kind.
    pub fn describe(&self) -> (r: &'static str)
        ensures
            r@.len() > 0,
    {
        let r = match self {
            Error::InvalidFilename(_) => "invalid filename",
            Error::TableRead(_) => "table read",
            Error::DecodeError => "decode error",
            Error::ChecksumMismatch => "checksum mismatch",
            Error::OutOfOrderKey => "out of order key",
            Error::EmptyTable => "empty table",
        };
        proof {
            reveal_strlit("invalid filename");
            reveal_strlit("table read");
            reveal_strlit("decode error");
            reveal_strlit("checksum mismatch");
            reveal_strlit("out of order key");
            reveal_strlit("empty table");
        }
        r
    }
}

} // verus!
