//! Error taxonomy of the codec.

use vstd::prelude::*;

verus! {

/// Everything that can go wrong while opening, parsing, extracting or
/// writing a container.
#[derive(Debug, Clone, Copy, PartialEq, Eq, Structural)]
pub enum GMAError {
    /// An underlying read, write or open failure.
    IOError,
    /// Structurally invalid metadata or entry table.
    FormatError,
    /// The byte source does not begin with the container signature.
    InvalidHeader,
    /// A path was looked up that is not present in the entry map.
    EntryNotFound,
    /// A decompression failure beyond the tolerated trailing-garbage case.
    LZMA,
}

impl GMAError {
    /// Stable machine-readable code for each error, as reported to sinks.
    pub fn message(&self) -> (r: &'static str)
        ensures
            *self == GMAError::IOError ==> r@ == "ERR_GMA_IO_ERROR"@,
            *self == GMAError::FormatError ==> r@ == "ERR_GMA_FORMAT_ERROR"@,
            *self == GMAError::InvalidHeader ==> r@ == "ERR_GMA_INVALID_HEADER"@,
            *self == GMAError::EntryNotFound ==> r@ == "ERR_GMA_ENTRY_NOT_FOUND"@,
            *self == GMAError::LZMA ==> r@ == "ERR_LZMA"@,
    {
        match self {
            GMAError::IOError => "ERR_GMA_IO_ERROR",
            GMAError::FormatError => "ERR_GMA_FORMAT_ERROR",
            GMAError::InvalidHeader => "ERR_GMA_INVALID_HEADER",
            GMAError::EntryNotFound => "ERR_GMA_ENTRY_NOT_FOUND",
            GMAError::LZMA => "ERR_LZMA",
        }
    }
}

} // verus!
