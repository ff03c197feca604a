//! Error types for the protocol core.

use vstd::prelude::*;

verus! {

/// Result alias for the protocol core.
pub type Result<T> = core::result::Result<T, Error>;

/// Errors produced while parsing or framing the download protocol.
///
/// These are all *pure* errors (bad data, malformed frames); transport/timeout
/// errors are [`crate::transport::TransportError`].
#[allow(inconsistent_fields)]
#[derive(Debug)]
pub enum Error {
    /// The `.pac` file is smaller than its fixed header (its size in bytes).
    PacTooSmall(u64),
    /// The header's size field disagrees with the actual file length.
    PacSizeMismatch {
        /// Size recorded in the PAC header.
        declared: u64,
        /// Actual byte length of the file.
        actual: u64,
    },
    /// The file table is truncated at this entry.
    PacTruncatedTable(u32),
    /// A parsed entry points past the end of the buffer.
    PacEntryOutOfRange {
        /// The entry's file id.
        file_id: String,
        /// Declared payload offset.
        offset: u64,
        /// Declared payload size.
        size: u64,
    },
    /// A received BSL frame was shorter than the minimum header + checksum.
    FrameTooShort(usize),
    /// A received BSL frame's declared length did not match its payload.
    FrameTruncated {
        /// Length declared in the frame header.
        declared: usize,
        /// Bytes actually present.
        got: usize,
    },
}

/// What an [`Error`] says, with its text as characters.
#[allow(inconsistent_fields)]
pub enum Fault {
    PacTooSmall(u64),
    PacSizeMismatch { declared: u64, actual: u64 },
    PacTruncatedTable(u32),
    PacEntryOutOfRange { file_id: Seq<char>, offset: u64, size: u64 },
    FrameTooShort(usize),
    FrameTruncated { declared: usize, got: usize },
}

impl View for Error {
    type V = Fault;

    open spec fn view(&self) -> Fault {
        match *self {
            Error::PacTooSmall(n) => Fault::PacTooSmall(n),
            Error::PacSizeMismatch { declared, actual } => Fault::PacSizeMismatch {
                declared,
                actual,
            },
            Error::PacTruncatedTable(i) => Fault::PacTruncatedTable(i),
            Error::PacEntryOutOfRange { file_id, offset, size } => Fault::PacEntryOutOfRange {
                file_id: file_id@,
                offset,
                size,
            },
            Error::FrameTooShort(n) => Fault::FrameTooShort(n),
            Error::FrameTruncated { declared, got } => Fault::FrameTruncated { declared, got },
        }
    }
}

} // verus!
