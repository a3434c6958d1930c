use vstd::prelude::*;

verus! {

/// Kind of a backend I/O failure. The in-memory backend can only fail by
/// running past the end of the buffer.
#[derive(Clone, Copy, Debug, PartialEq, Eq, Structural)]
pub enum IoErrorKind {
    /// A read asked for bytes beyond the end of the backend.
    UnexpectedEof,
}

/// Possible data format errors found while validating the fixed prefix.
#[derive(Clone, Copy, Debug, PartialEq, Eq, Structural)]
pub enum DataFormatError {
    /// Missing identifier of the bytes `c4 b7 d1 b5 c5 97 c5 a1` (the first 8 bytes of data).
    MissedIdentifier,
    /// Incorrect version number is specified (byte with index 8 from the beginning of the data).
    IncorrectVersion(u8),
}

/// Top-level type of library error.
#[derive(Clone, Copy, Debug, PartialEq, Eq, Structural)]
pub enum StorageError {
    /// Backend read/write failure.
    IO(IoErrorKind),
    /// Wrong data format.
    DataFormat(DataFormatError),
    /// Failed to load index.
    FailedLoadIndex,
    /// Failed to load the vacant-block list.
    FailedLoadFreeList,
    /// Failed to serialize a footer payload, or the new layout would not fit.
    SerializationError,
    /// `update` or `remove` was called with a key the store does not hold.
    KeyNotFound,
}

} // verus!
