//! The errors of the log and of the storage engine.

use vstd::prelude::*;
use vstd::std_specs::convert::FromSpecImpl;

verus! {

/// Why an operation on stored bytes failed.
#[derive(Debug, Clone, Copy, PartialEq, Eq, Structural)]
pub enum IoErrorKind {
    /// The file, or the directory that should hold it, does not exist.
    NotFound,
    /// The directory exists already.
    AlreadyExists,
    /// Fewer bytes were left than the read asked for.
    UnexpectedEof,
    /// The bytes read are not what the format allows.
    InvalidData,
    /// The file system failed in a way that the model of the directory does
    /// not know; only the outcome of steps run elsewhere can hold it.
    Other,
}

/// The access to the record set that was refused.
#[derive(Debug, Clone, Copy, PartialEq, Eq, Structural)]
pub enum LockKind {
    Read,
    Write,
}

/// What can go wrong in the log.
#[derive(Debug)]
pub enum LogError {
    /// No further entry starts here: the ordinary end of a replay.
    EndReached,
    /// An entry starts with a tag that names no operation.
    InvalidOperation(char),
    /// The bytes of the log could not be read or written.
    Io(IoErrorKind),
}

/// What can go wrong in the storage engine.
#[derive(Debug)]
pub enum DatabaseError {
    /// A new store could not be created.
    Initialization,
    /// The record set is not open to this access now.
    Lock { kind: LockKind, reason: Option<String> },
    /// A file of the store is missing or could not be read or written.
    NotFound(IoErrorKind),
    /// A lookup that needs the key found none.
    KeyNotFound(String),
    /// The checkpoint does not decode.
    LoadCheckpoint,
    /// The log failed.
    Other(LogError),
}

impl From<LogError> for DatabaseError {
    fn from(error: LogError) -> (result: DatabaseError) {
        DatabaseError::Other(error)
    }
}

impl FromSpecImpl<LogError> for DatabaseError {
    open spec fn obeys_from_spec() -> bool {
        true
    }

    open spec fn from_spec(error: LogError) -> DatabaseError {
        DatabaseError::Other(error)
    }
}

impl From<IoErrorKind> for DatabaseError {
    fn from(error: IoErrorKind) -> (result: DatabaseError) {
        DatabaseError::NotFound(error)
    }
}

impl FromSpecImpl<IoErrorKind> for DatabaseError {
    open spec fn obeys_from_spec() -> bool {
        true
    }

    open spec fn from_spec(error: IoErrorKind) -> DatabaseError {
        DatabaseError::NotFound(error)
    }
}

impl From<IoErrorKind> for LogError {
    fn from(error: IoErrorKind) -> (result: LogError) {
        LogError::Io(error)
    }
}

impl FromSpecImpl<IoErrorKind> for LogError {
    open spec fn obeys_from_spec() -> bool {
        true
    }

    open spec fn from_spec(error: IoErrorKind) -> LogError {
        LogError::Io(error)
    }
}

} // verus!
