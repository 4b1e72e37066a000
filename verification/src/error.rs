//! The kinds of failure, each carried with a message for the operator.

use vstd::prelude::*;

verus! {

/// What went wrong, by kind.
#[derive(Clone, Copy, Debug, PartialEq, Eq, Structural)]
pub enum ErrorKind {
    /// Bad flags, or a password file that is missing or not wanted.
    ConfigError,
    /// The password does not unwrap the repository key.
    AuthError,
    /// A chunk that is needed is in no index.
    NotFound,
    /// Framing, checksum or decoder failure in repository bytes.
    CorruptFile,
    /// An instruction stream that makes no sense.
    CorruptBackup,
    /// The restored bytes do not have the recorded digest.
    IntegrityError,
    /// The repository lock could not be taken.
    LockError,
    /// The file system failed.
    IoError,
    /// A request that is malformed before any file is looked at.
    BadInput,
}

/// A failure: its kind and a message.
#[derive(Clone, Debug, PartialEq, Eq)]
pub struct Error {
    pub kind: ErrorKind,
    pub message: String,
}

impl Error {
    /// A failure of the given kind with the given message.
    pub fn new(kind: ErrorKind, message: &str) -> (e: Error)
        ensures
            e.kind == kind,
            e.message@ == message@,
    {
        Error { kind, message: String::from_str(message) }
    }

    /// A failure whose message is `prefix` followed by `detail`.
    pub fn with_detail(kind: ErrorKind, prefix: &str, detail: &str) -> (e: Error)
        ensures
            e.kind == kind,
            e.message@ == prefix@ + detail@,
    {
        let mut message = String::from_str(prefix);
        message.append(detail);
        Error { kind, message }
    }

    /// The message, as the operator sees it.
    pub fn to_string(&self) -> (text: String)
        ensures
            text@ == self.message@,
    {
        self.message.clone()
    }
}

} // verus!
