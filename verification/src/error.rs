//! What can go wrong, as plain values.

use vstd::prelude::*;
use vstd::std_specs::convert::FromSpecImpl;

verus! {

/// What of a failed system call decides how to go on.
#[derive(Clone, Copy, Debug, PartialEq, Eq, Structural)]
pub enum IoErrorKind {
    NotFound,
    BrokenPipe,
    Other,
}

/// A failed system call: its kind, and what the system says about it.
#[derive(Debug)]
pub struct IoError {
    pub kind: IoErrorKind,
    pub message: String,
}

/// A failure of the file system watcher, in its own words.
#[derive(Debug)]
pub struct NotifyError {
    pub message: String,
}

#[derive(Debug)]
pub enum Error {
    Io(IoError),
    Notify(NotifyError),
    InvalidOperand(String),
    InvalidPattern(String),
}

impl Error {
    /// What is told about the error.
    pub open spec fn text(self) -> Seq<char> {
        match self {
            Error::Io(error) => error.message@,
            Error::Notify(error) => error.message@,
            Error::InvalidOperand(message) => message@,
            Error::InvalidPattern(message) => message@,
        }
    }

    /// The words for the error.
    pub fn message(&self) -> (message: String)
        ensures
            message@ == self.text(),
    {
        match self {
            Error::Io(error) => error.message.clone(),
            Error::Notify(error) => error.message.clone(),
            Error::InvalidOperand(message) => message.clone(),
            Error::InvalidPattern(message) => message.clone(),
        }
    }
}

impl From<IoError> for Error {
    fn from(error: IoError) -> (wrapped: Error) {
        Error::Io(error)
    }
}

impl FromSpecImpl<IoError> for Error {
    open spec fn obeys_from_spec() -> bool {
        true
    }

    open spec fn from_spec(error: IoError) -> Error {
        Error::Io(error)
    }
}

impl From<NotifyError> for Error {
    fn from(error: NotifyError) -> (wrapped: Error) {
        Error::Notify(error)
    }
}

impl FromSpecImpl<NotifyError> for Error {
    open spec fn obeys_from_spec() -> bool {
        true
    }

    open spec fn from_spec(error: NotifyError) -> Error {
        Error::Notify(error)
    }
}

/// What the end of a reconciliation means for the program: it goes on after a success, it ends in
/// good order once nobody reads its output any more, and any other failure is handed on.
pub open spec fn exit_of(result: Result<(), Error>) -> Result<bool, Error> {
    match result {
        Ok(_) => Ok(true),
        Err(error) => if error matches Error::Io(io) && io.kind == IoErrorKind::BrokenPipe {
            Ok(false)
        } else {
            Err(error)
        },
    }
}

/// Whether the program goes on after a reconciliation, unless that failed.
pub fn reconcile_result_or_exit(result: Result<(), Error>) -> (next: Result<bool, Error>)
    ensures
        next == exit_of(result),
{
    match result {
        Ok(()) => Ok(true),
        Err(Error::Io(error)) => {
            if error.kind == IoErrorKind::BrokenPipe {
                Ok(false)
            } else {
                Err(Error::Io(error))
            }
        },
        Err(error) => Err(error),
    }
}

} // verus!
