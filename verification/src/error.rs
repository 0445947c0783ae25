//! The ways in which a removal fails.

use vstd::prelude::*;
use vstd::string::*;

verus! {

/// The cause of a failed filesystem operation, as far as the removal
/// distinguishes causes.
#[derive(Clone, Copy, Debug, PartialEq, Eq, Structural)]
pub enum FailureKind {
    /// The entry does not exist.
    NotFound,
    /// The operation was refused for want of permission.
    PermissionDenied,
    /// Any other failure.
    Other,
}

/// A failed filesystem operation, as reported by the host: its cause and the
/// host's own description of it.
#[derive(Clone, Debug, PartialEq, Eq)]
pub struct IoFailure {
    pub kind: FailureKind,
    pub message: String,
}

/// The mathematical value of an [`IoFailure`].
pub struct IoFailureView {
    pub kind: FailureKind,
    pub message: Seq<char>,
}

impl View for IoFailure {
    type V = IoFailureView;

    open spec fn view(&self) -> IoFailureView {
        IoFailureView { kind: self.kind, message: self.message@ }
    }
}

/// Why a removal did not succeed.
#[derive(Clone, Debug, PartialEq, Eq)]
pub enum Error {
    /// The target does not exist.
    NotFound,
    /// The path cannot name a removal target; the text says why.
    InvalidTarget(String),
    /// An operation on the filesystem failed.
    IoError(IoFailure),
}

/// The mathematical value of an [`Error`].
pub enum ErrorView {
    NotFound,
    InvalidTarget(Seq<char>),
    IoError(IoFailureView),
}

impl View for Error {
    type V = ErrorView;

    open spec fn view(&self) -> ErrorView {
        match self {
            Error::NotFound => ErrorView::NotFound,
            Error::InvalidTarget(reason) => ErrorView::InvalidTarget(reason@),
            Error::IoError(failure) => ErrorView::IoError(failure@),
        }
    }
}

impl ErrorView {
    /// The text that describes the error to a reader.
    pub open spec fn message(self) -> Seq<char> {
        match self {
            ErrorView::NotFound => "path not found"@,
            ErrorView::InvalidTarget(reason) => reason,
            ErrorView::IoError(failure) => failure.message,
        }
    }
}

impl IoFailure {
    /// Whether the operation failed because the entry does not exist.
    pub fn is_not_found(&self) -> (absent: bool)
        ensures
            absent == (self@.kind == FailureKind::NotFound),
    {
        match self.kind {
            FailureKind::NotFound => true,
            _ => false,
        }
    }
}

impl Error {
    /// The text that describes the error to a reader: a fixed phrase for an
    /// absent target, the reason for an invalid one, and the host's own
    /// description for a failed operation.
    pub fn message(&self) -> (text: String)
        ensures
            text@ == self@.message(),
    {
        match self {
            Error::NotFound => String::from_str("path not found"),
            Error::InvalidTarget(reason) => reason.clone(),
            Error::IoError(failure) => failure.message.clone(),
        }
    }

    /// The failed operation behind the error, where there is one.
    pub fn source(&self) -> (cause: Option<&IoFailure>)
        ensures
            match self {
                Error::IoError(failure) => cause == Some(failure),
                _ => cause is None,
            },
    {
        match self {
            Error::IoError(failure) => Some(failure),
            _ => None,
        }
    }
}

impl From<IoFailure> for Error {
    fn from(failure: IoFailure) -> (error: Error) {
        Error::IoError(failure)
    }
}

impl vstd::std_specs::convert::FromSpecImpl<IoFailure> for Error {
    open spec fn obeys_from_spec() -> bool {
        true
    }

    open spec fn from_spec(failure: IoFailure) -> Error {
        Error::IoError(failure)
    }
}

} // verus!
