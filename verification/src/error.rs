//! Failures of a build, and the rule that names them.

use vstd::prelude::*;

verus! {

/// An operation on the file system that a build asks for.
#[derive(Clone, Copy, Debug, PartialEq, Eq, Structural)]
pub enum Operation {
    /// Resolve a path to its canonical form.
    Canonicalize,
    /// Read the byte size of the entry at a canonical path.
    Metadata,
    /// Tell whether a path denotes a directory.
    IsDir,
    /// Enumerate the entries of a directory.
    ReadDir,
}

/// Why the operating system refused an operation.
#[derive(Clone, Copy, Debug, PartialEq, Eq, Structural)]
pub enum Cause {
    /// Nothing exists at the path.
    NotFound,
    /// Access to the path was refused.
    PermissionDenied,
    /// The path names a link that leads nowhere.
    Dangling,
    /// Any other failure.
    Other,
}

/// The kinds of failure of a build.
#[derive(Clone, Copy, Debug, PartialEq, Eq, Structural)]
pub enum ErrorKind {
    /// A path did not exist when it was visited.
    NotFound,
    /// Reading metadata or listing a directory was refused.
    PermissionDenied,
    /// A path could not be resolved to the canonical path of an entry.
    CanonicalizationFailure,
    /// Any other failure while reading metadata or listing a directory.
    IoError,
}

impl ErrorKind {
    /// What the kind is called in a message.
    pub open spec fn text(self) -> Seq<char> {
        match self {
            ErrorKind::NotFound => "not found"@,
            ErrorKind::PermissionDenied => "permission denied"@,
            ErrorKind::CanonicalizationFailure => "cannot be resolved"@,
            ErrorKind::IoError => "cannot be read"@,
        }
    }

    /// Returns what the kind is called in a message.
    pub fn as_str(&self) -> (text: &'static str)
        ensures
            text@ == self.text(),
    {
        match self {
            ErrorKind::NotFound => "not found",
            ErrorKind::PermissionDenied => "permission denied",
            ErrorKind::CanonicalizationFailure => "cannot be resolved",
            ErrorKind::IoError => "cannot be read",
        }
    }
}

/// The kind of failure that `cause` amounts to when it ends `op`.
///
/// A missing path and a refusal keep their own kinds whatever was asked. A
/// dangling link cannot be resolved. Any other failure counts against
/// resolving where the path was being resolved, and as an I/O error elsewhere.
pub open spec fn kind_of(op: Operation, cause: Cause) -> ErrorKind {
    match cause {
        Cause::NotFound => ErrorKind::NotFound,
        Cause::PermissionDenied => ErrorKind::PermissionDenied,
        Cause::Dangling => ErrorKind::CanonicalizationFailure,
        Cause::Other => if op == Operation::Canonicalize {
            ErrorKind::CanonicalizationFailure
        } else {
            ErrorKind::IoError
        },
    }
}

/// Names the kind of failure that `cause` amounts to when it ends `op`.
pub fn classify(op: Operation, cause: Cause) -> (kind: ErrorKind)
    ensures
        kind == kind_of(op, cause),
{
    match cause {
        Cause::NotFound => ErrorKind::NotFound,
        Cause::PermissionDenied => ErrorKind::PermissionDenied,
        Cause::Dangling => ErrorKind::CanonicalizationFailure,
        Cause::Other => match op {
            Operation::Canonicalize => ErrorKind::CanonicalizationFailure,
            _ => ErrorKind::IoError,
        },
    }
}

/// The failure that ends a build: its kind and the path it arose at.
pub struct ErrorView {
    pub kind: ErrorKind,
    pub path: Seq<char>,
}

impl ErrorView {
    /// The failure in words: the path, a colon, and what went wrong with it.
    pub open spec fn message(self) -> Seq<char> {
        self.path + ": "@ + self.kind.text()
    }
}

/// The failure that ends a build.
#[derive(Debug, PartialEq, Eq)]
pub struct FsError {
    kind: ErrorKind,
    path: String,
}

impl View for FsError {
    type V = ErrorView;

    closed spec fn view(&self) -> ErrorView {
        ErrorView { kind: self.kind, path: self.path@ }
    }
}

impl FsError {
    /// A failure of kind `kind` at `path`.
    pub fn new(kind: ErrorKind, path: String) -> (e: FsError)
        ensures
            e@ == (ErrorView { kind, path: path@ }),
    {
        FsError { kind, path }
    }

    /// The kind of the failure.
    pub fn kind(&self) -> (kind: ErrorKind)
        ensures
            kind == self@.kind,
    {
        self.kind
    }

    /// The path that the failing operation was asked about.
    pub fn path(&self) -> (path: &str)
        ensures
            path@ == self@.path,
    {
        self.path.as_str()
    }

    /// The failure in words: the path, a colon, and what went wrong with it.
    pub fn message(&self) -> (message: String)
        ensures
            message@ == self@.message(),
    {
        let mut message = self.path.clone();
        message.append(": ");
        message.append(self.kind.as_str());
        message
    }
}

} // verus!
