//! What can go wrong while a tree is built or searched.

use vstd::prelude::*;
use vstd::string::StringExecFns;

verus! {

/// A failure, with the path or pattern it is about.
#[derive(Debug, PartialEq, Eq)]
pub enum Error {
    /// The path does not exist on disk.
    NotFound { path: String },
    /// Reading the path failed; `cause` is what the system reported.
    Io { path: String, cause: String },
    /// The path does not lie below the base it should be relative to.
    StripPrefix { path: String, base: String },
    /// The path has no canonical form, or does not fit where it was put.
    InvalidPath { path: String },
    /// The path is nested deeper than a tree may be.
    TooDeep { path: String },
    /// The glob pattern is malformed.
    BadPattern { pattern: String },
}

/// The mathematical value of an [`Error`].
pub ghost enum ErrorView {
    NotFound { path: Seq<char> },
    Io { path: Seq<char>, cause: Seq<char> },
    StripPrefix { path: Seq<char>, base: Seq<char> },
    InvalidPath { path: Seq<char> },
    TooDeep { path: Seq<char> },
    BadPattern { pattern: Seq<char> },
}

impl View for Error {
    type V = ErrorView;

    open spec fn view(&self) -> ErrorView {
        match *self {
            Error::NotFound { path } => ErrorView::NotFound { path: path@ },
            Error::Io { path, cause } => ErrorView::Io { path: path@, cause: cause@ },
            Error::StripPrefix { path, base } => ErrorView::StripPrefix {
                path: path@,
                base: base@,
            },
            Error::InvalidPath { path } => ErrorView::InvalidPath { path: path@ },
            Error::TooDeep { path } => ErrorView::TooDeep { path: path@ },
            Error::BadPattern { pattern } => ErrorView::BadPattern { pattern: pattern@ },
        }
    }
}

/// The text that describes an error: the offending path or pattern, then
/// what is wrong with it.
pub open spec fn message_text(e: ErrorView) -> Seq<char> {
    match e {
        ErrorView::NotFound { path } => "\""@ + path + "\" doesn't exist"@,
        ErrorView::Io { path, cause } => path + ": "@ + cause,
        ErrorView::StripPrefix { path, base } => path + ": not below "@ + base,
        ErrorView::InvalidPath { path } => path + ": invalid path"@,
        ErrorView::TooDeep { path } => path + ": nested too deep"@,
        ErrorView::BadPattern { pattern } => pattern + ": bad pattern"@,
    }
}

impl Error {
    /// Describes the error in words.
    pub fn message(&self) -> (text: String)
        ensures
            text@ == message_text(self@),
    {
        match self {
            Error::NotFound { path } => {
                String::from_str("\"").concat(path.as_str()).concat("\" doesn't exist")
            },
            Error::Io { path, cause } => {
                String::from_str(path.as_str()).concat(": ").concat(cause.as_str())
            },
            Error::StripPrefix { path, base } => {
                String::from_str(path.as_str()).concat(": not below ").concat(base.as_str())
            },
            Error::InvalidPath { path } => {
                String::from_str(path.as_str()).concat(": invalid path")
            },
            Error::TooDeep { path } => {
                String::from_str(path.as_str()).concat(": nested too deep")
            },
            Error::BadPattern { pattern } => {
                String::from_str(pattern.as_str()).concat(": bad pattern")
            },
        }
    }
}

} // verus!
