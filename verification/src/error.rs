//! The ways in which a run can fail.

use vstd::prelude::*;
use vstd::string::*;

verus! {

/// The kind of a failure.
#[derive(Clone, Copy, Debug, PartialEq, Eq, Structural)]
pub enum ErrorKind {
    /// A resolved file does not exist.
    FileNotFound,
    /// A resolved file exists and cannot be opened or read.
    Unreadable,
    /// The contents of a file do not parse as source text.
    SyntaxError,
    /// A path in its fully qualified form, with a leading separator.
    UnsupportedConstruct,
}

/// A failure: its kind and the file or path that it is about.
#[derive(Clone, Debug, PartialEq, Eq)]
pub struct BundleError {
    pub kind: ErrorKind,
    pub subject: String,
}

/// The words that name a kind of failure.
pub open spec fn kind_label(kind: ErrorKind) -> Seq<char> {
    match kind {
        ErrorKind::FileNotFound => "file not found"@,
        ErrorKind::Unreadable => "file cannot be read"@,
        ErrorKind::SyntaxError => "syntax error"@,
        ErrorKind::UnsupportedConstruct => "unsupported construct"@,
    }
}

impl BundleError {
    /// The failure of the given kind about `subject`.
    pub fn new(kind: ErrorKind, subject: &str) -> (e: BundleError)
        ensures
            e.kind == kind,
            e.subject@ == subject@,
    {
        BundleError { kind, subject: String::from_str(subject) }
    }

    /// The kind's words, a colon and the subject.
    pub fn describe(&self) -> (s: String)
        ensures
            s@ == kind_label(self.kind) + ": "@ + self.subject@,
    {
        let label = match self.kind {
            ErrorKind::FileNotFound => "file not found",
            ErrorKind::Unreadable => "file cannot be read",
            ErrorKind::SyntaxError => "syntax error",
            ErrorKind::UnsupportedConstruct => "unsupported construct",
        };
        let mut s = String::from_str(label);
        s.append(": ");
        s.append(self.subject.as_str());
        s
    }
}

} // verus!
