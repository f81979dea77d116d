use vstd::prelude::*;
use vstd::string::StringExecFns;

verus! {

/// The kind of failure an extraction can report.
///
/// `NotFound` means a required structural fragment (container, cell,
/// sub-element, attribute) is absent. `Parse` means text was present but did
/// not convert to the expected numeric value. `Config` means a selector
/// expression itself is malformed, a programmer defect rather than a data
/// defect.
#[derive(Debug, Clone, Copy, PartialEq, Eq, Structural)]
pub enum ErrorKind {
    NotFound,
    Parse,
    Config,
}

/// An extraction error: a kind plus a human-readable detail naming the
/// fragment that was missing or malformed.
#[derive(Debug)]
pub struct Error {
    pub kind: ErrorKind,
    pub detail: String,
}

impl Error {
    pub fn not_found(detail: &str) -> (r: Error)
        ensures
            r.kind == ErrorKind::NotFound,
            r.detail@ == detail@,
    {
        Error { kind: ErrorKind::NotFound, detail: String::from_str(detail) }
    }

    pub fn parse(detail: &str) -> (r: Error)
        ensures
            r.kind == ErrorKind::Parse,
            r.detail@ == detail@,
    {
        Error { kind: ErrorKind::Parse, detail: String::from_str(detail) }
    }

    pub fn config(detail: &str) -> (r: Error)
        ensures
            r.kind == ErrorKind::Config,
            r.detail@ == detail@,
    {
        Error { kind: ErrorKind::Config, detail: String::from_str(detail) }
    }

    /// The detail message, for callers that render errors.
    pub fn message(&self) -> (r: String)
        ensures
            r@ == self.detail@,
    {
        self.detail.clone()
    }
}

} // verus!
