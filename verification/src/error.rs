use vstd::prelude::*;

verus! {

/// The kind of a failure surfaced by `compile`.
#[derive(Clone, Copy, Debug, PartialEq, Eq, Structural)]
pub enum ErrorKind {
    /// The source string is not in the regex grammar.
    InvalidSyntax,
    /// The construct parses but its execution is not implemented
    /// (backreferences).
    UnsupportedFeature,
    /// A compiler post-condition failed, such as folding an empty list.
    InternalInvariantViolation,
}

/// A compilation error: a kind and a human-readable message.
#[derive(Debug)]
pub struct Error {
    pub kind: ErrorKind,
    pub msg: String,
}

impl Error {
    /// An internal-invariant error carrying `msg`.
    pub fn from(msg: &str) -> (r: Error)
        ensures
            r.kind == ErrorKind::InternalInvariantViolation,
            r.msg@ == msg@,
    {
        Error { kind: ErrorKind::InternalInvariantViolation, msg: msg.to_owned() }
    }

    /// A syntax error carrying `msg`.
    pub fn invalid_syntax(msg: &str) -> (r: Error)
        ensures
            r.kind == ErrorKind::InvalidSyntax,
            r.msg@ == msg@,
    {
        Error { kind: ErrorKind::InvalidSyntax, msg: msg.to_owned() }
    }

    /// An unsupported-feature error carrying `msg`.
    pub fn unsupported(msg: &str) -> (r: Error)
        ensures
            r.kind == ErrorKind::UnsupportedFeature,
            r.msg@ == msg@,
    {
        Error { kind: ErrorKind::UnsupportedFeature, msg: msg.to_owned() }
    }

    /// The error's message.
    pub fn message(&self) -> (r: String)
        ensures
            r@ == self.msg@,
    {
        self.msg.clone()
    }
}

impl PartialEq for Error {
    fn eq(&self, other: &Error) -> (r: bool) {
        self.kind == other.kind && self.msg == other.msg
    }
}

impl vstd::std_specs::cmp::PartialEqSpecImpl for Error {
    open spec fn obeys_eq_spec() -> bool {
        true
    }

    open spec fn eq_spec(&self, other: &Error) -> bool {
        self.kind == other.kind && self.msg@ == other.msg@
    }
}

} // verus!
