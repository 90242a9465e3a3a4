use vstd::prelude::*;

verus! {

/// The classification of a parse failure, stripped of its message: malformed
/// input can never be mended by more bytes, while incomplete input is a valid
/// prefix of some larger valid construct.
pub ghost enum ErrorKind {
    Malformed,
    Incomplete,
}

/// A classified parse failure. The payload carries context: what was being
/// parsed and where in the input the failure lies.
#[derive(Debug)]
pub enum Error {
    /// The input holds a byte sequence that cannot be interpreted as the
    /// expected construct; supplying more input cannot help.
    ParseError(String),
    /// The input ended in the middle of a construct that more input could
    /// have closed off.
    ParseIncomplete(String),
}

impl Error {
    /// The classification of this failure, with the message stripped.
    pub open spec fn kind(&self) -> ErrorKind {
        match self {
            Error::ParseError(_) => ErrorKind::Malformed,
            Error::ParseIncomplete(_) => ErrorKind::Incomplete,
        }
    }

    /// The context message carried by this failure.
    pub fn message(&self) -> (r: &String)
        ensures
            self matches Error::ParseError(m) ==> r == m,
            self matches Error::ParseIncomplete(m) ==> r == m,
    {
        match self {
            Error::ParseError(m) => m,
            Error::ParseIncomplete(m) => m,
        }
    }
}

impl PartialEq for Error {
    /// Two failures are equal when both the classification and the message match.
    fn eq(&self, other: &Error) -> (r: bool) {
        match (self, other) {
            (Error::ParseError(a), Error::ParseError(b)) => *a == *b,
            (Error::ParseIncomplete(a), Error::ParseIncomplete(b)) => *a == *b,
            _ => false,
        }
    }
}

impl vstd::std_specs::cmp::PartialEqSpecImpl for Error {
    open spec fn obeys_eq_spec() -> bool {
        true
    }

    open spec fn eq_spec(&self, other: &Error) -> bool {
        match (self, other) {
            (Error::ParseError(a), Error::ParseError(b)) => a@ == b@,
            (Error::ParseIncomplete(a), Error::ParseIncomplete(b)) => a@ == b@,
            _ => false,
        }
    }
}

impl Eq for Error {

}

} // verus!
