use vstd::prelude::*;
use vstd::string::*;

verus! {

/// A general error type.
#[derive(Debug)]
pub enum Error {
    /// A general error with a message describing it.
    General(String),
    /// Any other failure is passed up this way, with a description of its cause.
    Internal(String),
    /// The data set doesn't have a matching column.
    NoSuchColumn,
    /// The input text has no lines to derive row and column counts from.
    MalformedInput,
    /// The parsed arrays disagree with the counted rows and columns.
    ShapeMismatch,
}

impl Error {
    /// Create a new error.
    pub fn general_error(msg: String) -> (e: Self)
        ensures
            e == Error::General(msg),
    {
        Error::General(msg)
    }

    /// A short description of the error, in place of `Display`.
    pub fn message(&self) -> (m: String)
        ensures
            self matches Error::General(s) ==> m@ == s@,
            self matches Error::Internal(s) ==> m@ == s@,
            self matches Error::NoSuchColumn ==> m@ == "no such column"@,
            self matches Error::MalformedInput ==> m@ == "malformed input"@,
            self matches Error::ShapeMismatch ==> m@ == "shape mismatch"@,
    {
        match self {
            Error::General(msg) => msg.clone(),
            Error::Internal(msg) => msg.clone(),
            Error::NoSuchColumn => String::from_str("no such column"),
            Error::MalformedInput => String::from_str("malformed input"),
            Error::ShapeMismatch => String::from_str("shape mismatch"),
        }
    }
}

} // verus!
