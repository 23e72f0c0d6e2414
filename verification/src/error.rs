//! The error type of the database.

use vstd::prelude::*;

verus! {

/// What can go wrong. The storage engines give `Value` for a key or a value
/// that is too long to store, and `Internal` for a read outside the log; the
/// other kinds belong to the layers above them.
#[derive(Clone, Debug, PartialEq, Eq)]
pub enum Error {
    Abort,
    Config(String),
    Internal(String),
    Parse(String),
    ReadOnly,
    Serialization,
    Value(String),
}

impl Error {
    /// The text of the error: the message it carries, or a fixed text for
    /// the kinds that carry none.
    pub open spec fn message(&self) -> Seq<char> {
        match self {
            Error::Abort => "Operation aborted"@,
            Error::ReadOnly => "Read-only transaction"@,
            Error::Serialization => "Serialization error"@,
            Error::Config(s) => s@,
            Error::Internal(s) => s@,
            Error::Parse(s) => s@,
            Error::Value(s) => s@,
        }
    }

    /// The text of the error.
    pub fn to_string(&self) -> (r: String)
        ensures
            r@ == self.message(),
    {
        match self {
            Error::Abort => "Operation aborted".to_owned(),
            Error::ReadOnly => "Read-only transaction".to_owned(),
            Error::Serialization => "Serialization error".to_owned(),
            Error::Config(s) => s.clone(),
            Error::Internal(s) => s.clone(),
            Error::Parse(s) => s.clone(),
            Error::Value(s) => s.clone(),
        }
    }
}

} // verus!
