//! The ways in which an operation on an automaton fails.

use vstd::prelude::*;
use vstd::string::StringExecFns;

verus! {

/// The result of an operation that may fail with an [`Error`].
pub type IResult<T> = Result<T, Error>;

/// Why an operation failed; each kind carries an explanation for the reader.
#[derive(Debug)]
pub enum Error {
    /// An argument does not have the shape that the operation asks for.
    IllegalArgument(&'static str),
    /// The automaton does not allow the operation.
    UnsupportedOperation(&'static str),
    /// A result was asked for before what it is derived from had been computed.
    Uninitialized(&'static str),
}

impl Error {
    /// The words that introduce an error of this kind.
    pub open spec fn heading(&self) -> Seq<char> {
        match self {
            Error::IllegalArgument(_) => "Illegal Argument: "@,
            Error::UnsupportedOperation(_) => "Unsupported Operation: "@,
            Error::Uninitialized(_) => "Uninitialized: "@,
        }
    }

    /// The explanation that the error carries.
    pub open spec fn explanation(&self) -> Seq<char> {
        match self {
            Error::IllegalArgument(e) => e@,
            Error::UnsupportedOperation(e) => e@,
            Error::Uninitialized(e) => e@,
        }
    }

    /// The error in words: its kind, then its explanation.
    pub fn message(&self) -> (s: String)
        ensures
            s@ == self.heading() + self.explanation(),
    {
        match self {
            Error::IllegalArgument(e) => String::from_str("Illegal Argument: ").concat(e),
            Error::UnsupportedOperation(e) => String::from_str("Unsupported Operation: ").concat(
                e,
            ),
            Error::Uninitialized(e) => String::from_str("Uninitialized: ").concat(e),
        }
    }
}

} // verus!
