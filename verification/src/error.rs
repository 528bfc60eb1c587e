//! The errors that the codec reports.

use vstd::prelude::*;
use vstd::string::StringExecFns;

verus! {

/// Why a value could not be read or written.
#[derive(Debug, PartialEq, Eq)]
pub enum Error {
    Generic(String),
    IdentifierInvalid,
    EmptyInput,
    ParseError(String),
    SerializeError,
}

/// An error as the contracts speak of it: the variant, and the characters of
/// the text that it carries.
pub enum ErrorView {
    Generic(Seq<char>),
    IdentifierInvalid,
    EmptyInput,
    ParseError(Seq<char>),
    SerializeError,
}

impl View for Error {
    type V = ErrorView;

    open spec fn view(&self) -> ErrorView {
        match self {
            Error::Generic(s) => ErrorView::Generic(s@),
            Error::IdentifierInvalid => ErrorView::IdentifierInvalid,
            Error::EmptyInput => ErrorView::EmptyInput,
            Error::ParseError(s) => ErrorView::ParseError(s@),
            Error::SerializeError => ErrorView::SerializeError,
        }
    }
}

impl ErrorView {
    /// The sentence that describes the error to a reader.
    pub open spec fn message(self) -> Seq<char> {
        match self {
            ErrorView::Generic(s) => "Generic "@ + s,
            ErrorView::IdentifierInvalid => "Invalid Identifier for deserialization"@,
            ErrorView::EmptyInput => "Input for deserialization empty"@,
            ErrorView::ParseError(s) => "Parse error: "@ + s,
            ErrorView::SerializeError => "SerializeError"@,
        }
    }
}

impl Error {
    /// The sentence that describes the error to a reader.
    pub fn message(&self) -> (text: String)
        ensures
            text@ == self@.message(),
    {
        match self {
            Error::Generic(s) => String::from_str("Generic ").concat(s.as_str()),
            Error::IdentifierInvalid => String::from_str("Invalid Identifier for deserialization"),
            Error::EmptyInput => String::from_str("Input for deserialization empty"),
            Error::ParseError(s) => String::from_str("Parse error: ").concat(s.as_str()),
            Error::SerializeError => String::from_str("SerializeError"),
        }
    }
}

} // verus!
