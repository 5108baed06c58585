//! What can go wrong.

use crate::text::{debug_text, decimal, decimal_spec, text_debug, Text};
use vstd::prelude::*;

verus! {

#[derive(Debug)]
pub enum Error {
    /// The lexer failed for the given reason.
    Lexer(String),
    /// The parser failed for the given reason.
    Parser(String),
    /// The named relation is not extensional.
    NotExtensional(String),
    /// The named relation is not intensional.
    NotIntensional(String),
    /// A query or assertion was malformed for the given reason.
    MalformedLine(String),
    /// Reading or writing a relation failed for the given reason.
    StorageError(String),
    /// A file of the data directory has a name that is no relation's.
    BadFilename(String),
    /// The arity of some fact did not match the arity of the table.
    ArityMismatch { expected: usize, got: usize },
}

pub enum ErrorSpec {
    Lexer(Text),
    Parser(Text),
    NotExtensional(Text),
    NotIntensional(Text),
    MalformedLine(Text),
    StorageError(Text),
    BadFilename(Text),
    ArityMismatch { expected: usize, got: usize },
}

impl View for Error {
    type V = ErrorSpec;

    open spec fn view(&self) -> ErrorSpec {
        match self {
            Error::Lexer(s) => ErrorSpec::Lexer(s@),
            Error::Parser(s) => ErrorSpec::Parser(s@),
            Error::NotExtensional(s) => ErrorSpec::NotExtensional(s@),
            Error::NotIntensional(s) => ErrorSpec::NotIntensional(s@),
            Error::MalformedLine(s) => ErrorSpec::MalformedLine(s@),
            Error::StorageError(s) => ErrorSpec::StorageError(s@),
            Error::BadFilename(s) => ErrorSpec::BadFilename(s@),
            Error::ArityMismatch { expected, got } => ErrorSpec::ArityMismatch {
                expected: *expected,
                got: *got,
            },
        }
    }
}


impl ErrorSpec {
    /// What kind of error this is, in a few words.
    pub open spec fn description(self) -> Text {
        match self {
            ErrorSpec::Lexer(_) => "lexer error"@,
            ErrorSpec::Parser(_) => "parser error"@,
            ErrorSpec::NotExtensional(_) | ErrorSpec::MalformedLine(_) | ErrorSpec::NotIntensional(
                _,
            ) => "evaluation error"@,
            ErrorSpec::StorageError(_) => "storage error"@,
            ErrorSpec::BadFilename(_) => "bad filename for table file"@,
            ErrorSpec::ArityMismatch { expected, got } => "arity mismatch"@,
        }
    }

    /// The line that tells a user of the error.
    pub open spec fn message(self) -> Text {
        match self {
            ErrorSpec::Lexer(s) => "lexer error: "@ + s,
            ErrorSpec::Parser(s) => "parser error: "@ + s,
            ErrorSpec::NotExtensional(s) => "not an extensional relation: "@ + s,
            ErrorSpec::NotIntensional(s) => "not an intensional relation: "@ + s,
            ErrorSpec::MalformedLine(s) => "malformed query/assertion: "@ + s,
            ErrorSpec::StorageError(s) => "storage error: "@ + s,
            ErrorSpec::BadFilename(s) => "bad filename for table file: "@ + text_debug(s),
            ErrorSpec::ArityMismatch { expected, got } => "arity mismatch: expected arity "@
                + decimal_spec(expected as nat) + " but got "@ + decimal_spec(got as nat),
        }
    }
}

impl Error {
    /// What kind of error this is, in a few words.
    pub fn description(&self) -> (r: &'static str)
        ensures
            r@ == self@.description(),
    {
        match self {
            Error::Lexer(_) => "lexer error",
            Error::Parser(_) => "parser error",
            Error::NotExtensional(_) | Error::MalformedLine(_) | Error::NotIntensional(_) => {
                "evaluation error"
            },
            Error::StorageError(_) => "storage error",
            Error::BadFilename(_) => "bad filename for table file",
            Error::ArityMismatch { expected, got } => "arity mismatch",
        }
    }

    /// The line that tells a user of the error.
    pub fn message(&self) -> (r: String)
        ensures
            r@ == self@.message(),
    {
        match self {
            Error::Lexer(s) => String::from_str("lexer error: ").concat(s.as_str()),
            Error::Parser(s) => String::from_str("parser error: ").concat(s.as_str()),
            Error::NotExtensional(s) => String::from_str("not an extensional relation: ").concat(
                s.as_str(),
            ),
            Error::NotIntensional(s) => String::from_str("not an intensional relation: ").concat(
                s.as_str(),
            ),
            Error::MalformedLine(s) => String::from_str("malformed query/assertion: ").concat(
                s.as_str(),
            ),
            Error::StorageError(s) => String::from_str("storage error: ").concat(s.as_str()),
            Error::BadFilename(s) => String::from_str("bad filename for table file: ").concat(
                debug_text(s).as_str(),
            ),
            Error::ArityMismatch { expected, got } => String::from_str(
                "arity mismatch: expected arity ",
            ).concat(decimal(*expected).as_str()).concat(" but got ").concat(decimal(*got).as_str()),
        }
    }
}

} // verus!
