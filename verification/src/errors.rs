//! The error type of the library.

use vstd::prelude::*;
use vstd::std_specs::convert::FromSpecImpl;
use vstd::string::to_string_from_display_ensures;

verus! {

/// `std::io::Error`, carried through as an opaque value.
#[verifier::external_type_specification]
#[verifier::external_body]
pub struct ExIoError(std::io::Error);

/// `std::num::ParseIntError`, carried through as an opaque value.
#[verifier::external_type_specification]
#[verifier::external_body]
pub struct ExParseIntError(std::num::ParseIntError);

/// Everything that can go wrong while reading input and talking to files.
#[derive(Debug)]
pub enum AppError {
    IoError(std::io::Error),
    ParseIntError(std::num::ParseIntError),
    InvalidNumber(String),
    InvalidLineFormat(String),
    InvalidLineNumber(String),
}

impl AppError {
    /// The one-line description of the error, as the command line shows it.
    pub fn message(&self) -> (m: String)
        ensures
            match *self {
                AppError::InvalidNumber(s) => m@ == "Invalid number: "@ + s@,
                AppError::InvalidLineFormat(s) => m@ == "Invalid line format: "@ + s@,
                AppError::InvalidLineNumber(s) => m@ == "Invalid line number: "@ + s@,
                AppError::IoError(e) => exists|t: String|
                    to_string_from_display_ensures::<std::io::Error>(&e, t) && m@ == "IO error: "@
                        + t@,
                AppError::ParseIntError(e) => exists|t: String|
                    to_string_from_display_ensures::<std::num::ParseIntError>(&e, t) && m@
                        == "Parse int error: "@ + t@,
            },
    {
        let mut m = String::new();
        match self {
            AppError::IoError(e) => {
                m.append("IO error: ");
                let ghost head = m@;
                assert(head =~= "IO error: "@);
                let text = e.to_string();
                m.append(text.as_str());
                assert(m@ =~= head + text@);
            },
            AppError::ParseIntError(e) => {
                m.append("Parse int error: ");
                let ghost head = m@;
                assert(head =~= "Parse int error: "@);
                let text = e.to_string();
                m.append(text.as_str());
                assert(m@ =~= head + text@);
            },
            AppError::InvalidNumber(s) => {
                m.append("Invalid number: ");
                let ghost head = m@;
                assert(head =~= "Invalid number: "@);
                m.append(s.as_str());
            },
            AppError::InvalidLineFormat(s) => {
                m.append("Invalid line format: ");
                let ghost head = m@;
                assert(head =~= "Invalid line format: "@);
                m.append(s.as_str());
            },
            AppError::InvalidLineNumber(s) => {
                m.append("Invalid line number: ");
                let ghost head = m@;
                assert(head =~= "Invalid line number: "@);
                m.append(s.as_str());
            },
        }
        m
    }
}

impl From<std::io::Error> for AppError {
    fn from(e: std::io::Error) -> (r: Self) {
        AppError::IoError(e)
    }
}

impl FromSpecImpl<std::io::Error> for AppError {
    open spec fn obeys_from_spec() -> bool {
        true
    }

    open spec fn from_spec(e: std::io::Error) -> Self {
        AppError::IoError(e)
    }
}

impl From<std::num::ParseIntError> for AppError {
    fn from(e: std::num::ParseIntError) -> (r: Self) {
        AppError::ParseIntError(e)
    }
}

impl FromSpecImpl<std::num::ParseIntError> for AppError {
    open spec fn obeys_from_spec() -> bool {
        true
    }

    open spec fn from_spec(e: std::num::ParseIntError) -> Self {
        AppError::ParseIntError(e)
    }
}

} // verus!
