//! Errors of the runtime.
use vstd::prelude::*;
use vstd::string::*;

use crate::text::{decimal, push_i64, push_u64};

verus! {

/// An error of the runtime.
#[derive(Debug, PartialEq)]
pub enum Error {
    Custom(String),
    /// A failed operation of the system, by its text.
    Io(String),
    /// A string with a zero byte in it, by the place of that byte.
    NulError(usize),
    /// The process is to end with this code.
    ExitCode(i32),
}

/// The text of an error. The kind of an error does not show in it.
pub open spec fn error_text(e: Error) -> Seq<char> {
    match e {
        Error::Custom(message) => message@,
        Error::Io(text) => text@,
        Error::NulError(place) => "nul byte found in provided data at position: "@ + decimal(
            place as int,
        ),
        Error::ExitCode(code) => "exit code "@ + decimal(code as int),
    }
}

impl Error {
    /// An error that is another one's text.
    pub fn from_err(text: String) -> (r: Self)
        ensures
            r matches Error::Custom(m) && m == text,
    {
        Error::Custom(text)
    }

    /// An error with a message.
    pub fn custom(val: &str) -> (r: Self)
        ensures
            r matches Error::Custom(m) && m@ == val@,
    {
        Error::Custom(val.to_owned())
    }

    /// The text of the error.
    pub fn to_string(&self) -> (r: String)
        ensures
            r@ == error_text(*self),
    {
        match self {
            Error::Custom(message) => message.clone(),
            Error::Io(text) => text.clone(),
            Error::NulError(place) => {
                let mut s = "nul byte found in provided data at position: ".to_owned();
                push_u64(&mut s, *place as u64);
                s
            },
            Error::ExitCode(code) => {
                let mut s = "exit code ".to_owned();
                push_i64(&mut s, *code as i64);
                s
            },
        }
    }

    /// The code that the process is to end with, if the error says so. No message
    /// says so, even where it reads like a number.
    pub fn exit_code(&self) -> (r: Option<i32>)
        ensures
            r == match *self {
                Error::ExitCode(code) => Some(code),
                _ => None,
            },
    {
        match self {
            Error::ExitCode(code) => Some(*code),
            _ => None,
        }
    }
}

impl From<&str> for Error {
    fn from(val: &str) -> (r: Self)
        ensures
            r matches Error::Custom(m) && m@ == val@,
    {
        Error::Custom(val.to_owned())
    }
}

impl vstd::std_specs::convert::FromSpecImpl<&str> for Error {
    open spec fn obeys_from_spec() -> bool {
        false
    }

    open spec fn from_spec(v: &str) -> Self {
        arbitrary()
    }
}

impl From<String> for Error {
    fn from(val: String) -> (r: Self) {
        Error::Custom(val)
    }
}

impl vstd::std_specs::convert::FromSpecImpl<String> for Error {
    open spec fn obeys_from_spec() -> bool {
        true
    }

    open spec fn from_spec(v: String) -> Self {
        Error::Custom(v)
    }
}

} // verus!
