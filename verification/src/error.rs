//! The failures that decoding and conversion report.

use std::fmt::Display;
use std::io;
use std::num::ParseIntError;
use std::string::FromUtf8Error;
use vstd::prelude::*;
use vstd::string::to_string_from_display_ensures;

verus! {

/// `std::string::FromUtf8Error`, carried through unread.
#[verifier::external_type_specification]
#[verifier::external_body]
pub struct ExFromUtf8Error(std::string::FromUtf8Error);

/// `std::num::ParseIntError`, carried through unread.
#[verifier::external_type_specification]
#[verifier::external_body]
pub struct ExParseIntError(std::num::ParseIntError);

/// `std::io::Error`, carried through unread.
#[verifier::external_type_specification]
#[verifier::external_body]
pub struct ExIoError(std::io::Error);

/// `std::io::Error::from` on `std::io::ErrorKind::Other`: an I/O failure of
/// the kind "other" that carries nothing else.
#[verifier::external_body]
fn other_io_error() -> io::Error {
    io::Error::from(io::ErrorKind::Other)
}

/// A convenience `Result` type for this crate.
pub type Result<T> = std::result::Result<T, Error>;

/// Every failure that this crate reports.
#[derive(Debug)]
pub enum Error {
    /// A failure raised by a consumer of the value model, with its message.
    Deserialize(String),
    /// The input ended before a complete value was formed.
    EofWhileParsingValue,
    /// A value was required where none begins.
    ExpectedSomeValue,
    /// Bytes that should have been text were not valid UTF-8.
    FromUtf8Error(FromUtf8Error),
    /// The length prefix of a byte string was not a valid length.
    InvalidByteStrLen,
    /// An integer had an invalid literal form.
    InvalidInteger,
    /// A dictionary was malformed.
    InvalidDict,
    /// A list was malformed.
    InvalidList,
    /// The transport that supplied the bytes failed.
    IoError(io::Error),
    /// A dictionary key was not a byte string.
    KeyMustBeAByteStr,
    /// Text that should have been an integer was not one.
    ParseIntError(ParseIntError),
    /// Bytes remained after a complete top-level value.
    TrailingData,
}

/// The lower-level failure that an [`Error`] wraps.
#[derive(Debug)]
pub enum Source<'a> {
    FromUtf8Error(&'a FromUtf8Error),
    IoError(&'a io::Error),
    ParseIntError(&'a ParseIntError),
}

impl Error {
    /// The fixed message of a kind that wraps nothing and carries no message
    /// of its own; the empty text for the other kinds.
    pub open spec fn fixed_message(&self) -> Seq<char> {
        match self {
            Error::EofWhileParsingValue => "eof while parsing value"@,
            Error::ExpectedSomeValue => "expected some value"@,
            Error::InvalidByteStrLen => "invalid byte string length"@,
            Error::InvalidInteger => "invalid integer"@,
            Error::InvalidDict => "invalid dictionary"@,
            Error::InvalidList => "invalid list"@,
            Error::KeyMustBeAByteStr => "key must be a byte string"@,
            Error::TrailingData => "trailing data error"@,
            _ => Seq::empty(),
        }
    }

    /// Whether `text` is the message of this failure: the carried message of
    /// `Deserialize`, what the wrapped failure displays for a wrapping kind,
    /// and the fixed message of any other kind.
    pub open spec fn has_message(&self, text: String) -> bool {
        match self {
            Error::Deserialize(message) => text@ == message@,
            Error::FromUtf8Error(inner) => to_string_from_display_ensures::<FromUtf8Error>(
                inner,
                text,
            ),
            Error::IoError(inner) => to_string_from_display_ensures::<io::Error>(inner, text),
            Error::ParseIntError(inner) => to_string_from_display_ensures::<ParseIntError>(
                inner,
                text,
            ),
            _ => text@ == self.fixed_message(),
        }
    }

    /// The single-line message of this failure.
    pub fn message(&self) -> (text: String)
        ensures
            self.has_message(text),
    {
        match self {
            Error::Deserialize(message) => message.clone(),
            Error::EofWhileParsingValue => "eof while parsing value".to_owned(),
            Error::ExpectedSomeValue => "expected some value".to_owned(),
            Error::FromUtf8Error(inner) => inner.to_string(),
            Error::InvalidByteStrLen => "invalid byte string length".to_owned(),
            Error::InvalidInteger => "invalid integer".to_owned(),
            Error::InvalidDict => "invalid dictionary".to_owned(),
            Error::InvalidList => "invalid list".to_owned(),
            Error::IoError(inner) => inner.to_string(),
            Error::KeyMustBeAByteStr => "key must be a byte string".to_owned(),
            Error::ParseIntError(inner) => inner.to_string(),
            Error::TrailingData => "trailing data error".to_owned(),
        }
    }

    /// The failure that this one wraps, if it wraps one.
    pub fn source(&self) -> (inner: Option<Source<'_>>)
        ensures
            inner == match self {
                Error::FromUtf8Error(e) => Some(Source::FromUtf8Error(e)),
                Error::IoError(e) => Some(Source::IoError(e)),
                Error::ParseIntError(e) => Some(Source::ParseIntError(e)),
                _ => None,
            },
    {
        match self {
            Error::FromUtf8Error(e) => Some(Source::FromUtf8Error(e)),
            Error::IoError(e) => Some(Source::IoError(e)),
            Error::ParseIntError(e) => Some(Source::ParseIntError(e)),
            _ => None,
        }
    }

    /// A failure with a message of the caller's own.
    pub fn custom<T: Display>(msg: T) -> (error: Error)
        ensures
            error matches Error::Deserialize(message) && to_string_from_display_ensures::<T>(
                &msg,
                message,
            ),
    {
        Error::Deserialize(msg.to_string())
    }

    /// The failure for a value of one type found where another was expected.
    /// `unexpected` describes what was found and `expected` what was asked
    /// for.
    pub fn invalid_type(unexpected: &str, expected: &str) -> (error: Error)
        ensures
            error matches Error::Deserialize(message) && message@
                == "unexpected type error. invalid_type="@ + unexpected@ + ", expected_type="@
                + expected@,
    {
        let mut message = "unexpected type error. invalid_type=".to_owned();
        message.append(unexpected);
        message.append(", expected_type=");
        message.append(expected);
        Error::Deserialize(message)
    }

    /// Turns the failure into an I/O failure. An `IoError` gives up the
    /// failure that it wraps; every other kind becomes a generic I/O failure
    /// of the kind "other", and what it was is lost.
    pub fn into_io_error(self) -> (error: io::Error)
        ensures
            self matches Error::IoError(inner) ==> error == inner,
    {
        match self {
            Error::IoError(inner) => inner,
            _ => other_io_error(),
        }
    }
}

impl From<FromUtf8Error> for Error {
    fn from(other: FromUtf8Error) -> (error: Self) {
        Error::FromUtf8Error(other)
    }
}

impl vstd::std_specs::convert::FromSpecImpl<FromUtf8Error> for Error {
    open spec fn obeys_from_spec() -> bool {
        true
    }

    open spec fn from_spec(other: FromUtf8Error) -> Self {
        Error::FromUtf8Error(other)
    }
}

impl From<ParseIntError> for Error {
    fn from(other: ParseIntError) -> (error: Self) {
        Error::ParseIntError(other)
    }
}

impl vstd::std_specs::convert::FromSpecImpl<ParseIntError> for Error {
    open spec fn obeys_from_spec() -> bool {
        true
    }

    open spec fn from_spec(other: ParseIntError) -> Self {
        Error::ParseIntError(other)
    }
}

} // verus!
