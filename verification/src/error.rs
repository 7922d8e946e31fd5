//! Error values of the library.

use vstd::prelude::*;

verus! {

/// An error that carries nothing but its text.
#[derive(Debug, PartialEq, Eq)]
pub struct MessageError(String);

impl View for MessageError {
    type V = Seq<char>;

    closed spec fn view(&self) -> Seq<char> {
        self.0@
    }
}

impl MessageError {
    /// An error with the text `s`.
    pub fn new(s: &str) -> (e: MessageError)
        ensures
            e@ == s@,
    {
        MessageError(String::from_str(s))
    }

    /// The text of the error.
    pub fn message(&self) -> (r: String)
        ensures
            r@ == self@,
    {
        self.0.clone()
    }
}

/// Why a text is not a count.
#[derive(Debug, Clone, Copy, PartialEq, Eq)]
pub enum CountError {
    /// The text is empty.
    Empty,
    /// The text holds no digit, or something that is none.
    InvalidDigit,
    /// The number does not fit the machine's word.
    Overflow,
}

/// An error of the library.
#[derive(Debug, PartialEq, Eq)]
pub enum Error {
    Message(MessageError),
    Count(CountError),
}

impl Error {
    /// The text of the error, as it is shown to a user.
    pub open spec fn text(&self) -> Seq<char> {
        match self {
            Error::Message(m) => m@,
            Error::Count(CountError::Empty) => "cannot parse integer from empty string"@,
            Error::Count(CountError::InvalidDigit) => "invalid digit found in string"@,
            Error::Count(CountError::Overflow) => "number too large to fit in target type"@,
        }
    }

    /// The text of the error, as it is shown to a user.
    pub fn message(&self) -> (r: String)
        ensures
            r@ == self.text(),
    {
        match self {
            Error::Message(m) => m.message(),
            Error::Count(CountError::Empty) => String::from_str(
                "cannot parse integer from empty string",
            ),
            Error::Count(CountError::InvalidDigit) => String::from_str(
                "invalid digit found in string",
            ),
            Error::Count(CountError::Overflow) => String::from_str(
                "number too large to fit in target type",
            ),
        }
    }
}

} // verus!
