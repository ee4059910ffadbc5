//! What can go wrong while compressing or decoding.

use vstd::prelude::*;

verus! {

/// The three numbers that have no decimal text.
#[derive(Debug, Copy, Clone, PartialEq, Eq, Structural)]
pub enum Special {
    NaN,
    Infinity,
    NegInfinity,
}

/// Why a call failed.
#[derive(Debug, Copy, Clone, PartialEq, Eq, Structural)]
pub enum Error {
    /// A reference key holds a character outside `0-9A-Za-z`.
    InvalidKey,
    /// A reference key is well formed but names no entry of the value list.
    IndexOutOfRange,
    /// The text behind a number tag is no number.
    InvalidNumber,
    /// The text behind a special-number tag is none of `+`, `-`, `0`.
    InvalidSpecialValue,
    /// The options forbid this non-finite number.
    UnsupportedValue(Special),
    /// An object's schema is neither a string nor an array of strings, or it
    /// has fewer names than the object has values.
    InvalidObjectSchema,
    /// Following references enters more entries, one inside the other, than
    /// the value list has, as it does where an entry leads back to itself.
    CyclicReference,
}

impl Special {
    /// The name under which the number is reported.
    pub open spec fn spec_name(self) -> Seq<char> {
        match self {
            Special::NaN => "NaN"@,
            Special::Infinity => "Infinity"@,
            Special::NegInfinity => "-Infinity"@,
        }
    }

    /// The name under which the number is reported.
    pub fn name(&self) -> (s: &'static str)
        ensures
            s@ == self.spec_name(),
    {
        match self {
            Special::NaN => "NaN",
            Special::Infinity => "Infinity",
            Special::NegInfinity => "-Infinity",
        }
    }
}

impl Error {
    /// A one-line description, for callers that print errors.
    pub fn message(&self) -> (s: String)
        ensures
            s@ == match *self {
                Error::InvalidKey => "invalid key"@,
                Error::IndexOutOfRange => "index out of range"@,
                Error::InvalidNumber => "invalid number"@,
                Error::InvalidSpecialValue => "invalid special value"@,
                Error::UnsupportedValue(x) => "unsupported data type: [number "@ + x.spec_name() + "]"@,
                Error::InvalidObjectSchema => "invalid object schema"@,
                Error::CyclicReference => "cyclic reference"@,
            },
    {
        match self {
            Error::InvalidKey => String::from_str("invalid key"),
            Error::IndexOutOfRange => String::from_str("index out of range"),
            Error::InvalidNumber => String::from_str("invalid number"),
            Error::InvalidSpecialValue => String::from_str("invalid special value"),
            Error::UnsupportedValue(x) => {
                let mut s = String::from_str("unsupported data type: [number ");
                s.append(x.name());
                s.append("]");
                s
            },
            Error::InvalidObjectSchema => String::from_str("invalid object schema"),
            Error::CyclicReference => String::from_str("cyclic reference"),
        }
    }
}

} // verus!
