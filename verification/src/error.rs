//! The single error taxonomy of the library.

use vstd::prelude::*;

verus! {

/// Why an input was rejected.
#[derive(Clone, Copy, Debug, PartialEq, Eq, Hash, Structural)]
pub enum Error {
    /// A byte range whose start lies after its end, or whose end lies after
    /// the end of the text.
    InvalidRange,
    /// A byte range that cuts a multi-byte character in half, so that what
    /// it holds is not text.
    InvalidUtf8,
    /// A count or buffer length computed beforehand that does not match the
    /// one the input calls for.
    LengthMismatch,
    /// A numeric version component without any digit.
    EmptyNumericComponent,
    /// A numeric version component with a byte that is not a decimal digit.
    NonDigitCharacter,
}

impl Error {
    /// A short description of the error for diagnostics.
    pub fn message(&self) -> (text: &'static str)
        ensures
            text@ == match *self {
                Error::InvalidRange => "range is out of bounds"@,
                Error::InvalidUtf8 => "slice results in invalid utf-8"@,
                Error::LengthMismatch => "precomputed length does not match"@,
                Error::EmptyNumericComponent => "version is empty"@,
                Error::NonDigitCharacter => "invalid digit in version"@,
            },
    {
        match self {
            Error::InvalidRange => "range is out of bounds",
            Error::InvalidUtf8 => "slice results in invalid utf-8",
            Error::LengthMismatch => "precomputed length does not match",
            Error::EmptyNumericComponent => "version is empty",
            Error::NonDigitCharacter => "invalid digit in version",
        }
    }
}

} // verus!
