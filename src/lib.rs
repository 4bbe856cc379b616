use vstd::prelude::*;

pub mod codec;
pub mod freq;
pub mod maptyping;
pub mod tags;

verus! {

/// A single raw byte value.
pub type Byte = u8;

/// A sequence of raw byte values.
pub type ByteList = Vec<Byte>;

/// The radix in which bytes are written out as text.
#[derive(Debug, Clone, Copy, PartialEq, Eq, Structural)]
pub enum PrintMode {
    Binary,
    Hexadecimal,
    Octal,
    Decimal,
}

/// The radix in which text tokens are read as bytes.
#[derive(Debug, Clone, Copy, PartialEq, Eq, Structural)]
pub enum ConversionMode {
    Binary,
    Hexadecimal,
    Octal,
    Decimal,
}

impl PrintMode {
    pub open spec fn spec_radix(self) -> u32 {
        match self {
            PrintMode::Binary => 2,
            PrintMode::Hexadecimal => 16,
            PrintMode::Octal => 8,
            PrintMode::Decimal => 10,
        }
    }
}

impl ConversionMode {
    pub open spec fn spec_radix(self) -> u32 {
        match self {
            ConversionMode::Binary => 2,
            ConversionMode::Hexadecimal => 16,
            ConversionMode::Octal => 8,
            ConversionMode::Decimal => 10,
        }
    }

    /// The numeric radix of this mode.
    pub fn radix(self) -> (r: u32)
        ensures
            r == self.spec_radix(),
    {
        match self {
            ConversionMode::Binary => 2,
            ConversionMode::Hexadecimal => 16,
            ConversionMode::Octal => 8,
            ConversionMode::Decimal => 10,
        }
    }
}

/// The source text was empty.
#[derive(Debug, Clone, Copy, PartialEq, Eq, Structural)]
pub struct EmptySourceError;

/// The substitution alphabet holds fewer tags than the source has tokens.
#[derive(Debug, Clone, Copy, PartialEq, Eq, Structural)]
pub struct NotEnoughTagsError;

/// An operation that needs at least one element received none.
#[derive(Debug, Clone, Copy, PartialEq, Eq, Structural)]
pub struct EmptyListError;

/// Why a token could not be read as a byte.
#[derive(Debug, Clone, Copy, PartialEq, Eq, Structural)]
pub enum ParseByteError {
    /// The token holds no characters.
    Empty,
    /// A character is not a digit of the radix (or a sign stands alone).
    InvalidDigit,
    /// The value does not fit in a byte.
    Overflow,
}

/// The error returned by the operations of this crate.
#[derive(Debug, Clone, Copy, PartialEq, Eq, Structural)]
pub enum TextError {
    EmptySource(EmptySourceError),
    EmptyList(EmptyListError),
    NotEnoughTags(NotEnoughTagsError),
    Parse(ParseByteError),
}

/// Accepts a loaded text sample, refusing an empty one.
pub fn check_sample(text: String) -> (r: Result<String, TextError>)
    ensures
        text@.len() == 0 ==> r == Err::<String, TextError>(TextError::EmptySource(EmptySourceError)),
        text@.len() > 0 ==> r is Ok && r->Ok_0@ == text@,
{
    if text.as_str().is_empty() {
        Err(TextError::EmptySource(EmptySourceError))
    } else {
        Ok(text)
    }
}

} // verus!
