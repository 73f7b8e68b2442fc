//! Error values of the codec. Every public operation returns one of these
//! instead of panicking.
use vstd::prelude::*;

verus! {

/// Why a CBOR byte sequence was rejected.
#[derive(Clone, Copy, Debug, PartialEq, Eq, Structural)]
pub enum DecodeError {
    /// The input ended before the item was complete.
    UnexpectedEof,
    /// An additional-information value of 28, 29 or 30 was used.
    ReservedAdditionalInfo,
    /// Bytes follow a complete top-level item.
    TrailingData,
    /// A text string is not well-formed UTF-8.
    InvalidUtf8,
    /// A two-byte simple value below 32.
    InvalidSimple,
    /// Indefinite length on a major type that does not allow it.
    InvalidIndefinite,
    /// A break byte outside an indefinite-length container.
    UnexpectedBreak,
    /// A chunk of an indefinite-length string that is not a definite-length
    /// string of the same major type.
    InvalidChunk,
}

/// Why an item tree could not be encoded to CBOR.
#[derive(Clone, Copy, Debug, PartialEq, Eq, Structural)]
pub enum EncodeError {
    /// An application-oriented literal was not resolved to a tag first.
    UnresolvedApplicationLiteral,
    /// A number literal was not resolved to a float item first.
    UnresolvedNumber,
}

/// Why diagnostic-notation text was rejected.
#[derive(Clone, Copy, Debug, PartialEq, Eq, Structural)]
pub enum ParseError {
    /// The input ended before the item was complete.
    UnexpectedEnd,
    /// A byte that cannot start or continue the expected construct.
    UnexpectedToken,
    /// A string or byte-string literal without its closing delimiter.
    UnterminatedString,
    /// A `\` escape the grammar does not know.
    InvalidEscape,
    /// An integer too large for the model's range.
    NumberOutOfRange,
    /// An odd number of hex digits, or a byte outside the alphabet of a
    /// byte-string literal.
    InvalidByteString,
    /// A closing delimiter that does not match the open one.
    UnbalancedDelimiter,
    /// Input after a complete top-level item.
    TrailingText,
    /// A text or payload literal that is not well-formed UTF-8.
    InvalidText,
}

} // verus!
