//! Errors: what went wrong, and at which structural token.

use vstd::prelude::*;

verus! {

/// The kind of a parse failure.
#[derive(Debug, PartialEq)]
pub enum ErrorType {
    /// A token that cannot start a value, a misspelt literal, or nesting
    /// beyond the depth limit.
    UnexpectedCharacter,
    /// The tokens ran out before the document was complete.
    UnexpectedEnd,
    /// An object key that is not a string.
    ExpectedString,
    /// A key that is not followed by `:`.
    ExpectedColon,
    /// A value that is followed by something other than `,` or a close.
    ExpectedComma,
    /// An array that is closed by `}`.
    ExpectedArrayClose,
    /// An object that is closed by `]`.
    ExpectedObjectClose,
    /// A backslash followed by a byte that names no escape.
    InvalidEscape,
    /// A `\u` escape that holds no four hex digits, or a surrogate that
    /// has no partner.
    InvalidUnicodeCodepoint,
    /// A string that is not closed before the next token.
    UnexpectedEndOfString,
    /// A number literal that breaks the grammar.
    InvalidNumber,
    /// A number beyond what a double can hold.
    NumberOverflow,
    /// Bytes that are not UTF-8.
    InvalidUtf8,
    /// Tokens after the root value.
    TrailingData,
    /// A message from a typed-deserialization layer.
    Custom(String),
}

/// A failure with its place: the position in the structural index
/// sequence, the byte offset, the byte found there, and the kind.
#[derive(Debug, PartialEq)]
pub struct Error {
    pub structural: usize,
    pub index: usize,
    pub character: char,
    pub error: ErrorType,
}

/// The character reported by errors that have no place in the input.
pub open spec fn placeless_character() -> char {
    '\u{1F4A9}'
}

impl Error {
    /// The error of kind `t` that has no place in the input.
    pub open spec fn spec_generic(t: ErrorType) -> Error {
        Error { structural: 0, index: 0, character: placeless_character(), error: t }
    }

    /// An error of kind `t` that has no place in the input.
    pub fn generic(t: ErrorType) -> (e: Error)
        ensures
            e == Error::spec_generic(t),
    {
        Error { structural: 0, index: 0, character: '\u{1F4A9}', error: t }
    }

    /// An error that carries a message of a typed-deserialization layer.
    pub fn custom(msg: String) -> (e: Error)
        ensures
            e == Error::spec_generic(ErrorType::Custom(msg)),
    {
        Error::generic(ErrorType::Custom(msg))
    }
}

} // verus!
