//! Why a text is not accepted as a document.

use vstd::prelude::*;

verus! {

/// The literal names that a value may be spelled with.
#[derive(Clone, Copy, Debug, PartialEq, Eq, Structural)]
pub enum Literal {
    True,
    False,
    Null,
}

/// The first fault met in a text, with byte offsets into its UTF-8 encoding.
#[derive(Clone, Copy, Debug, PartialEq, Eq, Structural)]
pub enum Fault {
    /// Something other than comments and whitespace follows the root value.
    UnexpectedContent { at: usize },
    /// No value starts with this byte.
    UnexpectedByte { found: u8, at: usize },
    /// The text ends where a value should start.
    UnexpectedEnd,
    /// A member of an object is followed by neither `,` nor `}`.
    ExpectedCommaOrBrace { at: usize },
    /// An item of an array is followed by neither `,` nor `]`.
    ExpectedCommaOrBracket { at: usize },
    /// A string literal holds a control character; `at` is its opening quote.
    InvalidStringLiteral { at: usize },
    /// The string decoder refused a string literal with escapes; `at` is its opening quote.
    InvalidEscapedString { at: usize },
    /// A backslash is the last character of the text.
    UnterminatedEscape { at: usize },
    /// A string literal has no closing quote.
    UnterminatedString,
    /// A number has no digit where its integer part should start.
    InvalidNumber { at: usize },
    /// A decimal point is not followed by a digit.
    InvalidFraction { at: usize },
    /// An exponent marker is not followed by a digit.
    InvalidExponent { at: usize },
    /// A value that starts like `true`, `false` or `null` is not spelled so.
    ExpectedLiteral { literal: Literal, at: usize },
    /// A block comment has no closing `*/`.
    UnterminatedComment,
    /// Another character, whose first byte is `found`, stands where `expected` was needed.
    ExpectedByte { expected: char, found: u8, at: usize },
    /// The text ends where `expected` was needed.
    ExpectedByteAtEnd { expected: char },
}

/// The error that sorting reports: the fault, and, where the string decoder
/// refused a literal, the decoder's own message.
#[derive(Clone, Debug, PartialEq, Eq)]
pub struct SortError {
    pub fault: Fault,
    pub cause: Option<String>,
}

} // verus!
