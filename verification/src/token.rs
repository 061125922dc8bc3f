//! The token and error types produced by the lexer, together with their
//! mathematical models.
//!
//! Executable values carry `String` / `Vec` payloads; each type has a `View`
//! onto a model type over `Seq` and `int`, and every contract in this crate
//! speaks of those models.

use vstd::prelude::*;

verus! {

/// An exactly represented decimal number: a sign, the integer part, and the
/// fractional digits in order of appearance.
///
/// The value denoted is
/// `(-1)^negative * (integer + 0.fraction...)`; keeping the digits instead of
/// a binary floating-point approximation makes the scanner's arithmetic
/// exact.  Well-formed values keep every fractional digit below ten.
#[derive(Clone, Debug, PartialEq)]
pub struct JsonNumber {
    pub negative: bool,
    pub integer: u64,
    pub fraction: Vec<u8>,
}

/// The model of a [`JsonNumber`]: the same three components over `int` and
/// `Seq`.
pub struct NumberModel {
    pub negative: bool,
    pub integer: int,
    pub fraction: Seq<u8>,
}

impl View for JsonNumber {
    type V = NumberModel;

    open spec fn view(&self) -> NumberModel {
        NumberModel { negative: self.negative, integer: self.integer as int, fraction: self.fraction@ }
    }
}

impl JsonNumber {
    /// All fractional digits are decimal digits.
    pub open spec fn wf(self) -> bool {
        self@.wf()
    }
}

impl NumberModel {
    /// All fractional digits are decimal digits.
    pub open spec fn wf(self) -> bool {
        &&& 0 <= self.integer <= u64::MAX
        &&& forall|k: int| 0 <= k < self.fraction.len() ==> self.fraction[k] < 10
    }
}

/// One classified lexical unit.
#[derive(Clone, Debug, PartialEq)]
pub enum JsonToken {
    ObjectStart,
    ObjectEnd,
    Colon,
    Comma,
    StringLiteral(String),
    BooleanLiteral(bool),
    NumberLiteral(JsonNumber),
    Invalid,
}

/// The model of a [`JsonToken`].
pub enum TokenModel {
    ObjectStart,
    ObjectEnd,
    Colon,
    Comma,
    StringLiteral(Seq<char>),
    BooleanLiteral(bool),
    NumberLiteral(NumberModel),
    Invalid,
}

impl View for JsonToken {
    type V = TokenModel;

    open spec fn view(&self) -> TokenModel {
        match self {
            JsonToken::ObjectStart => TokenModel::ObjectStart,
            JsonToken::ObjectEnd => TokenModel::ObjectEnd,
            JsonToken::Colon => TokenModel::Colon,
            JsonToken::Comma => TokenModel::Comma,
            JsonToken::StringLiteral(s) => TokenModel::StringLiteral(s@),
            JsonToken::BooleanLiteral(b) => TokenModel::BooleanLiteral(*b),
            JsonToken::NumberLiteral(n) => TokenModel::NumberLiteral(n@),
            JsonToken::Invalid => TokenModel::Invalid,
        }
    }
}

/// The models of a whole token sequence.
pub open spec fn token_models(tokens: Seq<JsonToken>) -> Seq<TokenModel> {
    tokens.map_values(|t: JsonToken| t@)
}

/// A fatal lexical error; any of these aborts the pass, and no partial token
/// sequence is returned.
#[derive(Clone, Debug, PartialEq)]
pub enum JsonError {
    /// An unexpected byte inside a keyword.
    InvalidCharacter(char),
    /// An unrecognized character after a backslash inside a string.
    InvalidEscapeSequence(char),
    /// A malformed or overflowing number; carries the value accumulated so
    /// far.
    InvalidNumber(JsonNumber),
    /// A numeric-unicode escape, which this lexer does not decode.
    UnsupportedEscape,
    /// The input ended in the middle of a token.
    UnexpectedEndOfInput,
}

/// The model of a [`JsonError`].
pub enum ErrorModel {
    InvalidCharacter(char),
    InvalidEscapeSequence(char),
    InvalidNumber(NumberModel),
    UnsupportedEscape,
    UnexpectedEndOfInput,
}

impl View for JsonError {
    type V = ErrorModel;

    open spec fn view(&self) -> ErrorModel {
        match self {
            JsonError::InvalidCharacter(c) => ErrorModel::InvalidCharacter(*c),
            JsonError::InvalidEscapeSequence(c) => ErrorModel::InvalidEscapeSequence(*c),
            JsonError::InvalidNumber(n) => ErrorModel::InvalidNumber(n@),
            JsonError::UnsupportedEscape => ErrorModel::UnsupportedEscape,
            JsonError::UnexpectedEndOfInput => ErrorModel::UnexpectedEndOfInput,
        }
    }
}

} // verus!
