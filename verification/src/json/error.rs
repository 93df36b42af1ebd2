//! The error taxonomy of the tokenizer and the parser.
//!
//! Every variant aborts the current parse the instant it is detected; no
//! partial value is returned alongside an error.

use vstd::prelude::*;
use vstd::string::StringExecFns;
use crate::json::token::{Token, TokenModel};
use crate::text::push_char;

verus! {

/// Why a tokenize or parse call failed.
#[derive(Debug, PartialEq)]
pub enum Error {
    /// A grammar violation not covered by a dedicated variant; carries the
    /// offending token and an internal marker naming the grammar production
    /// that rejected it (see the `MARK_*` constants of the parser).
    SyntaxError(Token, u32),
    /// The scanner met a character outside the grammar; carries the
    /// character and its index in the scanned character sequence.
    UnrecognizedToken(char, usize),
    /// The first token of the input is neither `{` nor `[`, or there is no
    /// token at all.
    MustBeginWithBracket,
    /// The token sequence was exhausted while an object or array was still
    /// open.
    MissingClosingBracket,
    /// A string literal was never closed before end-of-input.
    MismatchQuote,
    /// A comma immediately follows an opening brace, or a comma is not
    /// followed by the key of a further pair.
    TrailingComma,
    /// The input ended in the middle of a `true`, `false` or `null` keyword.
    ParsingError,
    /// A numeric literal does not match the floating-point literal grammar.
    InvalidNumber,
    /// A value was grammatically required but no token remains.
    MissingValue,
    /// Tokens remain after the top-level value was fully parsed.
    ExtraValue,
    /// A string value contains a raw line-break or tab character.
    LineBreakInLiteral,
}

/// The mathematical shape of an [`Error`].
pub enum ErrorModel {
    SyntaxError(TokenModel, u32),
    UnrecognizedToken(char, int),
    MustBeginWithBracket,
    MissingClosingBracket,
    MismatchQuote,
    TrailingComma,
    ParsingError,
    InvalidNumber,
    MissingValue,
    ExtraValue,
    LineBreakInLiteral,
}

impl View for Error {
    type V = ErrorModel;

    open spec fn view(&self) -> ErrorModel {
        match self {
            Error::SyntaxError(t, m) => ErrorModel::SyntaxError(t@, *m),
            Error::UnrecognizedToken(c, i) => ErrorModel::UnrecognizedToken(*c, *i as int),
            Error::MustBeginWithBracket => ErrorModel::MustBeginWithBracket,
            Error::MissingClosingBracket => ErrorModel::MissingClosingBracket,
            Error::MismatchQuote => ErrorModel::MismatchQuote,
            Error::TrailingComma => ErrorModel::TrailingComma,
            Error::ParsingError => ErrorModel::ParsingError,
            Error::InvalidNumber => ErrorModel::InvalidNumber,
            Error::MissingValue => ErrorModel::MissingValue,
            Error::ExtraValue => ErrorModel::ExtraValue,
            Error::LineBreakInLiteral => ErrorModel::LineBreakInLiteral,
        }
    }
}

/// The short name of a token's kind, used in diagnostics.
pub open spec fn spec_token_name(t: TokenModel) -> Seq<char> {
    match t {
        TokenModel::OpenBrace => "'{'"@,
        TokenModel::CloseBrace => "'}'"@,
        TokenModel::OpenBracket => "'['"@,
        TokenModel::CloseBracket => "']'"@,
        TokenModel::Comma => "','"@,
        TokenModel::Colon => "':'"@,
        TokenModel::StrLit(_) => "string literal"@,
        TokenModel::True => "'true'"@,
        TokenModel::False => "'false'"@,
        TokenModel::Null => "'null'"@,
        TokenModel::Number(_) => "number"@,
    }
}

/// The human-readable message of an error, by its model.
pub open spec fn spec_message(e: ErrorModel) -> Seq<char> {
    match e {
        ErrorModel::UnrecognizedToken(c, _) => "Error: "@.push(c) + " is an invalid token."@,
        ErrorModel::MustBeginWithBracket => "Error: the json object must begin with '{' or '['."@,
        ErrorModel::MissingClosingBracket => "Error: a closing bracket is missing."@,
        ErrorModel::MismatchQuote => "Error: a closing quote is missing."@,
        ErrorModel::TrailingComma => "Error: the object seems to have a trailing comma."@,
        ErrorModel::InvalidNumber => "Error: unable to parse number."@,
        ErrorModel::SyntaxError(t, _) => "Error: invalid syntax on token "@ + spec_token_name(t)
            + "."@,
        ErrorModel::ParsingError => "Error: parsing error."@,
        ErrorModel::MissingValue => "Error: missing value after key definition."@,
        ErrorModel::ExtraValue => "Error: extra token found after object."@,
        ErrorModel::LineBreakInLiteral => "Error: a string value contains a line break or tab."@,
    }
}

impl Token {
    /// The short name of this token's kind.
    pub fn name(&self) -> (r: String)
        ensures
            r@ == spec_token_name(self@),
    {
        match self {
            Token::OpenBrace => String::from_str("'{'"),
            Token::CloseBrace => String::from_str("'}'"),
            Token::OpenBracket => String::from_str("'['"),
            Token::CloseBracket => String::from_str("']'"),
            Token::Comma => String::from_str("','"),
            Token::Colon => String::from_str("':'"),
            Token::StrLit(_) => String::from_str("string literal"),
            Token::True => String::from_str("'true'"),
            Token::False => String::from_str("'false'"),
            Token::Null => String::from_str("'null'"),
            Token::Number(_) => String::from_str("number"),
        }
    }
}

impl Error {
    /// The human-readable message of this error.
    pub fn message(&self) -> (r: String)
        ensures
            r@ == spec_message(self@),
    {
        match self {
            Error::UnrecognizedToken(c, _) => {
                let mut s = String::from_str("Error: ");
                push_char(&mut s, *c);
                s.append(" is an invalid token.");
                s
            },
            Error::MustBeginWithBracket => String::from_str(
                "Error: the json object must begin with '{' or '['.",
            ),
            Error::MissingClosingBracket => String::from_str(
                "Error: a closing bracket is missing.",
            ),
            Error::MismatchQuote => String::from_str("Error: a closing quote is missing."),
            Error::TrailingComma => String::from_str(
                "Error: the object seems to have a trailing comma.",
            ),
            Error::InvalidNumber => String::from_str("Error: unable to parse number."),
            Error::SyntaxError(t, _) => {
                let mut s = String::from_str("Error: invalid syntax on token ");
                let name = t.name();
                s.append(name.as_str());
                s.append(".");
                s
            },
            Error::ParsingError => String::from_str("Error: parsing error."),
            Error::MissingValue => String::from_str("Error: missing value after key definition."),
            Error::ExtraValue => String::from_str("Error: extra token found after object."),
            Error::LineBreakInLiteral => String::from_str(
                "Error: a string value contains a line break or tab.",
            ),
        }
    }
}

} // verus!
