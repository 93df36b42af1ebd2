//! Lexical tokens produced by the tokenizer and consumed by the parser.

use vstd::prelude::*;

verus! {

/// A single lexical unit of JSON text.
///
/// A string literal owns its decoded content (the characters between the
/// quotes, with each escape pair kept literally). A numeric literal owns the
/// scanned literal text; it is only produced after the text has been checked
/// against the floating-point literal grammar, so a consumer may decode it
/// with an ordinary float parser without a further validity check.
#[derive(Debug, PartialEq)]
pub enum Token {
    /// `{`
    OpenBrace,
    /// `}`
    CloseBrace,
    /// `[`
    OpenBracket,
    /// `]`
    CloseBracket,
    /// `,`
    Comma,
    /// `:`
    Colon,
    /// A quoted string literal, holding its decoded content.
    StrLit(String),
    /// The keyword `true`.
    True,
    /// The keyword `false`.
    False,
    /// The keyword `null`.
    Null,
    /// A numeric literal, holding its text.
    Number(String),
}

/// The mathematical shape of a [`Token`]: the same tagged union with string
/// payloads abstracted to character sequences.
pub enum TokenModel {
    OpenBrace,
    CloseBrace,
    OpenBracket,
    CloseBracket,
    Comma,
    Colon,
    StrLit(Seq<char>),
    True,
    False,
    Null,
    Number(Seq<char>),
}

impl Clone for Token {
    /// A copy with the same model.
    fn clone(&self) -> (r: Token)
        ensures
            r@ == self@,
    {
        match self {
            Token::OpenBrace => Token::OpenBrace,
            Token::CloseBrace => Token::CloseBrace,
            Token::OpenBracket => Token::OpenBracket,
            Token::CloseBracket => Token::CloseBracket,
            Token::Comma => Token::Comma,
            Token::Colon => Token::Colon,
            Token::StrLit(s) => Token::StrLit(s.clone()),
            Token::True => Token::True,
            Token::False => Token::False,
            Token::Null => Token::Null,
            Token::Number(s) => Token::Number(s.clone()),
        }
    }
}

impl View for Token {
    type V = TokenModel;

    open spec fn view(&self) -> TokenModel {
        match self {
            Token::OpenBrace => TokenModel::OpenBrace,
            Token::CloseBrace => TokenModel::CloseBrace,
            Token::OpenBracket => TokenModel::OpenBracket,
            Token::CloseBracket => TokenModel::CloseBracket,
            Token::Comma => TokenModel::Comma,
            Token::Colon => TokenModel::Colon,
            Token::StrLit(s) => TokenModel::StrLit(s@),
            Token::True => TokenModel::True,
            Token::False => TokenModel::False,
            Token::Null => TokenModel::Null,
            Token::Number(s) => TokenModel::Number(s@),
        }
    }
}

impl DeepView for Token {
    type V = TokenModel;

    open spec fn deep_view(&self) -> TokenModel {
        self.view()
    }
}

} // verus!
