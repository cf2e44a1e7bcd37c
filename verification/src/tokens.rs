//! Lexical tokens, as the tokenizer hands them over, together with their
//! mathematical models.

use vstd::prelude::*;

verus! {

/// The numeric payload of a number-like token: an integer, or a floating
/// value. A floating value is identified only by kind here; every numeric
/// token keeps its verbatim textual representation beside this payload,
/// and the tree-construction stage never computes with the number itself.
#[derive(Clone, Copy, PartialEq, Eq, Debug)]
pub enum NumericValue {
    Integer(i64),
    Float,
}

/// One lexical token. `EOF` marks the end of the input; an exhausted
/// token source behaves as if it produced `EOF` forever.
#[derive(Debug)]
pub enum Token {
    Ident(String),
    AtKeyword(String),
    Hash(String),
    String(String),
    URL(String),
    Delim(char),
    /// value, verbatim representation
    Number(NumericValue, String),
    /// value, verbatim representation
    Percentage(NumericValue, String),
    /// value, verbatim representation, unit
    Dimension(NumericValue, String, String),
    /// start and end code points
    UnicodeRange(char, char),
    EmptyUnicodeRange,
    WhiteSpace,
    Comment,
    CDO,
    CDC,
    Colon,
    Semicolon,
    /// the function's name; its open parenthesis is part of this token
    Function(String),
    OpenBracket,
    OpenParen,
    OpenBrace,
    CloseBracket,
    CloseParen,
    CloseBrace,
    BadString,
    BadURL,
    EOF,
}

/// The mathematical model of a token: the same variants, with every
/// string abstracted to its sequence of characters.
#[verifier::ext_equal]
pub enum SpecToken {
    Ident(Seq<char>),
    AtKeyword(Seq<char>),
    Hash(Seq<char>),
    String(Seq<char>),
    URL(Seq<char>),
    Delim(char),
    Number(NumericValue, Seq<char>),
    Percentage(NumericValue, Seq<char>),
    Dimension(NumericValue, Seq<char>, Seq<char>),
    UnicodeRange(char, char),
    EmptyUnicodeRange,
    WhiteSpace,
    Comment,
    CDO,
    CDC,
    Colon,
    Semicolon,
    Function(Seq<char>),
    OpenBracket,
    OpenParen,
    OpenBrace,
    CloseBracket,
    CloseParen,
    CloseBrace,
    BadString,
    BadURL,
    EOF,
}

impl View for Token {
    type V = SpecToken;

    open spec fn view(&self) -> SpecToken {
        match self {
            Token::Ident(s) => SpecToken::Ident(s@),
            Token::AtKeyword(s) => SpecToken::AtKeyword(s@),
            Token::Hash(s) => SpecToken::Hash(s@),
            Token::String(s) => SpecToken::String(s@),
            Token::URL(s) => SpecToken::URL(s@),
            Token::Delim(c) => SpecToken::Delim(*c),
            Token::Number(v, r) => SpecToken::Number(*v, r@),
            Token::Percentage(v, r) => SpecToken::Percentage(*v, r@),
            Token::Dimension(v, r, u) => SpecToken::Dimension(*v, r@, u@),
            Token::UnicodeRange(a, b) => SpecToken::UnicodeRange(*a, *b),
            Token::EmptyUnicodeRange => SpecToken::EmptyUnicodeRange,
            Token::WhiteSpace => SpecToken::WhiteSpace,
            Token::Comment => SpecToken::Comment,
            Token::CDO => SpecToken::CDO,
            Token::CDC => SpecToken::CDC,
            Token::Colon => SpecToken::Colon,
            Token::Semicolon => SpecToken::Semicolon,
            Token::Function(s) => SpecToken::Function(s@),
            Token::OpenBracket => SpecToken::OpenBracket,
            Token::OpenParen => SpecToken::OpenParen,
            Token::OpenBrace => SpecToken::OpenBrace,
            Token::CloseBracket => SpecToken::CloseBracket,
            Token::CloseParen => SpecToken::CloseParen,
            Token::CloseBrace => SpecToken::CloseBrace,
            Token::BadString => SpecToken::BadString,
            Token::BadURL => SpecToken::BadURL,
            Token::EOF => SpecToken::EOF,
        }
    }
}

/// What the token source yields for one pull: a token, optionally paired
/// with a lexical error that was noticed while producing it.
pub struct TokenResult {
    pub token: Token,
    pub error: Option<String>,
}

} // verus!
