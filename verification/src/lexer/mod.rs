//! Lexical analysis: turns a stream of characters into tokens.

pub mod keyword;
pub mod punctuation;
pub mod operator;
pub mod number;
pub mod grammar;
pub mod reader;
pub mod util;

use vstd::prelude::*;

pub use self::reader::Lexer;
use self::keyword::Keyword;
use self::number::{Number, SpecNumber};
use self::punctuation::{NotPunctuation, Punctuation};

verus! {

/// A token of the language.
#[derive(Debug, Clone, PartialEq, Eq)]
pub enum Token {
    Punctuation(Punctuation),
    Number(Number),
    String(String),
    Keyword(Keyword),
    Identifier(String),
    Eof,
}

/// A token as plain values.
pub enum SpecToken {
    Punctuation(Punctuation),
    Number(SpecNumber),
    String(Seq<char>),
    Keyword(Keyword),
    Identifier(Seq<char>),
    Eof,
}

impl View for Token {
    type V = SpecToken;

    open spec fn view(&self) -> SpecToken {
        match self {
            Token::Punctuation(p) => SpecToken::Punctuation(*p),
            Token::Number(n) => SpecToken::Number(n@),
            Token::String(s) => SpecToken::String(s@),
            Token::Keyword(k) => SpecToken::Keyword(*k),
            Token::Identifier(s) => SpecToken::Identifier(s@),
            Token::Eof => SpecToken::Eof,
        }
    }
}

/// Why a token could not be read.
#[derive(Debug, Clone, PartialEq, Eq)]
pub enum LexerError {
    UnexpectedEOF,
    UnterminatedString,
    InvalidIdentifier,
    InvalidEscape,
    InvalidNumber,
    UnknownPunctuation(NotPunctuation),
    UnexpectedCharacter(char),
}

/// A lexer error as plain values.
pub enum SpecLexerError {
    UnexpectedEOF,
    UnterminatedString,
    InvalidIdentifier,
    InvalidEscape,
    InvalidNumber,
    UnknownPunctuation(Seq<char>),
    UnexpectedCharacter(char),
}

impl View for LexerError {
    type V = SpecLexerError;

    open spec fn view(&self) -> SpecLexerError {
        match self {
            LexerError::UnexpectedEOF => SpecLexerError::UnexpectedEOF,
            LexerError::UnterminatedString => SpecLexerError::UnterminatedString,
            LexerError::InvalidIdentifier => SpecLexerError::InvalidIdentifier,
            LexerError::InvalidEscape => SpecLexerError::InvalidEscape,
            LexerError::InvalidNumber => SpecLexerError::InvalidNumber,
            LexerError::UnknownPunctuation(p) => SpecLexerError::UnknownPunctuation(p.0@),
            LexerError::UnexpectedCharacter(c) => SpecLexerError::UnexpectedCharacter(*c),
        }
    }
}

} // verus!

verus! {

impl Number {
    /// A copy of the literal.
    pub fn duplicate(&self) -> (r: Number)
        ensures
            r@ == self@,
    {
        Number {
            integer: self.integer.clone(),
            fraction: match &self.fraction {
                Some(f) => Some(f.clone()),
                None => None,
            },
            base: self.base,
        }
    }
}

impl Token {
    /// A copy of the token.
    pub fn duplicate(&self) -> (r: Token)
        ensures
            r@ == self@,
    {
        match self {
            Token::Punctuation(p) => Token::Punctuation(*p),
            Token::Number(n) => Token::Number(n.duplicate()),
            Token::String(s) => Token::String(s.clone()),
            Token::Keyword(k) => Token::Keyword(*k),
            Token::Identifier(s) => Token::Identifier(s.clone()),
            Token::Eof => Token::Eof,
        }
    }
}

/// Result of reading a token, as plain values.
pub open spec fn spec_result(r: Result<Token, LexerError>) -> Result<SpecToken, SpecLexerError> {
    match r {
        Ok(t) => Ok(t@),
        Err(e) => Err(e@),
    }
}

impl LexerError {
    /// Message of the error.
    pub open spec fn spec_message(e: SpecLexerError) -> Seq<char> {
        match e {
            SpecLexerError::UnexpectedEOF => "unexpected EOF"@,
            SpecLexerError::UnterminatedString => "string literal wasn't terminated"@,
            SpecLexerError::InvalidIdentifier => "identifier must contain only ascii alphanumeric and underscore characters"@,
            SpecLexerError::InvalidEscape => "invalid escape sentence"@,
            SpecLexerError::InvalidNumber => "invalid number"@,
            SpecLexerError::UnknownPunctuation(_) => "unknown punctuation"@,
            SpecLexerError::UnexpectedCharacter(c) => "character `"@ + seq![c] + "` wasn't expected"@,
        }
    }

    /// Message of the error, as its `Display` shows it.
    pub fn to_string(&self) -> (r: String)
        ensures
            r@ == Self::spec_message(self@),
    {
        match self {
            LexerError::UnexpectedEOF => "unexpected EOF".to_owned(),
            LexerError::UnterminatedString => "string literal wasn't terminated".to_owned(),
            LexerError::InvalidIdentifier => "identifier must contain only ascii alphanumeric and underscore characters".to_owned(),
            LexerError::InvalidEscape => "invalid escape sentence".to_owned(),
            LexerError::InvalidNumber => "invalid number".to_owned(),
            LexerError::UnknownPunctuation(_) => "unknown punctuation".to_owned(),
            LexerError::UnexpectedCharacter(c) => {
                let mut r = "character `".to_owned();
                crate::text::push_char(&mut r, *c);
                r.append("` wasn't expected");
                r
            },
        }
    }
}

} // verus!
