//! Kinds of tokens a parser may expect.

use vstd::prelude::*;

use crate::lexer::keyword::Keyword;
use crate::lexer::punctuation::Punctuation;
use crate::text::{push_char, push_str, string_of};

verus! {

/// Type of the token that was expected.
#[derive(Debug, Clone, Copy, PartialEq, Eq, Structural)]
pub enum ExpectedToken {
    Identifier,
    Keyword(Keyword),
    Punctuation(Punctuation),
}

impl ExpectedToken {
    /// How the expected token is named in messages.
    pub open spec fn spec_text(self) -> Seq<char> {
        match self {
            ExpectedToken::Identifier => seq!['i', 'd', 'e', 'n', 't', 'i', 'f', 'i', 'e', 'r'],
            ExpectedToken::Keyword(kw) => seq!['k', 'e', 'y', 'w', 'o', 'r', 'd', ' ', '`'] + kw.spec_text()
                + seq!['`'],
            ExpectedToken::Punctuation(p) => seq!['`'] + p.spec_text() + seq!['`'],
        }
    }

    pub fn from_keyword(kw: Keyword) -> (r: ExpectedToken)
        ensures
            r == ExpectedToken::Keyword(kw),
    {
        ExpectedToken::Keyword(kw)
    }

    pub fn from_punctuation(p: Punctuation) -> (r: ExpectedToken)
        ensures
            r == ExpectedToken::Punctuation(p),
    {
        ExpectedToken::Punctuation(p)
    }

    /// How the expected token is named in messages, as its `Display` shows it.
    pub fn to_string(&self) -> (r: String)
        ensures
            r@ == self.spec_text(),
    {
        match self {
            ExpectedToken::Identifier => string_of(
                &['i', 'd', 'e', 'n', 't', 'i', 'f', 'i', 'e', 'r'],
            ),
            ExpectedToken::Keyword(kw) => {
                let mut r = string_of(&['k', 'e', 'y', 'w', 'o', 'r', 'd', ' ', '`']);
                let k = kw.to_string();
                push_str(&mut r, k.as_str());
                push_char(&mut r, '`');
                proof {
                    assert(r@ =~= self.spec_text());
                }
                r
            },
            ExpectedToken::Punctuation(p) => {
                let mut r = string_of(&['`']);
                let t = p.to_string();
                push_str(&mut r, t.as_str());
                push_char(&mut r, '`');
                proof {
                    assert(r@ =~= self.spec_text());
                }
                r
            },
        }
    }
}

} // verus!
