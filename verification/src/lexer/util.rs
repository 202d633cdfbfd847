//! Utility methods over the lexer's basic iteration.

use vstd::prelude::*;

use crate::ast::Identifier;
use crate::error::ExpectedToken;
use crate::error::library::{spec_token_mismatch, token_mismatch};
use crate::lexer::keyword::Keyword;
use crate::lexer::operator::{AssignOp, BinaryOp, UnaryOp};
use crate::lexer::punctuation::Punctuation;
use crate::lexer::{Lexer, LexerError, SpecToken, Token, spec_result};
use crate::lexer::grammar::read_token;
use crate::parser::ParserError;

verus! {

impl Lexer {
    /// `b` is `a` after the next token was taken: nothing is read ahead, and the input moved past
    /// the token.
    pub open spec fn took(a: &Lexer, b: &Lexer) -> bool {
        &&& Lexer::continues(a, b)
        &&& b.spec_current() is None
        &&& b.spec_rest() == a.spec_rest().skip(a.lookahead().1 as int)
        &&& (a.lookahead().0 is Ok ==> b.spec_errors() == a.spec_errors())
        &&& (a.lookahead().0 is Err ==> b.spec_errors().len() == a.spec_errors().len() + 1)
    }

    /// `b` is `a` after the next token was looked at: a token that was read is held ahead, and an
    /// error that reading it gave was reported.
    pub open spec fn peeked(a: &Lexer, b: &Lexer) -> bool {
        &&& Lexer::continues(a, b)
        &&& b.spec_rest() == a.spec_rest().skip(a.lookahead().1 as int)
        &&& (a.lookahead().0 matches Ok(t) ==> b.spec_current() == Some(t) && b.spec_errors()
            == a.spec_errors())
        &&& (a.lookahead().0 is Err ==> b.spec_current() is None && b.spec_errors().len()
            == a.spec_errors().len() + 1)
    }

    /// How much reading is left: each unread character counts twice, and a token held ahead
    /// that is not the end of input counts once. Taking a token other than the end of input makes
    /// it smaller; nothing makes it larger.
    pub open spec fn remaining(&self) -> nat {
        2 * self.spec_rest().len() + match self.spec_current() {
            Some(SpecToken::Eof) => 0nat,
            Some(_) => 1nat,
            None => 0nat,
        }
    }

    /// Taking a token never makes the remaining reading larger, and taking one other than the end
    /// of input makes it smaller.
    pub proof fn lemma_took_remaining(a: &Lexer, b: &Lexer)
        requires
            b.spec_current() is None,
            b.spec_rest() == a.spec_rest().skip(a.lookahead().1 as int),
        ensures
            b.remaining() <= a.remaining(),
            a.lookahead().0 matches Ok(t) && t != SpecToken::Eof ==> b.remaining() < a.remaining(),
    {
        crate::lexer::grammar::lemma_read_token_progress(a.spec_rest());
    }

    /// The `k`-th token from now (counting from zero), as reading would give it: a token held
    /// ahead comes first, then tokens read from the unread characters.
    pub open spec fn token_at(rest: Seq<char>, current: Option<SpecToken>, k: nat) -> Result<
        SpecToken,
        crate::lexer::SpecLexerError,
    >
        decreases k,
    {
        let (t, n) = match current {
            Some(t) => (Ok(t), 0nat),
            None => read_token(rest),
        };
        if k == 0 {
            t
        } else {
            Lexer::token_at(rest.skip(n as int), None, (k - 1) as nat)
        }
    }

    /// The `k`-th token from now.
    pub open spec fn tokens(&self, k: nat) -> Result<SpecToken, crate::lexer::SpecLexerError> {
        Lexer::token_at(self.spec_rest(), self.spec_current(), k)
    }

    /// The token now is the next one reading gives.
    pub broadcast proof fn lemma_token_now(l: &Lexer)
        ensures
            #[trigger] l.tokens(0) == l.lookahead().0,
    {
    }

    /// After a token was taken, the tokens are those after it.
    pub proof fn lemma_took_tokens(a: &Lexer, b: &Lexer)
        requires
            b.spec_current() is None,
            b.spec_rest() == a.spec_rest().skip(a.lookahead().1 as int),
        ensures
            forall|k: nat| #[trigger] b.tokens(k) == a.tokens(k + 1),
    {
        assert forall|k: nat| #[trigger] b.tokens(k) == a.tokens(k + 1) by {
            assert((k + 1 - 1) as nat == k);
        }
    }

    /// After a token was looked at, the tokens are the same.
    pub proof fn lemma_peeked_tokens(a: &Lexer, b: &Lexer)
        requires
            Lexer::peeked(a, b),
            a.lookahead().0 is Ok,
        ensures
            forall|k: nat| #[trigger] b.tokens(k) == a.tokens(k),
    {
        assert forall|k: nat| #[trigger] b.tokens(k) == a.tokens(k) by {
            if k > 0 {
                assert(b.spec_rest().skip(0) =~= b.spec_rest());
            }
        }
    }

    /// Looking at a token never makes the remaining reading larger.
    pub proof fn lemma_peeked_remaining(a: &Lexer, b: &Lexer)
        requires
            Lexer::peeked(a, b),
        ensures
            b.remaining() <= a.remaining(),
    {
        crate::lexer::grammar::lemma_read_token_progress(a.spec_rest());
    }

    /// Whether the next token is the given punctuation, without advancing.
    pub fn peek_punctuation(&mut self, punc: Punctuation) -> (r: bool)
        requires
            old(self).wf(),
        ensures
            Lexer::peeked(old(self), final(self)),
            r == (old(self).lookahead().0 == Ok::<SpecToken, crate::lexer::SpecLexerError>(
                SpecToken::Punctuation(punc),
            )),
    {
        match self.peek() {
            Ok(Token::Punctuation(p)) => p == punc,
            _ => false,
        }
    }

    /// Consumes the next token if it is the given punctuation.
    ///
    /// Returns whether it was.
    pub fn consume_punctuation(&mut self, punc: Punctuation) -> (r: Result<bool, LexerError>)
        requires
            old(self).wf(),
        ensures
            match old(self).lookahead().0 {
                Ok(t) => if t == SpecToken::Punctuation(punc) {
                    r == Ok::<bool, LexerError>(true) && Lexer::took(old(self), final(self))
                } else {
                    r == Ok::<bool, LexerError>(false) && Lexer::peeked(old(self), final(self))
                },
                Err(e) => r matches Err(x) && x@ == e && Lexer::peeked(old(self), final(self)),
            },
    {
        match self.peek() {
            Ok(Token::Punctuation(p)) => {
                if p == punc {
                    let ghost mid = *self;
                    self.discard();
                    proof {
                        Lexer::lemma_continues_refl(&mid);
                        Lexer::lemma_continues_trans(old(self), &mid, self);
                    }
                    Ok(true)
                } else {
                    Ok(false)
                }
            },
            Ok(_) => Ok(false),
            Err(e) => Err(e),
        }
    }

    /// Consumes the next token if it is the given keyword.
    ///
    /// Returns whether it was.
    pub fn consume_keyword(&mut self, kw: Keyword) -> (r: Result<bool, LexerError>)
        requires
            old(self).wf(),
        ensures
            match old(self).lookahead().0 {
                Ok(t) => if t == SpecToken::Keyword(kw) {
                    r == Ok::<bool, LexerError>(true) && Lexer::took(old(self), final(self))
                } else {
                    r == Ok::<bool, LexerError>(false) && Lexer::peeked(old(self), final(self))
                },
                Err(e) => r matches Err(x) && x@ == e && Lexer::peeked(old(self), final(self)),
            },
    {
        match self.peek() {
            Ok(Token::Keyword(k)) => {
                if k == kw {
                    let ghost mid = *self;
                    self.discard();
                    proof {
                        Lexer::lemma_continues_refl(&mid);
                        Lexer::lemma_continues_trans(old(self), &mid, self);
                    }
                    Ok(true)
                } else {
                    Ok(false)
                }
            },
            Ok(_) => Ok(false),
            Err(e) => Err(e),
        }
    }

    /// Consumes the next token if it is an identifier, and gives the identifier.
    pub fn consume_identifier(&mut self) -> (r: Result<Option<Identifier>, LexerError>)
        requires
            old(self).wf(),
        ensures
            match old(self).lookahead().0 {
                Ok(SpecToken::Identifier(name)) => r matches Ok(Some(id)) && id@ == name
                    && Lexer::took(old(self), final(self)),
                Ok(_) => r matches Ok(None) && Lexer::peeked(old(self), final(self)),
                Err(e) => r matches Err(x) && x@ == e && Lexer::peeked(old(self), final(self)),
            },
    {
        match self.peek() {
            Ok(Token::Identifier(ident)) => {
                let ghost mid = *self;
                self.discard();
                proof {
                    Lexer::lemma_continues_refl(&mid);
                    Lexer::lemma_continues_trans(old(self), &mid, self);
                }
                Ok(Some(Identifier(ident)))
            },
            Ok(_) => Ok(None),
            Err(e) => Err(e),
        }
    }

    /// Consumes the next token if it denotes a unary operator, and gives the operator.
    pub fn consume_unary_operator(&mut self) -> (r: Result<Option<UnaryOp>, LexerError>)
        requires
            old(self).wf(),
        ensures
            match old(self).lookahead().0 {
                Ok(SpecToken::Punctuation(p)) => if exists|op: UnaryOp| op.spec_punctuation() == p {
                    r matches Ok(Some(op)) && op.spec_punctuation() == p && Lexer::took(
                        old(self),
                        final(self),
                    )
                } else {
                    r matches Ok(None) && Lexer::peeked(old(self), final(self))
                },
                Ok(_) => r matches Ok(None) && Lexer::peeked(old(self), final(self)),
                Err(e) => r matches Err(x) && x@ == e && Lexer::peeked(old(self), final(self)),
            },
    {
        match self.peek() {
            Ok(Token::Punctuation(punc)) => match UnaryOp::try_from(punc) {
                Ok(op) => {
                    let ghost mid = *self;
                    self.discard();
                    proof {
                        Lexer::lemma_continues_refl(&mid);
                        Lexer::lemma_continues_trans(old(self), &mid, self);
                    }
                    Ok(Some(op))
                },
                Err(_) => Ok(None),
            },
            Ok(_) => Ok(None),
            Err(e) => Err(e),
        }
    }

    /// Consumes the next token if it denotes a binary operator, and gives the operator.
    pub fn consume_binary_operator(&mut self) -> (r: Result<Option<BinaryOp>, LexerError>)
        requires
            old(self).wf(),
        ensures
            match old(self).lookahead().0 {
                Ok(SpecToken::Punctuation(p)) => if exists|op: BinaryOp| op.spec_punctuation() == p {
                    r matches Ok(Some(op)) && op.spec_punctuation() == p && Lexer::took(
                        old(self),
                        final(self),
                    )
                } else {
                    r matches Ok(None) && Lexer::peeked(old(self), final(self))
                },
                Ok(_) => r matches Ok(None) && Lexer::peeked(old(self), final(self)),
                Err(e) => r matches Err(x) && x@ == e && Lexer::peeked(old(self), final(self)),
            },
    {
        match self.peek() {
            Ok(Token::Punctuation(punc)) => match BinaryOp::try_from(punc) {
                Ok(op) => {
                    let ghost mid = *self;
                    self.discard();
                    proof {
                        Lexer::lemma_continues_refl(&mid);
                        Lexer::lemma_continues_trans(old(self), &mid, self);
                    }
                    Ok(Some(op))
                },
                Err(_) => Ok(None),
            },
            Ok(_) => Ok(None),
            Err(e) => Err(e),
        }
    }

    /// Consumes the next token if it denotes an assignment operator, and gives the operator.
    pub fn consume_assignment_operator(&mut self) -> (r: Result<Option<AssignOp>, LexerError>)
        requires
            old(self).wf(),
        ensures
            match old(self).lookahead().0 {
                Ok(SpecToken::Punctuation(p)) => if exists|op: AssignOp| op.spec_punctuation() == p {
                    r matches Ok(Some(op)) && op.spec_punctuation() == p && Lexer::took(
                        old(self),
                        final(self),
                    )
                } else {
                    r matches Ok(None) && Lexer::peeked(old(self), final(self))
                },
                Ok(_) => r matches Ok(None) && Lexer::peeked(old(self), final(self)),
                Err(e) => r matches Err(x) && x@ == e && Lexer::peeked(old(self), final(self)),
            },
    {
        match self.peek() {
            Ok(Token::Punctuation(punc)) => match AssignOp::try_from(punc) {
                Ok(op) => {
                    let ghost mid = *self;
                    self.discard();
                    proof {
                        Lexer::lemma_continues_refl(&mid);
                        Lexer::lemma_continues_trans(old(self), &mid, self);
                    }
                    Ok(Some(op))
                },
                Err(_) => Ok(None),
            },
            Ok(_) => Ok(None),
            Err(e) => Err(e),
        }
    }

    /// Reports that `found` was read where one of `expected` was expected.
    fn report_mismatch(&mut self, start: crate::input_stream::Location, expected: Vec<ExpectedToken>, found: &Token)
        requires
            old(self).wf(),
            expected@.len() > 0,
        ensures
            final(self).wf(),
            final(self).spec_input() == old(self).spec_input(),
            final(self).spec_current() == old(self).spec_current(),
            final(self).spec_context().metadata == old(self).spec_context().metadata,
            final(self).spec_context().error_reporter.spec_warnings() == old(self).spec_context().error_reporter.spec_warnings(),
            final(self).spec_errors().len() == old(self).spec_errors().len() + 1,
            final(self).spec_errors().subrange(0, old(self).spec_errors().len() as int) == old(self).spec_errors(),
            final(self).spec_errors().last().message@ == spec_token_mismatch(expected@, found@),
    {
        let message = token_mismatch(&expected, found);
        self.report_error(start, message);
    }

    /// Consumes the next token, which must be the given punctuation; reports an error otherwise.
    pub fn expect_punctuation(&mut self, expected: Punctuation) -> (r: Result<(), ParserError>)
        requires
            old(self).wf(),
        ensures
            Lexer::continues(old(self), final(self)),
            final(self).spec_current() is None,
            final(self).spec_rest() == old(self).spec_rest().skip(old(self).lookahead().1 as int),
            match old(self).lookahead().0 {
                Ok(t) => if t == SpecToken::Punctuation(expected) {
                    r is Ok && final(self).spec_errors() == old(self).spec_errors()
                } else {
                    r matches Err(ParserError::UnexpectedToken(found)) && found@ == t
                        && final(self).spec_errors().len() == old(self).spec_errors().len() + 1
                        && final(self).spec_errors().last().message@ == spec_token_mismatch(
                        seq![ExpectedToken::Punctuation(expected)],
                        t,
                    )
                },
                Err(e) => r matches Err(ParserError::LexerError(x)) && x@ == e
                    && final(self).spec_errors().len() == old(self).spec_errors().len() + 1,
            },
    {
        let start = self.token_location();
        let found = match self.next() {
            Ok(t) => t,
            Err(e) => {
                return Err(ParserError::LexerError(e));
            },
        };
        match found {
            Token::Punctuation(p) => {
                if p == expected {
                    return Ok(());
                }
            },
            _ => {},
        }
        let expected_tokens = vec![ExpectedToken::Punctuation(expected)];
        proof {
            assert(expected_tokens@ =~= seq![ExpectedToken::Punctuation(expected)]);
        }
        self.report_mismatch(start, expected_tokens, &found);
        Err(ParserError::UnexpectedToken(found))
    }

    /// Consumes the next token, which must be the given keyword; reports an error otherwise.
    pub fn expect_keyword(&mut self, keyword: Keyword) -> (r: Result<(), ParserError>)
        requires
            old(self).wf(),
        ensures
            Lexer::continues(old(self), final(self)),
            final(self).spec_current() is None,
            final(self).spec_rest() == old(self).spec_rest().skip(old(self).lookahead().1 as int),
            match old(self).lookahead().0 {
                Ok(t) => if t == SpecToken::Keyword(keyword) {
                    r is Ok && final(self).spec_errors() == old(self).spec_errors()
                } else {
                    r matches Err(ParserError::UnexpectedToken(found)) && found@ == t
                        && final(self).spec_errors().len() == old(self).spec_errors().len() + 1
                        && final(self).spec_errors().last().message@ == spec_token_mismatch(
                        seq![ExpectedToken::Keyword(keyword)],
                        t,
                    )
                },
                Err(e) => r matches Err(ParserError::LexerError(x)) && x@ == e
                    && final(self).spec_errors().len() == old(self).spec_errors().len() + 1,
            },
    {
        let start = self.token_location();
        let found = match self.next() {
            Ok(t) => t,
            Err(e) => {
                return Err(ParserError::LexerError(e));
            },
        };
        match found {
            Token::Keyword(k) => {
                if k == keyword {
                    return Ok(());
                }
            },
            _ => {},
        }
        let expected_tokens = vec![ExpectedToken::Keyword(keyword)];
        proof {
            assert(expected_tokens@ =~= seq![ExpectedToken::Keyword(keyword)]);
        }
        self.report_mismatch(start, expected_tokens, &found);
        Err(ParserError::UnexpectedToken(found))
    }

    /// Consumes the next token, which must be an identifier, and gives it; reports an error
    /// otherwise.
    pub fn expect_identifier(&mut self) -> (r: Result<Identifier, ParserError>)
        requires
            old(self).wf(),
        ensures
            Lexer::continues(old(self), final(self)),
            final(self).spec_current() is None,
            final(self).spec_rest() == old(self).spec_rest().skip(old(self).lookahead().1 as int),
            match old(self).lookahead().0 {
                Ok(SpecToken::Identifier(name)) => r matches Ok(id) && id@ == name
                    && final(self).spec_errors() == old(self).spec_errors(),
                Ok(t) => r matches Err(ParserError::UnexpectedToken(found)) && found@ == t
                    && final(self).spec_errors().len() == old(self).spec_errors().len() + 1
                    && final(self).spec_errors().last().message@ == spec_token_mismatch(
                    seq![ExpectedToken::Identifier],
                    t,
                ),
                Err(e) => r matches Err(ParserError::LexerError(x)) && x@ == e
                    && final(self).spec_errors().len() == old(self).spec_errors().len() + 1,
            },
    {
        let start = self.token_location();
        let found = match self.next() {
            Ok(t) => t,
            Err(e) => {
                return Err(ParserError::LexerError(e));
            },
        };
        match found {
            Token::Identifier(ident) => Ok(Identifier(ident)),
            _ => {
                let expected_tokens = vec![ExpectedToken::Identifier];
                proof {
                    assert(expected_tokens@ =~= seq![ExpectedToken::Identifier]);
                }
                self.report_mismatch(start, expected_tokens, &found);
                Err(ParserError::UnexpectedToken(found))
            },
        }
    }
}

} // verus!
