//! Parsing of statements.

use vstd::prelude::*;

use crate::ast::statement::LetStatement;
use crate::lexer::punctuation::Punctuation;
use crate::lexer::{SpecLexerError, SpecToken};
use crate::parser::{FileParser, ParserError};
use crate::parser::item::{ident_token, punct_token};
use crate::parser::operator_expression::infix::{
    lemma_token_expression_shift, lemma_token_run_end, lemma_tree_of_tokens_shift, token_expression,
    token_expression_at, tree_of_tokens,
};

verus! {

broadcast use {crate::parser::FileParser::lemma_advanced_trans, crate::lexer::Lexer::lemma_token_now};

/// How many tokens the type of a let statement takes whose name is the `j`-th token of `p`:
/// two for `: TYPE`, none without a type.
pub open spec fn let_type_len(p: &FileParser, j: nat) -> nat {
    if p.tokens(j + 1) == punct_token(Punctuation::Colon) {
        2
    } else {
        0
    }
}

/// The `len` tokens of `p` from the `j`-th on are a let statement after its keyword: a name,
/// optionally `:` and a type name, optionally `=` and an expression as
/// [expression_at](crate::parser::expression::expression_at) has it, and `;`.
pub open spec fn let_tokens(p: &FileParser, j: nat, len: nat) -> bool {
    let t = let_type_len(p, j);
    let v = j + 1 + t;
    &&& (p.tokens(j) matches Ok(SpecToken::Identifier(_)))
    &&& (t == 2 ==> (p.tokens(j + 2) matches Ok(SpecToken::Identifier(_))))
    &&& if p.tokens(v) == punct_token(Punctuation::Assign) {
        &&& len >= t + 3
        &&& crate::parser::expression::expression_at(p, v + 1, (len - t - 3) as nat)
        &&& p.tokens(j + (len - 1) as nat) == punct_token(Punctuation::Semicolon)
    } else {
        &&& len == t + 2
        &&& p.tokens(v) == punct_token(Punctuation::Semicolon)
    }
}

/// The value of `s` is what such a let statement assigns: the expression read from its tokens,
/// or none without `=`.
pub open spec fn let_value_of_tokens(p: &FileParser, j: nat, len: nat, s: LetStatement) -> bool {
    let t = let_type_len(p, j);
    let v = j + 1 + t;
    if p.tokens(v) == punct_token(Punctuation::Assign) {
        s.value matches Some(e) && crate::parser::expression::expression_of(p, v + 1, (len - t - 3) as nat, *e)
    } else {
        s.value is None
    }
}



/// A let statement read from a parser `j` tokens further on, from its `i`-th token, is one read
/// from the `j + i`-th token on.
pub proof fn lemma_let_shift(a: &FileParser, b: &FileParser, j: nat, i: nat, len: nat)
    requires
        FileParser::skipped(a, b, j),
    ensures
        let_type_len(b, i) == let_type_len(a, j + i),
        let_tokens(b, i, len) == let_tokens(a, j + i, len),
        forall|s: LetStatement| #[trigger] let_value_of_tokens(b, i, len, s) == let_value_of_tokens(a, j + i, len, s),
{
    assert(b.tokens(i) == a.tokens(i + j));
    assert(b.tokens(i + 1) == a.tokens(i + 1 + j));
    assert(b.tokens(i + 2) == a.tokens(i + 2 + j));
    let t = let_type_len(a, j + i);
    let v: nat = i + 1 + t;
    assert(b.tokens(v) == a.tokens(v + j));
    assert(b.tokens(i + (len - 1) as nat) == a.tokens(i + (len - 1) as nat + j));
    crate::parser::expression::lemma_call_shift(a, b, j, v + 1, (len - t - 3) as nat);
    assert(j + (v + 1) == (j + i + 1 + t) + 1);
}


/// Such a let statement from the `j`-th token on has one length.
pub proof fn lemma_let_unique(p: &FileParser, j: nat, l1: nat, l2: nat)
    requires
        let_tokens(p, j, l1),
        let_tokens(p, j, l2),
    ensures
        l1 == l2,
{
    let t = let_type_len(p, j);
    let v: nat = j + 1 + t;
    if p.tokens(v) == punct_token(Punctuation::Assign) {
        crate::parser::expression::lemma_expression_facts(p, v + 1, (l1 - t - 3) as nat, (l2 - t - 3) as nat, 0);
    }
}

impl FileParser {
    /// Parses a let statement: `let NAME: TYPE = VALUE;`, the type and the value being optional.
    /// Keyword `let` is expected to be consumed beforehand. A statement as [let_tokens] has it is
    /// read whole.
    pub fn parse_let(&mut self) -> (r: Result<LetStatement, ParserError>)
        requires
            old(self).wf(),
        ensures
            FileParser::advanced(old(self), final(self)),
            FileParser::reported(old(self), final(self), r),
            FileParser::consumed(old(self), final(self), r),
            r matches Ok(s) ==> {
                let e: nat = if s.type_ is Some { 3 } else { 1 };
                &&& old(self).tokens(0) == ident_token(s.name@)
                &&& (old(self).tokens(1) == punct_token(Punctuation::Colon) <==> s.type_ is Some)
                &&& (s.type_ matches Some(t) ==> old(self).tokens(2) == ident_token(t@))
                &&& (old(self).tokens(e) == punct_token(Punctuation::Assign) <==> s.value is Some)
            },
            forall|len: nat|
                #[trigger] let_tokens(old(self), 0, len) ==> (r matches Ok(s) && let_value_of_tokens(
                    old(self),
                    0,
                    len,
                    s,
                )) && FileParser::skipped(old(self), final(self), len)
                    && final(self).spec_pending() == old(self).spec_pending(),
        decreases old(self).lexer.remaining(), 0int,
    {
        let ghost simple = exists|l: nat| #[trigger] let_tokens(old(self), 0, l);
        let ghost len: nat = choose|l: nat| #[trigger] let_tokens(old(self), 0, l);
        let ghost t = let_type_len(old(self), 0);
        let ghost v: nat = 1 + t;
        let ghost s0 = *self;
        let name = self.expect_identifier()?;
        let ghost s1 = *self;
        let mut statement = LetStatement { name, type_: None, value: None };
        let ghost mut e: nat = 1;
        if self.eat_punctuation(Punctuation::Colon)? {
            let ghost s2 = *self;
            statement.type_ = Some(self.expect_identifier()?);
            proof {
                FileParser::lemma_skipped_trans(&s0, &s1, &s2, 1, 1);
                FileParser::lemma_skipped_trans(&s0, &s2, self, 2, 1);
                e = 3;
            }
        } else {
            proof {
                FileParser::lemma_skipped_trans(&s0, &s1, self, 1, 0);
            }
        }
        let ghost s3 = *self;
        let assign = self.eat_punctuation(Punctuation::Assign)?;
        let ghost s4 = *self;
        let ghost n: nat = (len - t - 3) as nat;
        if assign {
            proof {
                if simple {
                    FileParser::lemma_skipped_trans(&s0, &s3, &s4, v, 1);
                    crate::parser::expression::lemma_call_shift(&s0, &s4, v + 1, 0, n);
                }
            }
            let value = self.parse_expr()?;
            proof {
                if simple {
                    crate::parser::expression::lemma_call_shift(&s0, &s4, v + 1, 0, n);
                    assert(crate::parser::expression::expression_of(&s4, 0, n, value));
                    FileParser::lemma_skipped_trans(&s0, &s4, self, v + 1, n);
                }
            }
            statement.value = Some(Box::new(value));
        } else {
            proof {
                if simple {
                    FileParser::lemma_skipped_trans(&s0, &s3, self, v, 0);
                }
            }
        }
        let ghost s5 = *self;
        self.expect_punctuation(Punctuation::Semicolon)?;
        proof {
            if simple {
                if assign {
                    assert(s5.tokens(0) == s0.tokens(0 + (v + 1 + n)));
                    FileParser::lemma_skipped_trans(&s0, &s5, self, v + 1 + n, 1);
                    assert(v + 1 + n + 1 == len);
                } else {
                    FileParser::lemma_skipped_trans(&s0, &s5, self, v, 1);
                }
                assert forall|l: nat| #[trigger] let_tokens(old(self), 0, l) implies l == len by {
                    if assign {
                        let m: nat = (l - t - 3) as nat;
                        crate::parser::expression::lemma_expression_facts(&s0, v + 1, n, m, 0);
                    }
                }
            }
        }
        Ok(statement)
    }
}

} // verus!
