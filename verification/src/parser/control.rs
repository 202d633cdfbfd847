//! Blocks, conditionals and loops that stand as statements of a block, or as its value.

use vstd::prelude::*;

use crate::ast::expression::Expression;
use crate::ast::statement::Statement;
use crate::lexer::keyword::Keyword;
use crate::lexer::punctuation::Punctuation;
use crate::lexer::{SpecLexerError, SpecToken};
use crate::parser::FileParser;
use crate::parser::expression::{
    after_block, block_end_tokens, block_of_tokens_at, block_tokens_at, expression_of, for_tokens_at,
    if_tokens_at, lens_sum, statement_of_tokens, statement_tokens, while_tokens_at, lemma_block_at_shift,
    lemma_block_end_shift, lemma_block_end_unique, lemma_block_unique_at, lemma_statement_shift,
    lemma_statement_unique,
};
use crate::parser::item::{ident_token, punct_token};
use crate::parser::operator_expression::infix::{
    ends_expression, lemma_tree_of_tokens_shift,
};

verus! {

/// The tokens an `if` takes from its keyword on, with a condition of `n` tokens, a block of
/// statements of the lengths `lens` and a value of `tail` tokens, and the `else` block if any.
pub open spec fn if_len(n: nat, lens: Seq<nat>, tail: nat, other: Option<(Seq<nat>, nat)>) -> nat {
    match other {
        None => after_block(n + 1, lens, tail),
        Some((l2, t2)) => after_block(after_block(n + 1, lens, tail) + 1, l2, t2),
    }
}

/// The `n` tokens of `p` from the `j`-th on are a block, an `if`, a `while` or a `for`, with its
/// parts as [block_tokens_at], [if_tokens_at], [while_tokens_at] and [for_tokens_at] have them.
#[verifier::opaque]
pub open spec fn control_tokens_at(p: &FileParser, j: nat, n: nat) -> bool {
    match p.tokens(j) {
        Ok(SpecToken::Keyword(Keyword::If)) => exists|
            m: nat,
            lens: Seq<nat>,
            tail: nat,
            other: Option<(Seq<nat>, nat)>,
        | #[trigger] if_tokens_at(p, j + 1, m, lens, tail, other) && n == if_len(m, lens, tail, other),
        Ok(SpecToken::Keyword(Keyword::While)) => exists|m: nat, lens: Seq<nat>, tail: nat|
            #[trigger] while_tokens_at(p, j + 1, m, lens, tail) && n == after_block(m + 1, lens, tail),
        Ok(SpecToken::Keyword(Keyword::For)) => exists|m: nat, lens: Seq<nat>, tail: nat|
            #[trigger] for_tokens_at(p, j + 1, m, lens, tail) && n == after_block(m + 3, lens, tail),
        Ok(SpecToken::Punctuation(Punctuation::LBrace)) => exists|lens: Seq<nat>, tail: nat|
            #[trigger] block_tokens_at(p, j + 1, lens, tail) && n == after_block(0, lens, tail),
        _ => false,
    }
}

/// The block, conditional or loop read from such tokens: its condition or iterable read as an
/// operator expression, and its blocks read from their tokens.
#[verifier::opaque]
pub open spec fn control_of_tokens(p: &FileParser, j: nat, n: nat, e: Expression) -> bool {
    match p.tokens(j) {
        Ok(SpecToken::Keyword(Keyword::If)) => exists|
            m: nat,
            lens: Seq<nat>,
            tail: nat,
            other: Option<(Seq<nat>, nat)>,
        |
            #[trigger] if_tokens_at(p, j + 1, m, lens, tail, other) && n == if_len(m, lens, tail, other) && (
            e matches Expression::If { condition, body, else_body } && crate::parser::expression::expression_of(p, j + 1, m, *condition)
                && block_of_tokens_at(p, j + m + 2, lens, tail, body) && match other {
                None => else_body is None,
                Some((l2, t2)) => else_body matches Some(b2) && block_of_tokens_at(
                    p,
                    j + after_block(m + 1, lens, tail) + 2,
                    l2,
                    t2,
                    b2,
                ),
            }),
        Ok(SpecToken::Keyword(Keyword::While)) => exists|m: nat, lens: Seq<nat>, tail: nat|
            #[trigger] while_tokens_at(p, j + 1, m, lens, tail) && n == after_block(m + 1, lens, tail) && (
            e matches Expression::While { condition, body } && crate::parser::expression::expression_of(p, j + 1, m, *condition)
                && block_of_tokens_at(p, j + m + 2, lens, tail, body)),
        Ok(SpecToken::Keyword(Keyword::For)) => exists|m: nat, lens: Seq<nat>, tail: nat|
            #[trigger] for_tokens_at(p, j + 1, m, lens, tail) && n == after_block(m + 3, lens, tail) && (
            e matches Expression::For { var, expr, body } && p.tokens(j + 1) == ident_token(var@)
                && crate::parser::expression::expression_of(p, j + 3, m, *expr) && block_of_tokens_at(p, j + m + 4, lens, tail, body)),
        Ok(SpecToken::Punctuation(Punctuation::LBrace)) => exists|lens: Seq<nat>, tail: nat|
            #[trigger] block_tokens_at(p, j + 1, lens, tail) && n == after_block(0, lens, tail) && (
            e matches Expression::Block(b) && block_of_tokens_at(p, j + 1, lens, tail, b)),
        _ => false,
    }
}

/// Such tokens, with a token after them that ends an operator expression.
pub open spec fn control_expression_at(p: &FileParser, j: nat, n: nat) -> bool {
    &&& control_tokens_at(p, j, n)
    &&& p.tokens(j + n) matches Ok(t) && ends_expression(t)
}

/// The `len` tokens of `p` from the `j`-th on are a block, conditional or loop as
/// [control_expression_at] has it, standing as a statement: with `;` after it, or with a token
/// after it other than `;` and `}`.
pub open spec fn control_statement_tokens(p: &FileParser, j: nat, len: nat) -> bool {
    ||| len >= 1 && control_expression_at(p, j, (len - 1) as nat) && p.tokens(j + (len - 1) as nat)
        == punct_token(Punctuation::Semicolon)
    ||| control_expression_at(p, j, len) && p.tokens(j + len) != punct_token(Punctuation::Semicolon)
        && p.tokens(j + len) != punct_token(Punctuation::RBrace)
}

/// The statement read from such tokens: the expression statement of what they hold.
pub open spec fn control_statement_of(p: &FileParser, j: nat, len: nat, st: Statement) -> bool {
    st matches Statement::ExprStmt(e) && if len >= 1 && control_expression_at(p, j, (len - 1) as nat)
        && p.tokens(j + (len - 1) as nat) == punct_token(Punctuation::Semicolon) {
        control_of_tokens(p, j, (len - 1) as nat, e)
    } else {
        control_of_tokens(p, j, len, e)
    }
}

/// The tokens of `p` from the `j`-th on end a block with a block, conditional or loop of `tail`
/// tokens as its value, and `}`.
pub open spec fn control_end_tokens(p: &FileParser, j: nat, tail: nat) -> bool {
    control_tokens_at(p, j, tail) && p.tokens(j + tail) == punct_token(Punctuation::RBrace)
}

/// Each shape of a block, conditional or loop read from a parser `j` tokens further on, from its
/// `i`-th token, is one read from the `j + i`-th token on.
proof fn lemma_shapes_shift(a: &FileParser, b: &FileParser, j: nat, i: nat)
    requires
        FileParser::skipped(a, b, j),
    ensures
        forall|m: nat, lens: Seq<nat>, tail: nat, other: Option<(Seq<nat>, nat)>|
            #[trigger] if_tokens_at(b, i + 1, m, lens, tail, other) == if_tokens_at(a, j + i + 1, m, lens, tail, other),
        forall|m: nat, lens: Seq<nat>, tail: nat|
            #[trigger] while_tokens_at(b, i + 1, m, lens, tail) == while_tokens_at(a, j + i + 1, m, lens, tail),
        forall|m: nat, lens: Seq<nat>, tail: nat|
            #[trigger] for_tokens_at(b, i + 1, m, lens, tail) == for_tokens_at(a, j + i + 1, m, lens, tail),
        forall|x: nat, lens: Seq<nat>, tail: nat|
            #[trigger] block_tokens_at(b, x, lens, tail) == block_tokens_at(a, j + x, lens, tail),
        forall|x: nat, lens: Seq<nat>, tail: nat, blk: crate::ast::expression::Block|
            #[trigger] block_of_tokens_at(b, x, lens, tail, blk) == block_of_tokens_at(a, j + x, lens, tail, blk),
        forall|x: nat, m: nat, e: Expression| #[trigger] crate::parser::expression::expression_of(b, x, m, e) == crate::parser::expression::expression_of(a, j + x, m, e),
        forall|x: nat, m: nat|
            #[trigger] crate::parser::operator_expression::infix::token_expression_at(b, x, m)
                == crate::parser::operator_expression::infix::token_expression_at(a, j + x, m),
        forall|x: nat, m: nat|
            #[trigger] crate::parser::expression::expression_at(b, x, m)
                == crate::parser::expression::expression_at(a, j + x, m),
{
    assert forall|x: nat, lens: Seq<nat>, tail: nat| #[trigger] block_tokens_at(b, x, lens, tail) == block_tokens_at(
        a,
        j + x,
        lens,
        tail,
    ) by {
        lemma_block_at_shift(a, b, j, x, lens, tail);
    }
    assert forall|x: nat, lens: Seq<nat>, tail: nat, blk: crate::ast::expression::Block|
        #[trigger] block_of_tokens_at(b, x, lens, tail, blk) == block_of_tokens_at(a, j + x, lens, tail, blk) by {
        lemma_block_at_shift(a, b, j, x, lens, tail);
    }
    assert forall|x: nat, m: nat, e: Expression| #[trigger] crate::parser::expression::expression_of(b, x, m, e) == crate::parser::expression::expression_of(a, j + x, m, e) by {
        crate::parser::expression::lemma_call_shift(a, b, j, x, m);
    }
    assert forall|x: nat, m: nat|
        #[trigger] crate::parser::expression::expression_at(b, x, m)
            == crate::parser::expression::expression_at(a, j + x, m) by {
        crate::parser::expression::lemma_call_shift(a, b, j, x, m);
    }
    assert forall|x: nat, m: nat|
        #[trigger] crate::parser::operator_expression::infix::token_expression_at(b, x, m)
            == crate::parser::operator_expression::infix::token_expression_at(a, j + x, m) by {
        lemma_tree_of_tokens_shift(a, b, j, x, m);
    }
    assert forall|m: nat, lens: Seq<nat>, tail: nat, other: Option<(Seq<nat>, nat)>|
        #[trigger] if_tokens_at(b, i + 1, m, lens, tail, other) == if_tokens_at(a, j + i + 1, m, lens, tail, other) by {
        let e = i + 1 + after_block(m, lens, tail);
        assert(b.tokens(i + 1 + m) == a.tokens(i + 1 + m + j));
        assert(b.tokens(e) == a.tokens(e + j));
        assert(b.tokens(e + 1) == a.tokens(e + 1 + j));
        assert(j + (i + 1) == j + i + 1);
        assert(j + (i + 1 + m + 1) == j + i + 1 + m + 1);
        assert(j + (e + 2) == (j + i + 1 + after_block(m, lens, tail)) + 2);
    }
    assert forall|m: nat, lens: Seq<nat>, tail: nat|
        #[trigger] while_tokens_at(b, i + 1, m, lens, tail) == while_tokens_at(a, j + i + 1, m, lens, tail) by {
        assert(b.tokens(i + 1 + m) == a.tokens(i + 1 + m + j));
        assert(j + (i + 1) == j + i + 1);
        assert(j + (i + 1 + m + 1) == j + i + 1 + m + 1);
    }
    assert forall|m: nat, lens: Seq<nat>, tail: nat|
        #[trigger] for_tokens_at(b, i + 1, m, lens, tail) == for_tokens_at(a, j + i + 1, m, lens, tail) by {
        assert(b.tokens(i + 1) == a.tokens(i + 1 + j));
        assert(b.tokens(i + 1 + 1) == a.tokens(i + 1 + 1 + j));
        assert(b.tokens(i + 1 + m + 2) == a.tokens(i + 1 + m + 2 + j));
        assert(j + (i + 1 + 2) == j + i + 1 + 2);
        assert(j + (i + 1 + m + 3) == j + i + 1 + m + 3);
    }
}

/// What [lemma_control_shift] states of the reading of one expression.
proof fn lemma_control_of_shift(a: &FileParser, b: &FileParser, j: nat, i: nat, n: nat, e: Expression)
    requires
        FileParser::skipped(a, b, j),
    ensures
        control_of_tokens(b, i, n, e) == control_of_tokens(a, j + i, n, e),
{
    reveal(control_tokens_at);
    reveal(control_of_tokens);
    lemma_shapes_shift(a, b, j, i);
    assert(b.tokens(i) == a.tokens(j + i));
    assert(b.tokens(i + 1) == a.tokens(j + i + 1));
    match e {
        Expression::If { condition, body, else_body } => {
            if control_of_tokens(b, i, n, e) {
                let (m, l, t, o) = choose|m: nat, lens: Seq<nat>, tail: nat, other: Option<(Seq<nat>, nat)>|
                    #[trigger] if_tokens_at(b, i + 1, m, lens, tail, other) && n == if_len(m, lens, tail, other) && (
                    e matches Expression::If { condition, body, else_body } && crate::parser::expression::expression_of(b, i + 1, m, *condition)
                        && block_of_tokens_at(b, i + m + 2, lens, tail, body) && match other {
                        None => else_body is None,
                        Some((l2, t2)) => else_body matches Some(b2) && block_of_tokens_at(
                            b,
                            i + after_block(m + 1, lens, tail) + 2,
                            l2,
                            t2,
                            b2,
                        ),
                    });
                assert(if_tokens_at(a, j + i + 1, m, l, t, o));
                assert(j + (i + 1) == j + i + 1);
                assert(j + (i + m + 2) == j + i + m + 2);
                assert(j + (i + after_block(m + 1, l, t) + 2) == j + i + after_block(m + 1, l, t) + 2);
                assert(crate::parser::expression::expression_of(a, j + i + 1, m, *condition));
                assert(block_of_tokens_at(a, j + i + m + 2, l, t, body));
            }
            if control_of_tokens(a, j + i, n, e) {
                let (m, l, t, o) = choose|m: nat, lens: Seq<nat>, tail: nat, other: Option<(Seq<nat>, nat)>|
                    #[trigger] if_tokens_at(a, j + i + 1, m, lens, tail, other) && n == if_len(m, lens, tail, other) && (
                    e matches Expression::If { condition, body, else_body } && crate::parser::expression::expression_of(a, j + i + 1, m, *condition)
                        && block_of_tokens_at(a, j + i + m + 2, lens, tail, body) && match other {
                        None => else_body is None,
                        Some((l2, t2)) => else_body matches Some(b2) && block_of_tokens_at(
                            a,
                            j + i + after_block(m + 1, lens, tail) + 2,
                            l2,
                            t2,
                            b2,
                        ),
                    });
                assert(if_tokens_at(b, i + 1, m, l, t, o));
                assert(j + (i + 1) == j + i + 1);
                assert(j + (i + m + 2) == j + i + m + 2);
                assert(j + (i + after_block(m + 1, l, t) + 2) == j + i + after_block(m + 1, l, t) + 2);
                assert(crate::parser::expression::expression_of(b, i + 1, m, *condition));
                assert(block_of_tokens_at(b, i + m + 2, l, t, body));
            }
        },
        Expression::While { condition, body } => {
            if control_of_tokens(b, i, n, e) {
                let (m, l, t) = choose|m: nat, lens: Seq<nat>, tail: nat|
                    #[trigger] while_tokens_at(b, i + 1, m, lens, tail) && n == after_block(m + 1, lens, tail) && (
                    e matches Expression::While { condition, body } && crate::parser::expression::expression_of(b, i + 1, m, *condition)
                        && block_of_tokens_at(b, i + m + 2, lens, tail, body));
                assert(while_tokens_at(a, j + i + 1, m, l, t));
                assert(j + (i + 1) == j + i + 1);
                assert(j + (i + m + 2) == j + i + m + 2);
                assert(crate::parser::expression::expression_of(a, j + i + 1, m, *condition));
                assert(block_of_tokens_at(a, j + i + m + 2, l, t, body));
            }
            if control_of_tokens(a, j + i, n, e) {
                let (m, l, t) = choose|m: nat, lens: Seq<nat>, tail: nat|
                    #[trigger] while_tokens_at(a, j + i + 1, m, lens, tail) && n == after_block(m + 1, lens, tail) && (
                    e matches Expression::While { condition, body } && crate::parser::expression::expression_of(a, j + i + 1, m, *condition)
                        && block_of_tokens_at(a, j + i + m + 2, lens, tail, body));
                assert(while_tokens_at(b, i + 1, m, l, t));
                assert(j + (i + 1) == j + i + 1);
                assert(j + (i + m + 2) == j + i + m + 2);
                assert(crate::parser::expression::expression_of(b, i + 1, m, *condition));
                assert(block_of_tokens_at(b, i + m + 2, l, t, body));
            }
        },
        Expression::For { var, expr, body } => {
            if control_of_tokens(b, i, n, e) {
                let (m, l, t) = choose|m: nat, lens: Seq<nat>, tail: nat|
                    #[trigger] for_tokens_at(b, i + 1, m, lens, tail) && n == after_block(m + 3, lens, tail) && (
                    e matches Expression::For { var, expr, body } && b.tokens(i + 1) == ident_token(var@)
                        && crate::parser::expression::expression_of(b, i + 3, m, *expr) && block_of_tokens_at(b, i + m + 4, lens, tail, body));
                assert(for_tokens_at(a, j + i + 1, m, l, t));
                assert(j + (i + 3) == j + i + 3);
                assert(j + (i + m + 4) == j + i + m + 4);
                assert(crate::parser::expression::expression_of(a, j + i + 3, m, *expr));
                assert(block_of_tokens_at(a, j + i + m + 4, l, t, body));
            }
            if control_of_tokens(a, j + i, n, e) {
                let (m, l, t) = choose|m: nat, lens: Seq<nat>, tail: nat|
                    #[trigger] for_tokens_at(a, j + i + 1, m, lens, tail) && n == after_block(m + 3, lens, tail) && (
                    e matches Expression::For { var, expr, body } && a.tokens(j + i + 1) == ident_token(var@)
                        && crate::parser::expression::expression_of(a, j + i + 3, m, *expr) && block_of_tokens_at(a, j + i + m + 4, lens, tail, body));
                assert(for_tokens_at(b, i + 1, m, l, t));
                assert(j + (i + 3) == j + i + 3);
                assert(j + (i + m + 4) == j + i + m + 4);
                assert(crate::parser::expression::expression_of(b, i + 3, m, *expr));
                assert(block_of_tokens_at(b, i + m + 4, l, t, body));
            }
        },
        Expression::Block(blk) => {
            if control_of_tokens(b, i, n, e) {
                let (l, t) = choose|lens: Seq<nat>, tail: nat|
                    #[trigger] block_tokens_at(b, i + 1, lens, tail) && n == after_block(0, lens, tail) && (
                    e matches Expression::Block(bb) && block_of_tokens_at(b, i + 1, lens, tail, bb));
                assert(j + (i + 1) == j + i + 1);
                assert(block_tokens_at(a, j + i + 1, l, t));
                assert(block_of_tokens_at(a, j + i + 1, l, t, blk));
            }
            if control_of_tokens(a, j + i, n, e) {
                let (l, t) = choose|lens: Seq<nat>, tail: nat|
                    #[trigger] block_tokens_at(a, j + i + 1, lens, tail) && n == after_block(0, lens, tail) && (
                    e matches Expression::Block(bb) && block_of_tokens_at(a, j + i + 1, lens, tail, bb));
                assert(j + (i + 1) == j + i + 1);
                assert(block_tokens_at(b, i + 1, l, t));
                assert(block_of_tokens_at(b, i + 1, l, t, blk));
            }
        },
        _ => {},
    }
}

/// A block, conditional or loop read from a parser `j` tokens further on, from its `i`-th token,
/// is one read from the `j + i`-th token on.
pub proof fn lemma_control_shift(a: &FileParser, b: &FileParser, j: nat, i: nat, n: nat)
    requires
        FileParser::skipped(a, b, j),
    ensures
        control_tokens_at(b, i, n) == control_tokens_at(a, j + i, n),
        control_expression_at(b, i, n) == control_expression_at(a, j + i, n),
        forall|e: Expression| #[trigger] control_of_tokens(b, i, n, e) == control_of_tokens(a, j + i, n, e),
{
    reveal(control_tokens_at);
    reveal(control_of_tokens);
    lemma_shapes_shift(a, b, j, i);
    assert(b.tokens(i) == a.tokens(i + j));
    assert(b.tokens(i + 1) == a.tokens(i + 1 + j));
    assert(b.tokens(i + n) == a.tokens(i + n + j));
    assert(j + (i + 1) == j + i + 1);
    assert(b.tokens(i) == a.tokens(j + i));
    assert(b.tokens(i + n) == a.tokens(j + i + n));
    assert forall|e: Expression| #[trigger] control_of_tokens(b, i, n, e) == control_of_tokens(a, j + i, n, e) by {
        lemma_control_of_shift(a, b, j, i, n, e);
    }
    assert forall|lens: Seq<nat>, tail: nat| #[trigger] block_tokens_at(b, i + 1, lens, tail) == block_tokens_at(
        a,
        j + i + 1,
        lens,
        tail,
    ) by {
        lemma_block_at_shift(a, b, j, i + 1, lens, tail);
    }
    if control_tokens_at(b, i, n) {
        match b.tokens(i) {
            Ok(SpecToken::Keyword(Keyword::If)) => {
                let (m, l, t, o) = choose|m: nat, lens: Seq<nat>, tail: nat, other: Option<(Seq<nat>, nat)>|
                    #[trigger] if_tokens_at(b, i + 1, m, lens, tail, other) && n == if_len(m, lens, tail, other);
                assert(if_tokens_at(a, j + i + 1, m, l, t, o));
            },
            Ok(SpecToken::Keyword(Keyword::While)) => {
                let (m, l, t) = choose|m: nat, lens: Seq<nat>, tail: nat|
                    #[trigger] while_tokens_at(b, i + 1, m, lens, tail) && n == after_block(m + 1, lens, tail);
                assert(while_tokens_at(a, j + i + 1, m, l, t));
            },
            Ok(SpecToken::Keyword(Keyword::For)) => {
                let (m, l, t) = choose|m: nat, lens: Seq<nat>, tail: nat|
                    #[trigger] for_tokens_at(b, i + 1, m, lens, tail) && n == after_block(m + 3, lens, tail);
                assert(for_tokens_at(a, j + i + 1, m, l, t));
            },
            _ => {
                let (l, t) = choose|lens: Seq<nat>, tail: nat|
                    #[trigger] block_tokens_at(b, i + 1, lens, tail) && n == after_block(0, lens, tail);
                assert(block_tokens_at(a, j + i + 1, l, t));
            },
        }
    }
    if control_tokens_at(a, j + i, n) {
        match a.tokens(j + i) {
            Ok(SpecToken::Keyword(Keyword::If)) => {
                let (m, l, t, o) = choose|m: nat, lens: Seq<nat>, tail: nat, other: Option<(Seq<nat>, nat)>|
                    #[trigger] if_tokens_at(a, j + i + 1, m, lens, tail, other) && n == if_len(m, lens, tail, other);
                assert(if_tokens_at(b, i + 1, m, l, t, o));
            },
            Ok(SpecToken::Keyword(Keyword::While)) => {
                let (m, l, t) = choose|m: nat, lens: Seq<nat>, tail: nat|
                    #[trigger] while_tokens_at(a, j + i + 1, m, lens, tail) && n == after_block(m + 1, lens, tail);
                assert(while_tokens_at(b, i + 1, m, l, t));
            },
            Ok(SpecToken::Keyword(Keyword::For)) => {
                let (m, l, t) = choose|m: nat, lens: Seq<nat>, tail: nat|
                    #[trigger] for_tokens_at(a, j + i + 1, m, lens, tail) && n == after_block(m + 3, lens, tail);
                assert(for_tokens_at(b, i + 1, m, l, t));
            },
            _ => {
                let (l, t) = choose|lens: Seq<nat>, tail: nat|
                    #[trigger] block_tokens_at(a, j + i + 1, lens, tail) && n == after_block(0, lens, tail);
                assert(block_tokens_at(b, i + 1, l, t));
            },
        }
    }
}

/// A block, conditional or loop has one length, and where one starts, none of the statements and
/// values of [crate::parser::expression::statement_tokens] and
/// [crate::parser::expression::block_end_tokens] does.
pub proof fn lemma_control_unique(p: &FileParser, j: nat, n1: nat, n2: nat, l: nat)
    requires
        control_tokens_at(p, j, n1),
    ensures
        control_tokens_at(p, j, n2) ==> n1 == n2,
        !crate::parser::expression::statement_tokens(p, j, l),
        !crate::parser::expression::block_end_tokens(p, j, l),
{
    reveal(control_tokens_at);
    reveal(control_of_tokens);
    reveal(crate::parser::expression::statement_tokens);
    reveal(crate::parser::expression::block_end_tokens);
    if crate::parser::expression::statement_tokens(p, j, l) {
        if crate::parser::expression::assignment_statement_tokens(p, j, l) {
        } else {
            lemma_expression_not_control(p, j, (l - 1) as nat);
        }
    }
    if crate::parser::expression::block_end_tokens(p, j, l) && l > 0 {
        lemma_expression_not_control(p, j, l);
    }
    if control_tokens_at(p, j, n2) {
        match p.tokens(j) {
            Ok(SpecToken::Keyword(Keyword::If)) => {
                let (m1, l1, t1, o1) = choose|m: nat, lens: Seq<nat>, tail: nat, other: Option<(Seq<nat>, nat)>|
                    #[trigger] if_tokens_at(p, j + 1, m, lens, tail, other) && n1 == if_len(m, lens, tail, other);
                let (m2, l2, t2, o2) = choose|m: nat, lens: Seq<nat>, tail: nat, other: Option<(Seq<nat>, nat)>|
                    #[trigger] if_tokens_at(p, j + 1, m, lens, tail, other) && n2 == if_len(m, lens, tail, other);
                crate::parser::expression::lemma_expression_facts(p, j + 1, m1, m2, 0);
                lemma_block_unique_at(p, j + 1 + m1 + 1, l1, t1, l2, t2);
                let e = j + 1 + after_block(m1, l1, t1);
                match (o1, o2) {
                    (Some((a1, b1)), Some((a2, b2))) => {
                        lemma_block_unique_at(p, e + 2, a1, b1, a2, b2);
                    },
                    _ => {},
                }
            },
            Ok(SpecToken::Keyword(Keyword::While)) => {
                let (m1, l1, t1) = choose|m: nat, lens: Seq<nat>, tail: nat|
                    #[trigger] while_tokens_at(p, j + 1, m, lens, tail) && n1 == after_block(m + 1, lens, tail);
                let (m2, l2, t2) = choose|m: nat, lens: Seq<nat>, tail: nat|
                    #[trigger] while_tokens_at(p, j + 1, m, lens, tail) && n2 == after_block(m + 1, lens, tail);
                crate::parser::expression::lemma_expression_facts(p, j + 1, m1, m2, 0);
                lemma_block_unique_at(p, j + 1 + m1 + 1, l1, t1, l2, t2);
            },
            Ok(SpecToken::Keyword(Keyword::For)) => {
                let (m1, l1, t1) = choose|m: nat, lens: Seq<nat>, tail: nat|
                    #[trigger] for_tokens_at(p, j + 1, m, lens, tail) && n1 == after_block(m + 3, lens, tail);
                let (m2, l2, t2) = choose|m: nat, lens: Seq<nat>, tail: nat|
                    #[trigger] for_tokens_at(p, j + 1, m, lens, tail) && n2 == after_block(m + 3, lens, tail);
                crate::parser::expression::lemma_expression_facts(p, j + 1 + 2, m1, m2, 0);
                lemma_block_unique_at(p, j + 1 + m1 + 3, l1, t1, l2, t2);
            },
            _ => {
                let (l1, t1) = choose|lens: Seq<nat>, tail: nat|
                    #[trigger] block_tokens_at(p, j + 1, lens, tail) && n1 == after_block(0, lens, tail);
                let (l2, t2) = choose|lens: Seq<nat>, tail: nat|
                    #[trigger] block_tokens_at(p, j + 1, lens, tail) && n2 == after_block(0, lens, tail);
                lemma_block_unique_at(p, j + 1, l1, t1, l2, t2);
            },
        }
    }
}

/// What is read from a block, conditional or loop is a block expression.
pub proof fn lemma_control_of_block(p: &FileParser, j: nat, n: nat, e: Expression)
    requires
        control_of_tokens(p, j, n, e),
    ensures
        e.spec_is_block_expression(),
{
    reveal(control_of_tokens);
}

/// A block, conditional or loop starts with `{`, `if`, `while` or `for`.
pub proof fn lemma_control_start(p: &FileParser, j: nat, n: nat)
    requires
        control_tokens_at(p, j, n),
    ensures
        p.tokens(j) == Ok::<SpecToken, SpecLexerError>(SpecToken::Keyword(Keyword::If)) || p.tokens(j) == Ok::<
            SpecToken,
            SpecLexerError,
        >(SpecToken::Keyword(Keyword::While)) || p.tokens(j) == Ok::<SpecToken, SpecLexerError>(
            SpecToken::Keyword(Keyword::For),
        ) || p.tokens(j) == punct_token(Punctuation::LBrace),
        n > 0,
{
    reveal(control_tokens_at);
}

/// An expression as [crate::parser::expression::expression_at] has it starts with no `{`, `if`,
/// `while` or `for`.
proof fn lemma_expression_not_control(p: &FileParser, j: nat, n: nat)
    requires
        crate::parser::expression::expression_at(p, j, n),
    ensures
        !(p.tokens(j) == punct_token(Punctuation::LBrace)),
        !(p.tokens(j) matches Ok(SpecToken::Keyword(k)) && k != Keyword::True && k != Keyword::False),
{
    crate::parser::expression::lemma_expression_facts(p, j, n, n, 0);
    if !crate::parser::expression::call_expression_at(p, j, n) {
        crate::parser::operator_expression::infix::lemma_expression_first(p, j, n);
        assert(crate::parser::operator_expression::infix::token_run_at(p, j, 0) == Some((false, 0nat)));
        assert(p.tokens(j + (1 - 1) as nat) == p.tokens(j));
    }
}

/// The `len` tokens of `p` from the `j`-th on are a statement of a block: one as
/// [statement_tokens] has it, or a block, conditional or loop as [control_statement_tokens] has
/// it.
pub open spec fn nested_statement_tokens(p: &FileParser, j: nat, len: nat) -> bool {
    statement_tokens(p, j, len) || control_statement_tokens(p, j, len)
}

/// The statement read from such tokens.
pub open spec fn nested_statement_of(p: &FileParser, j: nat, len: nat, st: Statement) -> bool {
    if control_statement_tokens(p, j, len) {
        control_statement_of(p, j, len, st)
    } else {
        statement_of_tokens(p, j, len, st)
    }
}

/// The tokens of `p` from the `j`-th on end a block: as [block_end_tokens] has it, or with a
/// block, conditional or loop of `tail` tokens as its value, as [control_end_tokens] has it.
pub open spec fn nested_end_tokens(p: &FileParser, j: nat, tail: nat) -> bool {
    block_end_tokens(p, j, tail) || control_end_tokens(p, j, tail)
}

/// The value read from the `tail` tokens of such an end.
pub open spec fn nested_end_of(p: &FileParser, j: nat, tail: nat, e: Expression) -> bool {
    if control_end_tokens(p, j, tail) {
        control_of_tokens(p, j, tail, e)
    } else {
        expression_of(p, j, tail, e)
    }
}

/// The tokens of `p` from the `j`-th on are the rest of a block after `{`: statements as
/// [nested_statement_tokens] of the lengths `lens`, then an end as [nested_end_tokens] with a value
/// of `tail` tokens. Its statements may be blocks, conditionals and loops whose own blocks are as
/// [block_tokens_at] has them.
pub open spec fn nested_block_tokens_at(p: &FileParser, j: nat, lens: Seq<nat>, tail: nat) -> bool {
    &&& forall|i: int|
        #![trigger lens[i]]
        0 <= i < lens.len() ==> nested_statement_tokens(p, j + lens_sum(lens.take(i)), lens[i])
    &&& nested_end_tokens(p, j + lens_sum(lens), tail)
}

/// The block read from such tokens: a statement read from each statement's tokens, and the
/// value read from the tokens before `}`, if any.
pub open spec fn nested_block_of_at(
    p: &FileParser,
    j: nat,
    lens: Seq<nat>,
    tail: nat,
    b: crate::ast::expression::Block,
) -> bool {
    &&& b.statements@.len() == lens.len()
    &&& forall|i: int|
        #![trigger b.statements@[i]]
        0 <= i < lens.len() ==> nested_statement_of(p, j + lens_sum(lens.take(i)), lens[i], b.statements@[i])
    &&& if tail == 0 {
        b.expression is None
    } else {
        b.expression matches Some(e) && nested_end_of(p, j + lens_sum(lens), tail, *e)
    }
}

/// A statement read from a parser `j` tokens further on, from its `i`-th token, is one read from
/// the `j + i`-th token on.
pub proof fn lemma_nested_statement_shift(a: &FileParser, b: &FileParser, j: nat, i: nat, len: nat)
    requires
        FileParser::skipped(a, b, j),
    ensures
        nested_statement_tokens(b, i, len) == nested_statement_tokens(a, j + i, len),
        control_statement_tokens(b, i, len) == control_statement_tokens(a, j + i, len),
        statement_tokens(b, i, len) == statement_tokens(a, j + i, len),
        forall|st: Statement| #[trigger] nested_statement_of(b, i, len, st) == nested_statement_of(a, j + i, len, st),
        forall|st: Statement| #[trigger] statement_of_tokens(b, i, len, st) == statement_of_tokens(a, j + i, len, st),
        forall|st: Statement| #[trigger] control_statement_of(b, i, len, st) == control_statement_of(a, j + i, len, st),
{
    lemma_statement_shift(a, b, j, i, len);
    lemma_control_shift(a, b, j, i, len);
    lemma_control_shift(a, b, j, i, (len - 1) as nat);
    assert(b.tokens(i + len) == a.tokens(i + len + j));
    assert(b.tokens(i + (len - 1) as nat) == a.tokens(i + (len - 1) as nat + j));
    assert(j + i + len == i + len + j);
}

/// The end of a block read from a parser `j` tokens further on, from its `i`-th token, is one
/// read from the `j + i`-th token on.
pub proof fn lemma_nested_end_shift(a: &FileParser, b: &FileParser, j: nat, i: nat, tail: nat)
    requires
        FileParser::skipped(a, b, j),
    ensures
        nested_end_tokens(b, i, tail) == nested_end_tokens(a, j + i, tail),
        control_end_tokens(b, i, tail) == control_end_tokens(a, j + i, tail),
        block_end_tokens(b, i, tail) == block_end_tokens(a, j + i, tail),
        forall|e: Expression| #[trigger] nested_end_of(b, i, tail, e) == nested_end_of(a, j + i, tail, e),
        forall|e: Expression| #[trigger] control_of_tokens(b, i, tail, e) == control_of_tokens(a, j + i, tail, e),
        forall|e: Expression| #[trigger] expression_of(b, i, tail, e) == expression_of(a, j + i, tail, e),
{
    lemma_block_end_shift(a, b, j, i, tail);
    lemma_control_shift(a, b, j, i, tail);
    assert(b.tokens(i + tail) == a.tokens(i + tail + j));
}

/// A statement of a block from the `j`-th token on has one length.
pub proof fn lemma_nested_statement_unique(p: &FileParser, j: nat, l1: nat, l2: nat)
    requires
        nested_statement_tokens(p, j, l1),
        nested_statement_tokens(p, j, l2),
    ensures
        l1 == l2,
{
    if control_statement_tokens(p, j, l1) {
        let n1: nat = if l1 >= 1 && control_expression_at(p, j, (l1 - 1) as nat) && p.tokens(j + (l1 - 1) as nat)
            == punct_token(Punctuation::Semicolon) {
            (l1 - 1) as nat
        } else {
            l1
        };
        lemma_control_unique(p, j, n1, n1, l2);
        let n2: nat = if l2 >= 1 && control_expression_at(p, j, (l2 - 1) as nat) && p.tokens(j + (l2 - 1) as nat)
            == punct_token(Punctuation::Semicolon) {
            (l2 - 1) as nat
        } else {
            l2
        };
        lemma_control_unique(p, j, n1, n2, 0);
    } else if control_statement_tokens(p, j, l2) {
        let n2: nat = if l2 >= 1 && control_expression_at(p, j, (l2 - 1) as nat) && p.tokens(j + (l2 - 1) as nat)
            == punct_token(Punctuation::Semicolon) {
            (l2 - 1) as nat
        } else {
            l2
        };
        lemma_control_unique(p, j, n2, n2, l1);
    } else {
        lemma_statement_unique(p, j, l1, l2);
    }
}

/// Where a statement of a block starts, the block does not end, and where it ends, its end has
/// one length.
pub proof fn lemma_nested_end_unique(p: &FileParser, j: nat, l: nat, t1: nat, t2: nat)
    requires
        nested_end_tokens(p, j, t1),
    ensures
        !nested_statement_tokens(p, j, l),
        nested_end_tokens(p, j, t2) ==> t1 == t2,
{
    if control_end_tokens(p, j, t1) {
        lemma_control_unique(p, j, t1, t1, l);
        lemma_control_unique(p, j, t1, t2, t2);
        if control_statement_tokens(p, j, l) {
            let n: nat = if l >= 1 && control_expression_at(p, j, (l - 1) as nat) && p.tokens(j + (l - 1) as nat)
                == punct_token(Punctuation::Semicolon) {
                (l - 1) as nat
            } else {
                l
            };
            lemma_control_unique(p, j, t1, n, 0);
        }
    } else {
        lemma_block_end_unique(p, j, l, t1, t2);
        if control_statement_tokens(p, j, l) {
            let n: nat = if l >= 1 && control_expression_at(p, j, (l - 1) as nat) && p.tokens(j + (l - 1) as nat)
                == punct_token(Punctuation::Semicolon) {
                (l - 1) as nat
            } else {
                l
            };
            lemma_control_unique(p, j, n, n, t1);
        }
        if control_end_tokens(p, j, t2) {
            lemma_control_unique(p, j, t2, t2, t1);
        }
    }
}

/// Two divisions of the tokens from the `j`-th on into the statements of a block agree on their
/// first `i` statements.
proof fn lemma_nested_prefix_at(
    p: &FileParser,
    j: nat,
    lens1: Seq<nat>,
    tail1: nat,
    lens2: Seq<nat>,
    tail2: nat,
    i: int,
)
    requires
        nested_block_tokens_at(p, j, lens1, tail1),
        nested_block_tokens_at(p, j, lens2, tail2),
        0 <= i <= lens1.len(),
        i <= lens2.len(),
    ensures
        lens1.take(i) == lens2.take(i),
    decreases i,
{
    if i > 0 {
        lemma_nested_prefix_at(p, j, lens1, tail1, lens2, tail2, i - 1);
        assert(nested_statement_tokens(p, j + lens_sum(lens1.take(i - 1)), lens1[i - 1]));
        assert(nested_statement_tokens(p, j + lens_sum(lens2.take(i - 1)), lens2[i - 1]));
        lemma_nested_statement_unique(p, j + lens_sum(lens1.take(i - 1)), lens1[i - 1], lens2[i - 1]);
        assert(lens1.take(i) =~= lens1.take(i - 1).push(lens1[i - 1]));
        assert(lens2.take(i) =~= lens2.take(i - 1).push(lens2[i - 1]));
    }
}

/// The tokens of a block from the `j`-th on divide into its statements and its value in one way
/// only.
pub proof fn lemma_nested_block_unique_at(
    p: &FileParser,
    j: nat,
    lens1: Seq<nat>,
    tail1: nat,
    lens2: Seq<nat>,
    tail2: nat,
)
    requires
        nested_block_tokens_at(p, j, lens1, tail1),
        nested_block_tokens_at(p, j, lens2, tail2),
    ensures
        lens1 == lens2,
        tail1 == tail2,
{
    if lens1.len() < lens2.len() {
        let k = lens1.len() as int;
        lemma_nested_prefix_at(p, j, lens1, tail1, lens2, tail2, k);
        assert(lens1.take(k) =~= lens1);
        assert(nested_statement_tokens(p, j + lens_sum(lens2.take(k)), lens2[k]));
        lemma_nested_end_unique(p, j + lens_sum(lens1), lens2[k], tail1, tail2);
    } else if lens2.len() < lens1.len() {
        let k = lens2.len() as int;
        lemma_nested_prefix_at(p, j, lens1, tail1, lens2, tail2, k);
        assert(lens2.take(k) =~= lens2);
        assert(nested_statement_tokens(p, j + lens_sum(lens1.take(k)), lens1[k]));
        lemma_nested_end_unique(p, j + lens_sum(lens2), lens1[k], tail2, tail1);
    } else {
        let k = lens1.len() as int;
        lemma_nested_prefix_at(p, j, lens1, tail1, lens2, tail2, k);
        assert(lens1.take(k) =~= lens1);
        assert(lens2.take(k) =~= lens2);
        lemma_nested_end_unique(p, j + lens_sum(lens1), 0, tail1, tail2);
    }
}

/// A block as [block_tokens_at] has it is one as [nested_block_tokens_at] has it, read the same.
pub proof fn lemma_nested_covers(p: &FileParser, j: nat, lens: Seq<nat>, tail: nat, b: crate::ast::expression::Block)
    requires
        block_tokens_at(p, j, lens, tail),
    ensures
        nested_block_tokens_at(p, j, lens, tail),
        nested_block_of_at(p, j, lens, tail, b) ==> block_of_tokens_at(p, j, lens, tail, b),
{
    assert forall|i: int| 0 <= i < lens.len() implies !control_statement_tokens(p, j + lens_sum(lens.take(i)), #[trigger] lens[i]) by {
        let x = j + lens_sum(lens.take(i));
        let l = lens[i];
        assert(statement_tokens(p, x, l));
        if control_statement_tokens(p, x, l) {
            let n: nat = if l >= 1 && control_expression_at(p, x, (l - 1) as nat) && p.tokens(x + (l - 1) as nat)
                == punct_token(Punctuation::Semicolon) {
                (l - 1) as nat
            } else {
                l
            };
            lemma_control_unique(p, x, n, n, l);
        }
    }
    if control_end_tokens(p, j + lens_sum(lens), tail) {
        lemma_control_unique(p, j + lens_sum(lens), tail, tail, tail);
    }
    if nested_block_of_at(p, j, lens, tail, b) {
        assert forall|i: int| 0 <= i < lens.len() implies statement_of_tokens(
            p,
            j + lens_sum(lens.take(i)),
            lens[i],
            #[trigger] b.statements@[i],
        ) by {
            assert(!control_statement_tokens(p, j + lens_sum(lens.take(i)), lens[i]));
        }
    }
}

/// A block read from a parser `j` tokens further on, from its `i`-th token, is one read from the
/// `j + i`-th token on.
pub proof fn lemma_nested_block_shift(a: &FileParser, b: &FileParser, j: nat, i: nat, lens: Seq<nat>, tail: nat)
    requires
        FileParser::skipped(a, b, j),
    ensures
        nested_block_tokens_at(b, i, lens, tail) == nested_block_tokens_at(a, j + i, lens, tail),
        forall|blk: crate::ast::expression::Block|
            #[trigger] nested_block_of_at(b, i, lens, tail, blk) == nested_block_of_at(a, j + i, lens, tail, blk),
{
    assert forall|k: int| 0 <= k < lens.len() implies (nested_statement_tokens(b, i + lens_sum(lens.take(k)), #[trigger] lens[k])
        == nested_statement_tokens(a, (j + i) + lens_sum(lens.take(k)), lens[k]) && forall|st: Statement|
        #[trigger] nested_statement_of(b, i + lens_sum(lens.take(k)), lens[k], st) == nested_statement_of(
            a,
            (j + i) + lens_sum(lens.take(k)),
            lens[k],
            st,
        )) by {
        lemma_nested_statement_shift(a, b, j, i + lens_sum(lens.take(k)), lens[k]);
    }
    lemma_nested_end_shift(a, b, j, i + lens_sum(lens), tail);
}

} // verus!
