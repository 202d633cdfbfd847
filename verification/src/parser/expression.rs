//! Parsing of expressions.

use vstd::prelude::*;

use crate::ast::Identifier;
use crate::ast::expression::{Block, Expression, Literal};
use crate::ast::statement::Statement;
use crate::error::ExpectedToken;
use crate::error::library::{
    assignment_in_expression_position, invalid_crate_kw, invalid_punctuation, invalid_super_kw,
    keyword_not_allowed, path_not_a_value, spec_invalid_punctuation, spec_keyword_not_allowed,
    token_mismatch, unexpected_eof,
};
use crate::input_stream::Location;
use crate::lexer::keyword::Keyword;
use crate::lexer::punctuation::Punctuation;
use crate::lexer::{Lexer, SpecLexerError, SpecToken, Token};
use crate::parser::operator_expression::MaybeAssignment;
use crate::parser::operator_expression::infix::{
    InfixEntry, entries_of_tokens, entries_of_tokens_at, infix_valid, lemma_expression_first,
    lemma_token_expression_shift, token_expression, token_expression_at, tree_of_tokens,
    assignment_tokens, assignment_tokens_at, lemma_assignment_shift, lemma_assignment_not_expression,
    lemma_token_expression_at_unique,
};
use crate::parser::item::{ident_token, punct_token};
use crate::parser::statement::{let_tokens, let_value_of_tokens, lemma_let_shift};
use crate::parser::operator_expression::postfix::{PostfixNotation, shunting_yard, tree_expr};
use crate::parser::{FileParser, ParserError};
use crate::path::{RelativePath, RelativePathStart, names};
use crate::text::str_is;

verus! {

broadcast use {crate::parser::FileParser::lemma_advanced_trans, crate::lexer::Lexer::lemma_token_now};

/// What `a` reads up to `b` ends with a closing brace: the token read last was `}`.
pub open spec fn closed_brace(a: &FileParser, b: &FileParser) -> bool {
    exists|mid: FileParser|
        Lexer::continues(&a.lexer, &mid.lexer) && mid.lexer.remaining() <= a.lexer.remaining()
            && #[trigger] FileParser::skipped(&mid, b, 1) && mid.tokens(0) == Ok::<
            SpecToken,
            SpecLexerError,
        >(SpecToken::Punctuation(Punctuation::RBrace))
}

/// Reading on before a part that ends with a closing brace ends with it too.
pub proof fn lemma_closed_brace_before(a: &FileParser, b: &FileParser, c: &FileParser)
    requires
        Lexer::continues(&a.lexer, &b.lexer),
        b.lexer.remaining() <= a.lexer.remaining(),
        closed_brace(b, c),
    ensures
        closed_brace(a, c),
{
    let mid = choose|mid: FileParser|
        Lexer::continues(&b.lexer, &mid.lexer) && mid.lexer.remaining() <= b.lexer.remaining()
            && #[trigger] FileParser::skipped(&mid, c, 1) && mid.tokens(0) == Ok::<
            SpecToken,
            SpecLexerError,
        >(SpecToken::Punctuation(Punctuation::RBrace));
    Lexer::lemma_continues_trans(&a.lexer, &b.lexer, &mid.lexer);
}

/// Looking at the next token without taking it keeps the last token read.
pub proof fn lemma_closed_brace_look(a: &FileParser, b: &FileParser, c: &FileParser)
    requires
        closed_brace(a, b),
        FileParser::skipped(b, c, 0),
    ensures
        closed_brace(a, c),
{
    let mid = choose|mid: FileParser|
        Lexer::continues(&a.lexer, &mid.lexer) && mid.lexer.remaining() <= a.lexer.remaining()
            && #[trigger] FileParser::skipped(&mid, b, 1) && mid.tokens(0) == Ok::<
            SpecToken,
            SpecLexerError,
        >(SpecToken::Punctuation(Punctuation::RBrace));
    FileParser::lemma_skipped_trans(&mid, b, c, 1, 0);
}

/// The last token read depends on the lexer alone.
pub proof fn lemma_closed_brace_same_lexer(a: &FileParser, b: &FileParser, c: &FileParser)
    requires
        closed_brace(a, b),
        c.lexer == b.lexer,
    ensures
        closed_brace(a, c),
{
    let mid = choose|mid: FileParser|
        Lexer::continues(&a.lexer, &mid.lexer) && mid.lexer.remaining() <= a.lexer.remaining()
            && #[trigger] FileParser::skipped(&mid, b, 1) && mid.tokens(0) == Ok::<
            SpecToken,
            SpecLexerError,
        >(SpecToken::Punctuation(Punctuation::RBrace));
    assert forall|k: nat| #[trigger] c.tokens(k) == mid.tokens(k + 1) by {
        assert(b.tokens(k) == mid.tokens(k + 1));
    }
    assert(FileParser::skipped(&mid, c, 1));
}


/// The tokens that statements of the given lengths take together.
pub open spec fn lens_sum(lens: Seq<nat>) -> nat
    decreases lens.len(),
{
    if lens.len() == 0 {
        0
    } else {
        lens_sum(lens.drop_last()) + lens.last()
    }
}

/// The `len` tokens of `p` from the `j`-th on are an expression statement: an expression of
/// `len - 1` tokens as [expression_at] has it, and `;`.
pub open spec fn expression_statement_tokens(p: &FileParser, j: nat, len: nat) -> bool {
    &&& len >= 1
    &&& expression_at(p, j, (len - 1) as nat)
    &&& p.tokens(j + (len - 1) as nat) == punct_token(Punctuation::Semicolon)
}

/// The `len` tokens of `p` from the `j`-th on are an assignment statement, as
/// [assignment_tokens_at] has it.
pub open spec fn assignment_statement_tokens(p: &FileParser, j: nat, len: nat) -> bool {
    len >= 3 && assignment_tokens_at(p, j, (len - 3) as nat)
}

/// The `len` tokens of `p` from the `j`-th on are a statement of a block: `break ;`,
/// `return EXPR ;` or `EXPR ;` with an expression as [expression_at] has it, `let` and the rest
/// of a let statement, or `VAR ASSIGNOP EXPR ;`.
#[verifier::opaque]
pub open spec fn statement_tokens(p: &FileParser, j: nat, len: nat) -> bool {
    match p.tokens(j) {
        Ok(SpecToken::Keyword(Keyword::Break)) => len == 2 && p.tokens(j + 1) == punct_token(
            Punctuation::Semicolon,
        ),
        Ok(SpecToken::Keyword(Keyword::Return)) => len >= 2 && expression_at(
            p,
            j + 1,
            (len - 2) as nat,
        ) && p.tokens(j + (len - 1) as nat) == punct_token(Punctuation::Semicolon),
        Ok(SpecToken::Keyword(Keyword::Let)) => len >= 1 && let_tokens(p, j + 1, (len - 1) as nat),
        _ => expression_statement_tokens(p, j, len) || assignment_statement_tokens(p, j, len),
    }
}

/// The statement read from such tokens.
#[verifier::opaque]
pub open spec fn statement_of_tokens(p: &FileParser, j: nat, len: nat, st: Statement) -> bool {
    match p.tokens(j) {
        Ok(SpecToken::Keyword(Keyword::Break)) => st is Break,
        Ok(SpecToken::Keyword(Keyword::Return)) => st matches Statement::Return(e) && expression_of(
            p,
            j + 1,
            (len - 2) as nat,
            e,
        ),
        Ok(SpecToken::Keyword(Keyword::Let)) => st matches Statement::LetStmt(s) && {
            &&& p.tokens(j + 1) == ident_token(s.name@)
            &&& (p.tokens(j + 2) == punct_token(Punctuation::Colon) <==> s.type_ is Some)
            &&& (s.type_ matches Some(t) ==> p.tokens(j + 3) == ident_token(t@))
            &&& let_value_of_tokens(p, j + 1, (len - 1) as nat, s)
        },
        _ => if assignment_statement_tokens(p, j, len) {
            &&& st matches Statement::Assignment { assignee, operator, expression }
            &&& p.tokens(j) == ident_token(assignee@)
            &&& p.tokens(j + 1) == punct_token(operator.spec_punctuation())
            &&& tree_of_tokens(p, j + 2, (len - 3) as nat, expression)
        } else {
            st matches Statement::ExprStmt(e) && expression_of(p, j, (len - 1) as nat, e)
        },
    }
}

/// The tokens of `p` from the `j`-th on end a block: `}`, or an expression of `tail` tokens as
/// [expression_at] has it and `}`.
#[verifier::opaque]
pub open spec fn block_end_tokens(p: &FileParser, j: nat, tail: nat) -> bool {
    if tail == 0 {
        p.tokens(j) == punct_token(Punctuation::RBrace)
    } else {
        expression_at(p, j, tail) && p.tokens(j + tail) == punct_token(Punctuation::RBrace)
    }
}

/// The tokens of `p` are the rest of a block after `{`: statements as [statement_tokens] of the
/// lengths `lens`, then an end as [block_end_tokens] with a value of `tail` tokens.
pub open spec fn block_tokens(p: &FileParser, lens: Seq<nat>, tail: nat) -> bool {
    &&& forall|i: int|
        #![trigger lens[i]]
        0 <= i < lens.len() ==> statement_tokens(p, lens_sum(lens.take(i)), lens[i])
    &&& block_end_tokens(p, lens_sum(lens), tail)
}

/// The block read from such tokens: a statement read from each statement's tokens, and the
/// value read from the tokens before `}`, if any.
pub open spec fn block_of_tokens(p: &FileParser, lens: Seq<nat>, tail: nat, b: Block) -> bool {
    &&& b.statements@.len() == lens.len()
    &&& forall|i: int|
        #![trigger b.statements@[i]]
        0 <= i < lens.len() ==> statement_of_tokens(p, lens_sum(lens.take(i)), lens[i], b.statements@[i])
    &&& if tail == 0 {
        b.expression is None
    } else {
        b.expression matches Some(e) && expression_of(p, lens_sum(lens), tail, *e)
    }
}

/// A statement read from a parser `j` tokens further on, from its `i`-th token, is one read from
/// the `j + i`-th token on.
pub proof fn lemma_statement_shift(a: &FileParser, b: &FileParser, j: nat, i: nat, len: nat)
    requires
        FileParser::skipped(a, b, j),
    ensures
        statement_tokens(b, i, len) == statement_tokens(a, j + i, len),
        forall|st: Statement| #[trigger] statement_of_tokens(b, i, len, st) == statement_of_tokens(a, j + i, len, st),
{
    reveal(statement_tokens);
    reveal(statement_of_tokens);
    assert(b.tokens(i) == a.tokens(i + j));
    assert(b.tokens(i + 1) == a.tokens(i + 1 + j));
    assert(b.tokens(i + 2) == a.tokens(i + 2 + j));
    assert(b.tokens(i + 3) == a.tokens(i + 3 + j));
    assert(b.tokens(i + (len - 1) as nat) == a.tokens(i + (len - 1) as nat + j));
    lemma_call_shift(a, b, j, i + 1, (len - 2) as nat);
    lemma_call_shift(a, b, j, i, (len - 1) as nat);
    assert(j + (i + 1) == j + i + 1);
    lemma_let_shift(a, b, j, i + 1, (len - 1) as nat);
    crate::parser::operator_expression::infix::lemma_assignment_shift(a, b, j, i, (len - 3) as nat);
}

/// The end of a block read from a parser `j` tokens further on, from its `i`-th token, is one
/// read from the `j + i`-th token on.
pub proof fn lemma_block_end_shift(a: &FileParser, b: &FileParser, j: nat, i: nat, tail: nat)
    requires
        FileParser::skipped(a, b, j),
    ensures
        block_end_tokens(b, i, tail) == block_end_tokens(a, j + i, tail),
        forall|e: Expression| #[trigger] expression_of(b, i, tail, e) == expression_of(a, j + i, tail, e),
{
    reveal(block_end_tokens);
    assert(b.tokens(i) == a.tokens(i + j));
    assert(b.tokens(i + tail) == a.tokens(i + tail + j));
    lemma_call_shift(a, b, j, i, tail);
}

/// [block_tokens] on the tokens of `p` from the `j`-th on.
pub open spec fn block_tokens_at(p: &FileParser, j: nat, lens: Seq<nat>, tail: nat) -> bool {
    &&& forall|i: int|
        #![trigger lens[i]]
        0 <= i < lens.len() ==> statement_tokens(p, j + lens_sum(lens.take(i)), lens[i])
    &&& block_end_tokens(p, j + lens_sum(lens), tail)
}

/// [block_of_tokens] on the tokens of `p` from the `j`-th on.
pub open spec fn block_of_tokens_at(p: &FileParser, j: nat, lens: Seq<nat>, tail: nat, b: Block) -> bool {
    &&& b.statements@.len() == lens.len()
    &&& forall|i: int|
        #![trigger b.statements@[i]]
        0 <= i < lens.len() ==> statement_of_tokens(
            p,
            j + lens_sum(lens.take(i)),
            lens[i],
            b.statements@[i],
        )
    &&& if tail == 0 {
        b.expression is None
    } else {
        b.expression matches Some(e) && expression_of(p, j + lens_sum(lens), tail, *e)
    }
}

/// A block read from a parser `j` tokens further on is one read from the `j`-th token on.
pub proof fn lemma_block_shift(a: &FileParser, b: &FileParser, j: nat, lens: Seq<nat>, tail: nat)
    requires
        FileParser::skipped(a, b, j),
    ensures
        block_tokens(b, lens, tail) == block_tokens_at(a, j, lens, tail),
        forall|blk: Block| #[trigger] block_of_tokens(b, lens, tail, blk) == block_of_tokens_at(a, j, lens, tail, blk),
{
    assert forall|i: int| 0 <= i < lens.len() implies (statement_tokens(b, lens_sum(lens.take(i)), #[trigger] lens[i])
        == statement_tokens(a, j + lens_sum(lens.take(i)), lens[i]) && forall|st: Statement| #[trigger] statement_of_tokens(
        b,
        lens_sum(lens.take(i)),
        lens[i],
        st,
    ) == statement_of_tokens(a, j + lens_sum(lens.take(i)), lens[i], st)) by {
        lemma_statement_shift(a, b, j, lens_sum(lens.take(i)), lens[i]);
    }
    lemma_block_end_shift(a, b, j, lens_sum(lens), tail);
}

/// A block read from a parser `j` tokens further on, from its `i`-th token, is one read from
/// the `j + i`-th token on.
pub proof fn lemma_block_at_shift(a: &FileParser, b: &FileParser, j: nat, i: nat, lens: Seq<nat>, tail: nat)
    requires
        FileParser::skipped(a, b, j),
    ensures
        block_tokens_at(b, i, lens, tail) == block_tokens_at(a, j + i, lens, tail),
        forall|blk: Block| #[trigger] block_of_tokens_at(b, i, lens, tail, blk) == block_of_tokens_at(a, j + i, lens, tail, blk),
{
    assert forall|k: int| 0 <= k < lens.len() implies (statement_tokens(b, i + lens_sum(lens.take(k)), #[trigger] lens[k])
        == statement_tokens(a, (j + i) + lens_sum(lens.take(k)), lens[k]) && forall|st: Statement| #[trigger] statement_of_tokens(
        b,
        i + lens_sum(lens.take(k)),
        lens[k],
        st,
    ) == statement_of_tokens(a, (j + i) + lens_sum(lens.take(k)), lens[k], st)) by {
        lemma_statement_shift(a, b, j, i + lens_sum(lens.take(k)), lens[k]);
    }
    lemma_block_end_shift(a, b, j, i + lens_sum(lens), tail);
}

/// [lemma_block_shift] for every division of the tokens.
pub proof fn lemma_block_shift_all(a: &FileParser, b: &FileParser, j: nat)
    requires
        FileParser::skipped(a, b, j),
    ensures
        forall|lens: Seq<nat>, tail: nat| #[trigger] block_tokens_at(a, j, lens, tail) == block_tokens(b, lens, tail),
        forall|lens: Seq<nat>, tail: nat, blk: Block|
            #[trigger] block_of_tokens_at(a, j, lens, tail, blk) == block_of_tokens(b, lens, tail, blk),
{
    assert forall|lens: Seq<nat>, tail: nat| #[trigger] block_tokens_at(a, j, lens, tail) == block_tokens(b, lens, tail) by {
        lemma_block_shift(a, b, j, lens, tail);
    }
    assert forall|lens: Seq<nat>, tail: nat, blk: Block|
        #[trigger] block_of_tokens_at(a, j, lens, tail, blk) == block_of_tokens(b, lens, tail, blk) by {
        lemma_block_shift(a, b, j, lens, tail);
    }
}

/// The tokens of `p` are a `while` loop after its keyword: a condition of `n` tokens as
/// [expression_at] has it, `{`, and the rest of a block as [block_tokens_at] has it.
pub open spec fn while_tokens(p: &FileParser, n: nat, lens: Seq<nat>, tail: nat) -> bool {
    &&& expression_at(p, 0, n)
    &&& p.tokens(n) == punct_token(Punctuation::LBrace)
    &&& block_tokens_at(p, n + 1, lens, tail)
}

/// The tokens of `p` are a `for` loop after its keyword: a name, `in`, an expression of `n` tokens
/// as [expression_at] has it, `{`, and the rest of a block.
pub open spec fn for_tokens(p: &FileParser, n: nat, lens: Seq<nat>, tail: nat) -> bool {
    &&& (p.tokens(0) matches Ok(SpecToken::Identifier(_)))
    &&& p.tokens(1) == Ok::<SpecToken, SpecLexerError>(SpecToken::Keyword(Keyword::In))
    &&& expression_at(p, 2, n)
    &&& p.tokens(n + 2) == punct_token(Punctuation::LBrace)
    &&& block_tokens_at(p, n + 3, lens, tail)
}

/// [while_tokens] on the tokens of `p` from the `j`-th on.
pub open spec fn while_tokens_at(p: &FileParser, j: nat, n: nat, lens: Seq<nat>, tail: nat) -> bool {
    &&& expression_at(p, j, n)
    &&& p.tokens(j + n) == punct_token(Punctuation::LBrace)
    &&& block_tokens_at(p, j + n + 1, lens, tail)
}

/// [for_tokens] on the tokens of `p` from the `j`-th on.
pub open spec fn for_tokens_at(p: &FileParser, j: nat, n: nat, lens: Seq<nat>, tail: nat) -> bool {
    &&& (p.tokens(j) matches Ok(SpecToken::Identifier(_)))
    &&& p.tokens(j + 1) == Ok::<SpecToken, SpecLexerError>(SpecToken::Keyword(Keyword::In))
    &&& expression_at(p, j + 2, n)
    &&& p.tokens(j + n + 2) == punct_token(Punctuation::LBrace)
    &&& block_tokens_at(p, j + n + 3, lens, tail)
}

/// [if_tokens] on the tokens of `p` from the `j`-th on.
pub open spec fn if_tokens_at(
    p: &FileParser,
    j: nat,
    n: nat,
    lens: Seq<nat>,
    tail: nat,
    other: Option<(Seq<nat>, nat)>,
) -> bool {
    let e = j + after_block(n, lens, tail);
    &&& expression_at(p, j, n)
    &&& p.tokens(j + n) == punct_token(Punctuation::LBrace)
    &&& block_tokens_at(p, j + n + 1, lens, tail)
    &&& match other {
        None => p.tokens(e) is Ok && p.tokens(e) != Ok::<SpecToken, SpecLexerError>(
            SpecToken::Keyword(Keyword::Else),
        ),
        Some((l2, t2)) => {
            &&& p.tokens(e) == Ok::<SpecToken, SpecLexerError>(SpecToken::Keyword(Keyword::Else))
            &&& p.tokens(e + 1) == punct_token(Punctuation::LBrace)
            &&& block_tokens_at(p, e + 2, l2, t2)
        },
    }
}

/// A `while` loop read from a parser one token further on is one read from the first token on.
pub proof fn lemma_while_shift(a: &FileParser, b: &FileParser, n: nat, lens: Seq<nat>, tail: nat)
    requires
        FileParser::skipped(a, b, 1),
    ensures
        while_tokens(b, n, lens, tail) == while_tokens_at(a, 1, n, lens, tail),
        forall|e: Expression| #[trigger] expression_of(b, 0, n, e) == expression_of(a, 1, n, e),
        forall|blk: Block|
            #[trigger] block_of_tokens_at(b, n + 1, lens, tail, blk) == block_of_tokens_at(a, n + 2, lens, tail, blk),
{
    lemma_call_shift(a, b, 1, 0, n);
    assert(b.tokens(n) == a.tokens(n + 1));
    lemma_block_at_shift(a, b, 1, n + 1, lens, tail);
    assert(1 + (n + 1) == n + 2);
}

/// A `for` loop read from a parser one token further on is one read from the first token on.
pub proof fn lemma_for_shift(a: &FileParser, b: &FileParser, n: nat, lens: Seq<nat>, tail: nat)
    requires
        FileParser::skipped(a, b, 1),
    ensures
        for_tokens(b, n, lens, tail) == for_tokens_at(a, 1, n, lens, tail),
        b.tokens(0) == a.tokens(1),
        forall|e: Expression| #[trigger] expression_of(b, 2, n, e) == expression_of(a, 3, n, e),
        forall|blk: Block|
            #[trigger] block_of_tokens_at(b, n + 3, lens, tail, blk) == block_of_tokens_at(a, n + 4, lens, tail, blk),
{
    assert(b.tokens(0) == a.tokens(0 + 1));
    assert(b.tokens(1) == a.tokens(1 + 1));
    assert(b.tokens(n + 2) == a.tokens(n + 2 + 1));
    lemma_call_shift(a, b, 1, 2, n);
    lemma_block_at_shift(a, b, 1, n + 3, lens, tail);
    assert(1 + (n + 3) == n + 4);
    assert(1 + 2 == 3nat);
}

/// An `if` read from a parser one token further on is one read from the first token on.
pub proof fn lemma_if_shift(
    a: &FileParser,
    b: &FileParser,
    n: nat,
    lens: Seq<nat>,
    tail: nat,
    other: Option<(Seq<nat>, nat)>,
)
    requires
        FileParser::skipped(a, b, 1),
    ensures
        if_tokens(b, n, lens, tail, other) == if_tokens_at(a, 1, n, lens, tail, other),
        forall|e: Expression| #[trigger] expression_of(b, 0, n, e) == expression_of(a, 1, n, e),
        forall|blk: Block|
            #[trigger] block_of_tokens_at(b, n + 1, lens, tail, blk) == block_of_tokens_at(a, n + 2, lens, tail, blk),
        forall|l2: Seq<nat>, t2: nat, blk: Block|
            #[trigger] block_of_tokens_at(b, after_block(n, lens, tail) + 2, l2, t2, blk) == block_of_tokens_at(
                a,
                after_block(n + 1, lens, tail) + 2,
                l2,
                t2,
                blk,
            ),
{
    let e = after_block(n, lens, tail);
    lemma_call_shift(a, b, 1, 0, n);
    assert(b.tokens(n) == a.tokens(n + 1));
    assert(b.tokens(e) == a.tokens(e + 1));
    assert(b.tokens(e + 1) == a.tokens(e + 1 + 1));
    lemma_block_at_shift(a, b, 1, n + 1, lens, tail);
    assert forall|l2: Seq<nat>, t2: nat| #[trigger] block_tokens_at(b, e + 2, l2, t2) == block_tokens_at(a, 1 + (e + 2), l2, t2) by {
        lemma_block_at_shift(a, b, 1, e + 2, l2, t2);
    }
    assert forall|l2: Seq<nat>, t2: nat, blk: Block|
        #[trigger] block_of_tokens_at(b, e + 2, l2, t2, blk) == block_of_tokens_at(a, after_block(n + 1, lens, tail) + 2, l2, t2, blk) by {
        lemma_block_at_shift(a, b, 1, e + 2, l2, t2);
        assert(1 + (e + 2) == after_block(n + 1, lens, tail) + 2);
    }
}

/// From the `j`-th token of `p` on: `:: NAME` for each name of `segs`, none of them `super` or
/// `crate`, and then a token other than `:`.
pub open spec fn path_segments(p: &FileParser, j: nat, segs: Seq<Seq<char>>) -> bool {
    &&& forall|k: int|
        #![trigger segs[k]]
        0 <= k < segs.len() ==> {
            &&& p.tokens((j + 3 * k) as nat) == punct_token(Punctuation::Colon)
            &&& p.tokens((j + 3 * k + 1) as nat) == punct_token(Punctuation::Colon)
            &&& p.tokens((j + 3 * k + 2) as nat) == ident_token(segs[k])
            &&& segs[k] != seq!['s', 'u', 'p', 'e', 'r']
            &&& segs[k] != seq!['c', 'r', 'a', 't', 'e']
        }
    &&& p.tokens(j + 3 * segs.len()) matches Ok(t) && t != SpecToken::Punctuation(Punctuation::Colon)
}

/// Such segments from the `j`-th token on, then call arguments as [call_args_at] has them.
pub open spec fn path_call_at(p: &FileParser, j: nat, segs: Seq<Seq<char>>, ns: Seq<nat>) -> bool {
    path_segments(p, j, segs) && call_args_at(p, j + 3 * segs.len(), ns)
}

/// The segments of a path are read in one way only.
pub proof fn lemma_path_segments_unique(p: &FileParser, j: nat, s1: Seq<Seq<char>>, s2: Seq<Seq<char>>)
    requires
        path_segments(p, j, s1),
        path_segments(p, j, s2),
    ensures
        s1 == s2,
{
    if s1.len() < s2.len() {
        let k = s1.len() as int;
        assert(p.tokens((j + 3 * k) as nat) == punct_token(Punctuation::Colon)) by {
            assert(s2[k] == s2[k]);
        }
        assert((j + 3 * k) as nat == j + 3 * s1.len());
    } else if s2.len() < s1.len() {
        let k = s2.len() as int;
        assert(p.tokens((j + 3 * k) as nat) == punct_token(Punctuation::Colon)) by {
            assert(s1[k] == s1[k]);
        }
        assert((j + 3 * k) as nat == j + 3 * s2.len());
    } else {
        assert forall|k: int| 0 <= k < s1.len() implies s1[k] == s2[k] by {
            assert(p.tokens((j + 3 * k + 2) as nat) == ident_token(s1[k]));
            assert(p.tokens((j + 3 * k + 2) as nat) == ident_token(s2[k]));
        }
        assert(s1 =~= s2);
    }
}

/// Segments and call arguments read from a parser one token further on are the ones read from
/// the first token on.
pub proof fn lemma_path_shift(a: &FileParser, b: &FileParser, segs: Seq<Seq<char>>, ns: Seq<nat>)
    requires
        FileParser::skipped(a, b, 1),
    ensures
        path_segments(b, 0, segs) == path_segments(a, 1, segs),
        path_call_at(b, 0, segs, ns) == path_call_at(a, 1, segs, ns),
        b.tokens(3 * segs.len()) == a.tokens(1 + 3 * segs.len()),
        forall|params: Seq<Expression>|
            #[trigger] args_of_tokens(b, 3 * segs.len(), ns, params) == args_of_tokens(
                a,
                1 + 3 * segs.len(),
                ns,
                params,
            ),
{
    assert(b.tokens(3 * segs.len()) == a.tokens(3 * segs.len() + 1));
    if path_segments(b, 0, segs) {
        assert forall|k: int| #![trigger segs[k]] 0 <= k < segs.len() implies {
            &&& a.tokens((1 + 3 * k) as nat) == punct_token(Punctuation::Colon)
            &&& a.tokens((1 + 3 * k + 1) as nat) == punct_token(Punctuation::Colon)
            &&& a.tokens((1 + 3 * k + 2) as nat) == ident_token(segs[k])
            &&& segs[k] != seq!['s', 'u', 'p', 'e', 'r']
            &&& segs[k] != seq!['c', 'r', 'a', 't', 'e']
        } by {
            assert(b.tokens((3 * k) as nat) == a.tokens((3 * k) as nat + 1));
            assert(b.tokens((3 * k + 1) as nat) == a.tokens((3 * k + 1) as nat + 1));
            assert(b.tokens((3 * k + 2) as nat) == a.tokens((3 * k + 2) as nat + 1));
        }
    }
    if path_segments(a, 1, segs) {
        assert forall|k: int| #![trigger segs[k]] 0 <= k < segs.len() implies {
            &&& b.tokens((0 + 3 * k) as nat) == punct_token(Punctuation::Colon)
            &&& b.tokens((0 + 3 * k + 1) as nat) == punct_token(Punctuation::Colon)
            &&& b.tokens((0 + 3 * k + 2) as nat) == ident_token(segs[k])
            &&& segs[k] != seq!['s', 'u', 'p', 'e', 'r']
            &&& segs[k] != seq!['c', 'r', 'a', 't', 'e']
        } by {
            assert(b.tokens((3 * k) as nat) == a.tokens((3 * k) as nat + 1));
            assert(b.tokens((3 * k + 1) as nat) == a.tokens((3 * k + 1) as nat + 1));
            assert(b.tokens((3 * k + 2) as nat) == a.tokens((3 * k + 2) as nat + 1));
        }
    }
    lemma_call_args_shift(a, b, 1, 3 * segs.len(), ns);
}

/// Segments and call arguments read from a parser `j` tokens further on, from its `i`-th
/// token, are the ones read from the `j + i`-th token on.
pub proof fn lemma_path_call_shift(a: &FileParser, b: &FileParser, j: nat, i: nat, segs: Seq<Seq<char>>, ns: Seq<nat>)
    requires
        FileParser::skipped(a, b, j),
    ensures
        path_segments(b, i, segs) == path_segments(a, j + i, segs),
        path_call_at(b, i, segs, ns) == path_call_at(a, j + i, segs, ns),
        forall|params: Seq<Expression>|
            #[trigger] args_of_tokens(b, i + 3 * segs.len(), ns, params) == args_of_tokens(
                a,
                j + i + 3 * segs.len(),
                ns,
                params,
            ),
{
    assert(b.tokens(i + 3 * segs.len()) == a.tokens(i + 3 * segs.len() + j));
    assert(i + 3 * segs.len() + j == j + i + 3 * segs.len());
    if path_segments(b, i, segs) {
        assert forall|k: int| #![trigger segs[k]] 0 <= k < segs.len() implies {
            &&& a.tokens((j + i + 3 * k) as nat) == punct_token(Punctuation::Colon)
            &&& a.tokens((j + i + 3 * k + 1) as nat) == punct_token(Punctuation::Colon)
            &&& a.tokens((j + i + 3 * k + 2) as nat) == ident_token(segs[k])
            &&& segs[k] != seq!['s', 'u', 'p', 'e', 'r']
            &&& segs[k] != seq!['c', 'r', 'a', 't', 'e']
        } by {
            assert(b.tokens((i + 3 * k) as nat) == a.tokens((i + 3 * k) as nat + j));
            assert(b.tokens((i + 3 * k + 1) as nat) == a.tokens((i + 3 * k + 1) as nat + j));
            assert(b.tokens((i + 3 * k + 2) as nat) == a.tokens((i + 3 * k + 2) as nat + j));
        }
    }
    if path_segments(a, j + i, segs) {
        assert forall|k: int| #![trigger segs[k]] 0 <= k < segs.len() implies {
            &&& b.tokens((i + 3 * k) as nat) == punct_token(Punctuation::Colon)
            &&& b.tokens((i + 3 * k + 1) as nat) == punct_token(Punctuation::Colon)
            &&& b.tokens((i + 3 * k + 2) as nat) == ident_token(segs[k])
            &&& segs[k] != seq!['s', 'u', 'p', 'e', 'r']
            &&& segs[k] != seq!['c', 'r', 'a', 't', 'e']
        } by {
            assert(b.tokens((i + 3 * k) as nat) == a.tokens((i + 3 * k) as nat + j));
            assert(b.tokens((i + 3 * k + 1) as nat) == a.tokens((i + 3 * k + 1) as nat + j));
            assert(b.tokens((i + 3 * k + 2) as nat) == a.tokens((i + 3 * k + 2) as nat + j));
        }
    }
    lemma_call_args_shift(a, b, j, i + 3 * segs.len(), ns);
}

/// The `n` tokens of `p` from the `j`-th on are a call of a path, as [path_call_at] has it after
/// the path's first name, that makes an operator expression by itself: the token after them ends
/// it.
pub open spec fn call1_expression_at(p: &FileParser, j: nat, n: nat) -> bool {
    &&& (p.tokens(j) matches Ok(SpecToken::Identifier(_)))
    &&& exists|segs: Seq<Seq<char>>, ns: Seq<nat>|
        #[trigger] path_call_at(p, j + 1, segs, ns) && n == 1 + 3 * segs.len() + call_args_len(ns)
    &&& p.tokens(j + n) matches Ok(t) && crate::parser::operator_expression::infix::ends_expression(t)
}

/// The call read from such tokens: the path they name and the arguments read from their tokens.
pub open spec fn call1_of_tokens(p: &FileParser, j: nat, n: nat, e: Expression) -> bool {
    exists|segs: Seq<Seq<char>>, ns: Seq<nat>|
        #[trigger] path_call_at(p, j + 1, segs, ns) && n == 1 + 3 * segs.len() + call_args_len(ns) && (
        e matches Expression::FnCall { path, params } && single_name_start(
            path.start,
            crate::parser::item::name_at(p, j),
        ) && names(path.other@) == segs && args_of_tokens(p, j + 1 + 3 * segs.len(), ns, params@))
}

/// The `n` tokens of `p` from the `j`-th on are an operator expression whose operands are single
/// tokens, as [token_expression_at] has it, or a call by itself, as [call1_expression_at] has it.
pub open spec fn arg_expression_at(p: &FileParser, j: nat, n: nat) -> bool {
    token_expression_at(p, j, n) || call1_expression_at(p, j, n)
}

/// The expression read from such tokens.
pub open spec fn arg_expression_of(p: &FileParser, j: nat, n: nat, e: Expression) -> bool {
    if call1_expression_at(p, j, n) {
        call1_of_tokens(p, j, n, e)
    } else {
        tree_of_tokens(p, j, n, e)
    }
}

/// A call read from a parser `j` tokens further on, from its `i`-th token, is one read from the
/// `j + i`-th token on.
pub proof fn lemma_call1_shift(a: &FileParser, b: &FileParser, j: nat, i: nat, n: nat)
    requires
        FileParser::skipped(a, b, j),
    ensures
        call1_expression_at(b, i, n) == call1_expression_at(a, j + i, n),
        arg_expression_at(b, i, n) == arg_expression_at(a, j + i, n),
        forall|e: Expression| #[trigger] arg_expression_of(b, i, n, e) == arg_expression_of(a, j + i, n, e),
{
    assert(b.tokens(i) == a.tokens(i + j));
    assert(b.tokens(i + n) == a.tokens(i + n + j));
    crate::parser::operator_expression::infix::lemma_tree_of_tokens_shift(a, b, j, i, n);
    assert forall|segs: Seq<Seq<char>>, ns: Seq<nat>| #[trigger] path_call_at(b, i + 1, segs, ns) == path_call_at(
        a,
        j + i + 1,
        segs,
        ns,
    ) by {
        lemma_path_call_shift(a, b, j, i + 1, segs, ns);
    }
    if call1_expression_at(a, j + i, n) {
        let (segs, ns) = choose|segs: Seq<Seq<char>>, ns: Seq<nat>|
            #[trigger] path_call_at(a, j + i + 1, segs, ns) && n == 1 + 3 * segs.len() + call_args_len(ns);
        assert(path_call_at(b, i + 1, segs, ns));
    }
    assert(crate::parser::item::name_at(b, i) == crate::parser::item::name_at(a, j + i));
    assert forall|e: Expression| #[trigger] call1_of_tokens(b, i, n, e) == call1_of_tokens(a, j + i, n, e) by {
        if call1_of_tokens(b, i, n, e) {
            let (segs, ns) = choose|segs: Seq<Seq<char>>, ns: Seq<nat>|
                #[trigger] path_call_at(b, i + 1, segs, ns) && n == 1 + 3 * segs.len() + call_args_len(ns) && (
                e matches Expression::FnCall { path, params } && single_name_start(
                    path.start,
                    crate::parser::item::name_at(b, i),
                ) && names(path.other@) == segs && args_of_tokens(b, i + 1 + 3 * segs.len(), ns, params@));
            lemma_path_call_shift(a, b, j, i + 1, segs, ns);
            assert(j + (i + 1) + 3 * segs.len() == j + i + 1 + 3 * segs.len());
            assert(path_call_at(a, j + i + 1, segs, ns));
        }
        if call1_of_tokens(a, j + i, n, e) {
            let (segs, ns) = choose|segs: Seq<Seq<char>>, ns: Seq<nat>|
                #[trigger] path_call_at(a, j + i + 1, segs, ns) && n == 1 + 3 * segs.len() + call_args_len(ns) && (
                e matches Expression::FnCall { path, params } && single_name_start(
                    path.start,
                    crate::parser::item::name_at(a, j + i),
                ) && names(path.other@) == segs && args_of_tokens(a, j + i + 1 + 3 * segs.len(), ns, params@));
            lemma_path_call_shift(a, b, j, i + 1, segs, ns);
            assert(j + (i + 1) + 3 * segs.len() == j + i + 1 + 3 * segs.len());
            assert(path_call_at(b, i + 1, segs, ns));
        }
    }
}

/// A call by itself has one length, and where it starts, no operator expression of single-token
/// operands and no assignment does.
pub proof fn lemma_call1_unique(p: &FileParser, j: nat, n: nat, m: nat)
    requires
        call1_expression_at(p, j, n),
    ensures
        call1_expression_at(p, j, m) ==> n == m,
        !token_expression_at(p, j, m),
        !crate::parser::operator_expression::infix::assignment_tokens_at(p, j, m),
        p.tokens(j + 1) == punct_token(Punctuation::Colon) || p.tokens(j + 1) == punct_token(
            Punctuation::LParent,
        ),
{
    let (segs, ns) = choose|segs: Seq<Seq<char>>, ns: Seq<nat>|
        #[trigger] path_call_at(p, j + 1, segs, ns) && n == 1 + 3 * segs.len() + call_args_len(ns);
    if segs.len() > 0 {
        assert(p.tokens((j + 1 + 3 * 0) as nat) == punct_token(Punctuation::Colon)) by {
            assert(segs[0] == segs[0]);
        }
    } else {
        assert(p.tokens(j + 1 + 3 * segs.len()) == punct_token(Punctuation::LParent));
    }
    if call1_expression_at(p, j, m) {
        let (segs2, ns2) = choose|segs: Seq<Seq<char>>, ns: Seq<nat>|
            #[trigger] path_call_at(p, j + 1, segs, ns) && m == 1 + 3 * segs.len() + call_args_len(ns);
        lemma_path_segments_unique(p, j + 1, segs, segs2);
        lemma_call_args_unique(p, j + 1 + 3 * segs.len(), ns, ns2);
    }
    if token_expression_at(p, j, m) {
        if m >= 1 {
            crate::parser::operator_expression::infix::lemma_token_run_at_prefix(p, j, 1, m);
            assert(crate::parser::operator_expression::infix::token_run_at(p, j, 0) == Some((false, 0nat)));
            assert(p.tokens(j + (1 - 1) as nat) == p.tokens(j));
            assert(p.tokens(j + 1) == p.tokens(j + 1nat));
        }
    }
    if let Ok(SpecToken::Punctuation(q)) = p.tokens(j + 1) {
        crate::parser::operator_expression::infix::lemma_operator_punctuation(q);
    }
}

/// An expression as [arg_expression_at] has it has one length and at least one token; it starts
/// with a token other than `}` and other than a keyword but `true` and `false`, and no
/// assignment starts where it does.
pub proof fn lemma_arg_expression_facts(p: &FileParser, j: nat, n: nat, m: nat, l: nat)
    requires
        arg_expression_at(p, j, n),
    ensures
        n >= 1,
        arg_expression_at(p, j, m) ==> n == m,
        !crate::parser::operator_expression::infix::assignment_tokens_at(p, j, l),
        p.tokens(j) matches Ok(t) && t != SpecToken::Punctuation(Punctuation::RBrace) && !(t matches SpecToken::Keyword(k)
            && k != Keyword::True && k != Keyword::False),
{
    if call1_expression_at(p, j, n) {
        lemma_call1_unique(p, j, n, m);
        lemma_call1_unique(p, j, n, l);
        let (segs, ns) = choose|segs: Seq<Seq<char>>, ns: Seq<nat>|
            #[trigger] path_call_at(p, j + 1, segs, ns) && n == 1 + 3 * segs.len() + call_args_len(ns);
    } else {
        lemma_expression_first(p, j, n);
        assert(crate::parser::operator_expression::infix::token_run_at(p, j, 0) == Some((false, 0nat)));
        assert(p.tokens(j + (1 - 1) as nat) == p.tokens(j));
        if arg_expression_at(p, j, m) {
            if call1_expression_at(p, j, m) {
                lemma_call1_unique(p, j, m, n);
            } else {
                lemma_token_expression_at_unique(p, j, n, m);
            }
        }
        if crate::parser::operator_expression::infix::assignment_tokens_at(p, j, l) {
            lemma_assignment_not_expression(p, j, l, n);
        }
    }
}

/// The `n` tokens of `p` from the `j`-th on are a call of a path, as [path_call2_at] has it after
/// the path's first name, that makes an operator expression by itself: the token after them ends
/// it.
pub open spec fn call_expression_at(p: &FileParser, j: nat, n: nat) -> bool {
    &&& (p.tokens(j) matches Ok(SpecToken::Identifier(_)))
    &&& exists|segs: Seq<Seq<char>>, ns: Seq<nat>|
        #[trigger] path_call2_at(p, j + 1, segs, ns) && n == 1 + 3 * segs.len() + call_args_len(ns)
    &&& p.tokens(j + n) matches Ok(t) && crate::parser::operator_expression::infix::ends_expression(t)
}

/// The call read from such tokens: the path they name and the arguments read from their tokens.
pub open spec fn call_of_tokens(p: &FileParser, j: nat, n: nat, e: Expression) -> bool {
    exists|segs: Seq<Seq<char>>, ns: Seq<nat>|
        #[trigger] path_call2_at(p, j + 1, segs, ns) && n == 1 + 3 * segs.len() + call_args_len(ns) && (
        e matches Expression::FnCall { path, params } && single_name_start(
            path.start,
            crate::parser::item::name_at(p, j),
        ) && names(path.other@) == segs && args2_of_tokens(p, j + 1 + 3 * segs.len(), ns, params@))
}

/// The `n` tokens of `p` from the `j`-th on are an operator expression whose operands are single
/// tokens, as [token_expression_at] has it, or a call by itself, as [call_expression_at] has it.
pub open spec fn expression_at(p: &FileParser, j: nat, n: nat) -> bool {
    token_expression_at(p, j, n) || call_expression_at(p, j, n)
}

/// The expression read from such tokens.
pub open spec fn expression_of(p: &FileParser, j: nat, n: nat, e: Expression) -> bool {
    if call_expression_at(p, j, n) {
        call_of_tokens(p, j, n, e)
    } else {
        tree_of_tokens(p, j, n, e)
    }
}

/// A call read from a parser `j` tokens further on, from its `i`-th token, is one read from the
/// `j + i`-th token on.
#[verifier::rlimit(80)]
pub proof fn lemma_call_shift(a: &FileParser, b: &FileParser, j: nat, i: nat, n: nat)
    requires
        FileParser::skipped(a, b, j),
    ensures
        call_expression_at(b, i, n) == call_expression_at(a, j + i, n),
        expression_at(b, i, n) == expression_at(a, j + i, n),
        forall|e: Expression| #[trigger] expression_of(b, i, n, e) == expression_of(a, j + i, n, e),
{
    assert(b.tokens(i) == a.tokens(i + j));
    assert(b.tokens(i + n) == a.tokens(i + n + j));
    crate::parser::operator_expression::infix::lemma_tree_of_tokens_shift(a, b, j, i, n);
    assert forall|segs: Seq<Seq<char>>, ns: Seq<nat>| #[trigger] path_call2_at(b, i + 1, segs, ns) == path_call2_at(
        a,
        j + i + 1,
        segs,
        ns,
    ) by {
        lemma_path_call2_shift(a, b, j, i + 1, segs, ns);
    }
    if call_expression_at(a, j + i, n) {
        let (segs, ns) = choose|segs: Seq<Seq<char>>, ns: Seq<nat>|
            #[trigger] path_call2_at(a, j + i + 1, segs, ns) && n == 1 + 3 * segs.len() + call_args_len(ns);
        assert(path_call2_at(b, i + 1, segs, ns));
    }
    assert(crate::parser::item::name_at(b, i) == crate::parser::item::name_at(a, j + i));
    assert forall|e: Expression| #[trigger] call_of_tokens(b, i, n, e) == call_of_tokens(a, j + i, n, e) by {
        if call_of_tokens(b, i, n, e) {
            let (segs, ns) = choose|segs: Seq<Seq<char>>, ns: Seq<nat>|
                #[trigger] path_call2_at(b, i + 1, segs, ns) && n == 1 + 3 * segs.len() + call_args_len(ns) && (
                e matches Expression::FnCall { path, params } && single_name_start(
                    path.start,
                    crate::parser::item::name_at(b, i),
                ) && names(path.other@) == segs && args2_of_tokens(b, i + 1 + 3 * segs.len(), ns, params@));
            lemma_path_call2_shift(a, b, j, i + 1, segs, ns);
            assert(j + (i + 1) + 3 * segs.len() == j + i + 1 + 3 * segs.len());
            assert(path_call2_at(a, j + i + 1, segs, ns));
        }
        if call_of_tokens(a, j + i, n, e) {
            let (segs, ns) = choose|segs: Seq<Seq<char>>, ns: Seq<nat>|
                #[trigger] path_call2_at(a, j + i + 1, segs, ns) && n == 1 + 3 * segs.len() + call_args_len(ns) && (
                e matches Expression::FnCall { path, params } && single_name_start(
                    path.start,
                    crate::parser::item::name_at(a, j + i),
                ) && names(path.other@) == segs && args2_of_tokens(a, j + i + 1 + 3 * segs.len(), ns, params@));
            lemma_path_call2_shift(a, b, j, i + 1, segs, ns);
            assert(j + (i + 1) + 3 * segs.len() == j + i + 1 + 3 * segs.len());
            assert(path_call2_at(b, i + 1, segs, ns));
        }
    }
}

/// The token after the first name of a call by itself is `:` or `(`.
proof fn lemma_call_second_token(p: &FileParser, j: nat, n: nat)
    requires
        call_expression_at(p, j, n),
    ensures
        p.tokens(j + 1) == punct_token(Punctuation::Colon) || p.tokens(j + 1) == punct_token(
            Punctuation::LParent,
        ),
{
    let (segs, ns) = choose|segs: Seq<Seq<char>>, ns: Seq<nat>|
        #[trigger] path_call2_at(p, j + 1, segs, ns) && n == 1 + 3 * segs.len() + call_args_len(ns);
    lemma_path_second_token(p, j + 1, segs, ns);
}

/// The first token of path segments and call arguments after them is `:` or `(`.
proof fn lemma_path_second_token(p: &FileParser, j: nat, segs: Seq<Seq<char>>, ns: Seq<nat>)
    requires
        path_segments(p, j, segs),
        p.tokens(j + 3 * segs.len()) == punct_token(Punctuation::LParent),
    ensures
        p.tokens(j) == punct_token(Punctuation::Colon) || p.tokens(j) == punct_token(Punctuation::LParent),
{
    if segs.len() > 0 {
        assert(p.tokens((j + 3 * 0) as nat) == punct_token(Punctuation::Colon)) by {
            assert(segs[0] == segs[0]);
        }
    }
}

/// A call by itself has one length.
#[verifier::rlimit(50)]
proof fn lemma_call_length_unique(p: &FileParser, j: nat, n: nat, m: nat)
    requires
        call_expression_at(p, j, n),
        call_expression_at(p, j, m),
    ensures
        n == m,
{
    let (segs, ns) = choose|segs: Seq<Seq<char>>, ns: Seq<nat>|
        #[trigger] path_call2_at(p, j + 1, segs, ns) && n == 1 + 3 * segs.len() + call_args_len(ns);
    let (segs2, ns2) = choose|segs: Seq<Seq<char>>, ns: Seq<nat>|
        #[trigger] path_call2_at(p, j + 1, segs, ns) && m == 1 + 3 * segs.len() + call_args_len(ns);
    lemma_path_segments_unique(p, j + 1, segs, segs2);
    lemma_call_args2_unique(p, j + 1 + 3 * segs.len(), ns, ns2);
}

/// A call by itself has one length, and where it starts, no operator expression of single-token
/// operands and no assignment does.
pub proof fn lemma_call_unique(p: &FileParser, j: nat, n: nat, m: nat)
    requires
        call_expression_at(p, j, n),
    ensures
        call_expression_at(p, j, m) ==> n == m,
        !token_expression_at(p, j, m),
        !crate::parser::operator_expression::infix::assignment_tokens_at(p, j, m),
        p.tokens(j + 1) == punct_token(Punctuation::Colon) || p.tokens(j + 1) == punct_token(
            Punctuation::LParent,
        ),
{
    lemma_call_second_token(p, j, n);
    if call_expression_at(p, j, m) {
        lemma_call_length_unique(p, j, n, m);
    }
    if token_expression_at(p, j, m) {
        if m >= 1 {
            crate::parser::operator_expression::infix::lemma_token_run_at_prefix(p, j, 1, m);
            assert(crate::parser::operator_expression::infix::token_run_at(p, j, 0) == Some((false, 0nat)));
            assert(p.tokens(j + (1 - 1) as nat) == p.tokens(j));
            assert(p.tokens(j + 1) == p.tokens(j + 1nat));
        }
    }
    if let Ok(SpecToken::Punctuation(q)) = p.tokens(j + 1) {
        crate::parser::operator_expression::infix::lemma_operator_punctuation(q);
    }
}

/// An expression as [expression_at] has it has one length and at least one token; it starts
/// with a token other than `}` and other than a keyword but `true` and `false`, and no
/// assignment starts where it does.
pub proof fn lemma_expression_facts(p: &FileParser, j: nat, n: nat, m: nat, l: nat)
    requires
        expression_at(p, j, n),
    ensures
        n >= 1,
        expression_at(p, j, m) ==> n == m,
        !crate::parser::operator_expression::infix::assignment_tokens_at(p, j, l),
        p.tokens(j) matches Ok(t) && t != SpecToken::Punctuation(Punctuation::RBrace) && !(t matches SpecToken::Keyword(k)
            && k != Keyword::True && k != Keyword::False),
{
    if call_expression_at(p, j, n) {
        lemma_call_unique(p, j, n, m);
        lemma_call_unique(p, j, n, l);
        let (segs, ns) = choose|segs: Seq<Seq<char>>, ns: Seq<nat>|
            #[trigger] path_call2_at(p, j + 1, segs, ns) && n == 1 + 3 * segs.len() + call_args_len(ns);
    } else {
        lemma_expression_first(p, j, n);
        assert(crate::parser::operator_expression::infix::token_run_at(p, j, 0) == Some((false, 0nat)));
        assert(p.tokens(j + (1 - 1) as nat) == p.tokens(j));
        if expression_at(p, j, m) {
            if call_expression_at(p, j, m) {
                lemma_call_unique(p, j, m, n);
            } else {
                lemma_token_expression_at_unique(p, j, n, m);
            }
        }
        if crate::parser::operator_expression::infix::assignment_tokens_at(p, j, l) {
            lemma_assignment_not_expression(p, j, l, n);
        }
    }
}

/// `start` begins a path whose first segment is the name `name`: `super` once, `crate`, or the
/// name itself.
pub open spec fn single_name_start(start: RelativePathStart, name: Seq<char>) -> bool {
    if name == seq!['s', 'u', 'p', 'e', 'r'] {
        start == RelativePathStart::Super(1)
    } else if name == seq!['c', 'r', 'a', 't', 'e'] {
        start is Crate
    } else {
        start matches RelativePathStart::Identifier(id) && id@ == name
    }
}

/// Position right after a block that starts after the `j`-th token.
pub open spec fn after_block(j: nat, lens: Seq<nat>, tail: nat) -> nat {
    j + 1 + lens_sum(lens) + tail + 1
}

/// The tokens of `p` are an `if` after its keyword: a condition of `n` tokens as [expression_at]
/// has it, `{`, the rest of a block, and either no `else` or `else`, `{` and the rest of another
/// block.
pub open spec fn if_tokens(
    p: &FileParser,
    n: nat,
    lens: Seq<nat>,
    tail: nat,
    other: Option<(Seq<nat>, nat)>,
) -> bool {
    let e = after_block(n, lens, tail);
    &&& expression_at(p, 0, n)
    &&& p.tokens(n) == punct_token(Punctuation::LBrace)
    &&& block_tokens_at(p, n + 1, lens, tail)
    &&& match other {
        None => p.tokens(e) is Ok && p.tokens(e) != Ok::<SpecToken, SpecLexerError>(
            SpecToken::Keyword(Keyword::Else),
        ),
        Some((l2, t2)) => {
            &&& p.tokens(e) == Ok::<SpecToken, SpecLexerError>(SpecToken::Keyword(Keyword::Else))
            &&& p.tokens(e + 1) == punct_token(Punctuation::LBrace)
            &&& block_tokens_at(p, e + 2, l2, t2)
        },
    }
}

/// Where the `i`-th argument of a call starts, counted from the first: the arguments before it
/// and a comma after each.
pub open spec fn arg_start(ns: Seq<nat>, i: int) -> nat {
    lens_sum(ns.take(i)) + i as nat
}

/// From the `j`-th token of `p` on: `(`, then arguments that are operator expressions of single-
/// token operands, of `ns[i]` tokens each, separated by commas, then `)`.
pub open spec fn call_args_at(p: &FileParser, j: nat, ns: Seq<nat>) -> bool {
    &&& p.tokens(j) == punct_token(Punctuation::LParent)
    &&& ns.len() == 0 ==> p.tokens(j + 1) == punct_token(Punctuation::RParent)
    &&& forall|i: int|
        #![trigger ns[i]]
        0 <= i < ns.len() ==> {
            &&& token_expression_at(p, j + 1 + arg_start(ns, i), ns[i])
            &&& p.tokens(j + 1 + arg_start(ns, i) + ns[i]) == punct_token(
                if i < ns.len() - 1 {
                    Punctuation::Comma
                } else {
                    Punctuation::RParent
                },
            )
        }
}

/// Tokens that such arguments take, parentheses included.
pub open spec fn call_args_len(ns: Seq<nat>) -> nat {
    if ns.len() == 0 {
        2
    } else {
        1 + arg_start(ns, ns.len() as int)
    }
}

/// The arguments read from such tokens.
pub open spec fn args_of_tokens(p: &FileParser, j: nat, ns: Seq<nat>, params: Seq<Expression>) -> bool {
    &&& params.len() == ns.len()
    &&& forall|i: int|
        #![trigger params[i]]
        0 <= i < ns.len() ==> tree_of_tokens(p, j + 1 + arg_start(ns, i), ns[i], params[i])
}

/// Such arguments read from a parser `j` tokens further on, from its `i`-th token, are the ones
/// read from the `j + i`-th token on.
pub proof fn lemma_call_args_shift(a: &FileParser, b: &FileParser, j: nat, i: nat, ns: Seq<nat>)
    requires
        FileParser::skipped(a, b, j),
    ensures
        call_args_at(b, i, ns) == call_args_at(a, j + i, ns),
        forall|params: Seq<Expression>| #[trigger] args_of_tokens(b, i, ns, params) == args_of_tokens(a, j + i, ns, params),
{
    assert(b.tokens(i) == a.tokens(i + j));
    assert(b.tokens(i + 1) == a.tokens(i + 1 + j));
    assert forall|k: int| 0 <= k < ns.len() implies (token_expression_at(b, i + 1 + arg_start(ns, k), #[trigger] ns[k])
        == token_expression_at(a, (j + i) + 1 + arg_start(ns, k), ns[k]) && b.tokens(i + 1 + arg_start(ns, k) + ns[k])
        == a.tokens((j + i) + 1 + arg_start(ns, k) + ns[k]) && forall|e: Expression| #[trigger] tree_of_tokens(
        b,
        i + 1 + arg_start(ns, k),
        ns[k],
        e,
    ) == tree_of_tokens(a, (j + i) + 1 + arg_start(ns, k), ns[k], e)) by {
        crate::parser::operator_expression::infix::lemma_tree_of_tokens_shift(a, b, j, i + 1 + arg_start(ns, k), ns[k]);
        assert(b.tokens(i + 1 + arg_start(ns, k) + ns[k]) == a.tokens(i + 1 + arg_start(ns, k) + ns[k] + j));
    }
}

/// Two divisions of call arguments agree on their first `k` arguments.
proof fn lemma_call_args_prefix(p: &FileParser, j: nat, ns1: Seq<nat>, ns2: Seq<nat>, k: int)
    requires
        call_args_at(p, j, ns1),
        call_args_at(p, j, ns2),
        0 <= k <= ns1.len(),
        k <= ns2.len(),
    ensures
        ns1.take(k) == ns2.take(k),
    decreases k,
{
    if k > 0 {
        lemma_call_args_prefix(p, j, ns1, ns2, k - 1);
        assert(token_expression_at(p, j + 1 + arg_start(ns1, k - 1), ns1[k - 1]));
        assert(token_expression_at(p, j + 1 + arg_start(ns2, k - 1), ns2[k - 1]));
        crate::parser::operator_expression::infix::lemma_token_expression_at_unique(
            p,
            j + 1 + arg_start(ns1, k - 1),
            ns1[k - 1],
            ns2[k - 1],
        );
        assert(ns1.take(k) =~= ns1.take(k - 1).push(ns1[k - 1]));
        assert(ns2.take(k) =~= ns2.take(k - 1).push(ns2[k - 1]));
    }
}

/// Call arguments divide in one way only.
pub proof fn lemma_call_args_unique(p: &FileParser, j: nat, ns1: Seq<nat>, ns2: Seq<nat>)
    requires
        call_args_at(p, j, ns1),
        call_args_at(p, j, ns2),
    ensures
        ns1 == ns2,
{
    if ns1.len() == 0 && ns2.len() > 0 {
        assert(ns2.take(0) =~= Seq::<nat>::empty());
        assert(arg_start(ns2, 0) == 0);
        assert(token_expression_at(p, j + 1 + arg_start(ns2, 0), ns2[0]));
        assert(p.tokens(j + 1) == punct_token(Punctuation::RParent));
        crate::parser::operator_expression::infix::lemma_expression_first(p, j + 1, ns2[0]);
        assert(crate::parser::operator_expression::infix::token_run_at(p, j + 1, 0) == Some((false, 0nat)));
        assert(p.tokens(j + 1 + (1 - 1) as nat) == p.tokens(j + 1));
        assert(false);
    } else if ns2.len() == 0 && ns1.len() > 0 {
        assert(ns1.take(0) =~= Seq::<nat>::empty());
        assert(arg_start(ns1, 0) == 0);
        assert(token_expression_at(p, j + 1 + arg_start(ns1, 0), ns1[0]));
        assert(p.tokens(j + 1) == punct_token(Punctuation::RParent));
        crate::parser::operator_expression::infix::lemma_expression_first(p, j + 1, ns1[0]);
        assert(crate::parser::operator_expression::infix::token_run_at(p, j + 1, 0) == Some((false, 0nat)));
        assert(p.tokens(j + 1 + (1 - 1) as nat) == p.tokens(j + 1));
        assert(false);
    } else if ns1.len() < ns2.len() {
        let k = ns1.len() as int;
        lemma_call_args_prefix(p, j, ns1, ns2, k);
        assert(ns1.take(k - 1) =~= ns2.take(k - 1)) by {
            assert(ns1.take(k - 1) =~= ns1.take(k).take(k - 1));
            assert(ns2.take(k - 1) =~= ns2.take(k).take(k - 1));
        }
        assert(ns1[k - 1] == ns1.take(k)[k - 1]);
        assert(ns2[k - 1] == ns2.take(k)[k - 1]);
        assert(ns1[k - 1] == ns2[k - 1]);
        assert(arg_start(ns1, k - 1) == arg_start(ns2, k - 1));
        assert(p.tokens(j + 1 + arg_start(ns1, k - 1) + ns1[k - 1]) == punct_token(Punctuation::RParent));
        assert(p.tokens(j + 1 + arg_start(ns2, k - 1) + ns2[k - 1]) == punct_token(Punctuation::Comma));
    } else if ns2.len() < ns1.len() {
        let k = ns2.len() as int;
        lemma_call_args_prefix(p, j, ns1, ns2, k);
        assert(ns1.take(k - 1) =~= ns2.take(k - 1)) by {
            assert(ns1.take(k - 1) =~= ns1.take(k).take(k - 1));
            assert(ns2.take(k - 1) =~= ns2.take(k).take(k - 1));
        }
        assert(ns1[k - 1] == ns1.take(k)[k - 1]);
        assert(ns2[k - 1] == ns2.take(k)[k - 1]);
        assert(ns1[k - 1] == ns2[k - 1]);
        assert(arg_start(ns1, k - 1) == arg_start(ns2, k - 1));
        assert(p.tokens(j + 1 + arg_start(ns2, k - 1) + ns2[k - 1]) == punct_token(Punctuation::RParent));
        assert(p.tokens(j + 1 + arg_start(ns1, k - 1) + ns1[k - 1]) == punct_token(Punctuation::Comma));
    } else {
        let k = ns1.len() as int;
        lemma_call_args_prefix(p, j, ns1, ns2, k);
        assert(ns1.take(k) =~= ns1);
        assert(ns2.take(k) =~= ns2);
    }
}

/// [call_args_at] with arguments as [arg_expression_at] has them: operator expressions of
/// single-token operands, or calls of paths by themselves.
pub open spec fn call_args2_at(p: &FileParser, j: nat, ns: Seq<nat>) -> bool {
    &&& p.tokens(j) == punct_token(Punctuation::LParent)
    &&& ns.len() == 0 ==> p.tokens(j + 1) == punct_token(Punctuation::RParent)
    &&& forall|i: int|
        #![trigger ns[i]]
        0 <= i < ns.len() ==> {
            &&& arg_expression_at(p, j + 1 + arg_start(ns, i), ns[i])
            &&& p.tokens(j + 1 + arg_start(ns, i) + ns[i]) == punct_token(
                if i < ns.len() - 1 {
                    Punctuation::Comma
                } else {
                    Punctuation::RParent
                },
            )
        }
}

/// The arguments read from such tokens.
pub open spec fn args2_of_tokens(p: &FileParser, j: nat, ns: Seq<nat>, params: Seq<Expression>) -> bool {
    &&& params.len() == ns.len()
    &&& forall|i: int|
        #![trigger params[i]]
        0 <= i < ns.len() ==> arg_expression_of(p, j + 1 + arg_start(ns, i), ns[i], params[i])
}

/// Path segments from the `j`-th token of `p` on, as [path_segments] has them, then call
/// arguments as [call_args2_at] has them.
pub open spec fn path_call2_at(p: &FileParser, j: nat, segs: Seq<Seq<char>>, ns: Seq<nat>) -> bool {
    path_segments(p, j, segs) && call_args2_at(p, j + 3 * segs.len(), ns)
}

/// Such arguments read from a parser `j` tokens further on, from its `i`-th token, are the ones
/// read from the `j + i`-th token on.
pub proof fn lemma_call_args2_shift(a: &FileParser, b: &FileParser, j: nat, i: nat, ns: Seq<nat>)
    requires
        FileParser::skipped(a, b, j),
    ensures
        call_args2_at(b, i, ns) == call_args2_at(a, j + i, ns),
        forall|params: Seq<Expression>| #[trigger] args2_of_tokens(b, i, ns, params) == args2_of_tokens(a, j + i, ns, params),
{
    assert(b.tokens(i) == a.tokens(i + j));
    assert(b.tokens(i + 1) == a.tokens(i + 1 + j));
    assert forall|k: int| 0 <= k < ns.len() implies (arg_expression_at(b, i + 1 + arg_start(ns, k), #[trigger] ns[k])
        == arg_expression_at(a, (j + i) + 1 + arg_start(ns, k), ns[k]) && b.tokens(i + 1 + arg_start(ns, k) + ns[k])
        == a.tokens((j + i) + 1 + arg_start(ns, k) + ns[k]) && forall|e: Expression| #[trigger] arg_expression_of(
        b,
        i + 1 + arg_start(ns, k),
        ns[k],
        e,
    ) == arg_expression_of(a, (j + i) + 1 + arg_start(ns, k), ns[k], e)) by {
        lemma_call1_shift(a, b, j, i + 1 + arg_start(ns, k), ns[k]);
        assert(b.tokens(i + 1 + arg_start(ns, k) + ns[k]) == a.tokens(i + 1 + arg_start(ns, k) + ns[k] + j));
    }
}

/// Path segments and such arguments read from a parser one token further on are the ones read
/// from the first token on.
pub proof fn lemma_path2_shift(a: &FileParser, b: &FileParser, segs: Seq<Seq<char>>, ns: Seq<nat>)
    requires
        FileParser::skipped(a, b, 1),
    ensures
        path_call2_at(b, 0, segs, ns) == path_call2_at(a, 1, segs, ns),
        forall|params: Seq<Expression>|
            #[trigger] args2_of_tokens(b, 3 * segs.len(), ns, params) == args2_of_tokens(
                a,
                1 + 3 * segs.len(),
                ns,
                params,
            ),
{
    lemma_path_call_shift(a, b, 1, 0, segs, ns);
    lemma_call_args2_shift(a, b, 1, 3 * segs.len(), ns);
    assert(0 + 3 * segs.len() == 3 * segs.len());
    assert(1 + 0 == 1nat);
}

/// Segments and such arguments read from a parser `j` tokens further on, from its `i`-th token,
/// are the ones read from the `j + i`-th token on.
pub proof fn lemma_path_call2_shift(a: &FileParser, b: &FileParser, j: nat, i: nat, segs: Seq<Seq<char>>, ns: Seq<nat>)
    requires
        FileParser::skipped(a, b, j),
    ensures
        path_segments(b, i, segs) == path_segments(a, j + i, segs),
        path_call2_at(b, i, segs, ns) == path_call2_at(a, j + i, segs, ns),
        forall|params: Seq<Expression>|
            #[trigger] args2_of_tokens(b, i + 3 * segs.len(), ns, params) == args2_of_tokens(
                a,
                j + i + 3 * segs.len(),
                ns,
                params,
            ),
{
    lemma_path_call_shift(a, b, j, i, segs, ns);
    lemma_call_args2_shift(a, b, j, i + 3 * segs.len(), ns);
    assert(j + (i + 3 * segs.len()) == j + i + 3 * segs.len());
}

/// An argument as [arg_expression_at] has it is an expression as [expression_at] has it, read
/// the same.
pub proof fn lemma_arg_covers(p: &FileParser, j: nat, n: nat)
    requires
        arg_expression_at(p, j, n),
    ensures
        expression_at(p, j, n),
        forall|e: Expression| #[trigger] expression_of(p, j, n, e) ==> arg_expression_of(p, j, n, e),
{
    if call1_expression_at(p, j, n) {
        let (segs, ns) = choose|segs: Seq<Seq<char>>, ns: Seq<nat>|
            #[trigger] path_call_at(p, j + 1, segs, ns) && n == 1 + 3 * segs.len() + call_args_len(ns);
        lemma_call_args_covers(p, j + 1 + 3 * segs.len(), ns);
        assert(path_call2_at(p, j + 1, segs, ns));
        assert(call_expression_at(p, j, n));
        assert forall|e: Expression| #[trigger] expression_of(p, j, n, e) implies arg_expression_of(p, j, n, e) by {
            let (s2, n2) = choose|segs: Seq<Seq<char>>, ns: Seq<nat>|
                #[trigger] path_call2_at(p, j + 1, segs, ns) && n == 1 + 3 * segs.len() + call_args_len(ns) && (
                e matches Expression::FnCall { path, params } && single_name_start(
                    path.start,
                    crate::parser::item::name_at(p, j),
                ) && names(path.other@) == segs && args2_of_tokens(p, j + 1 + 3 * segs.len(), ns, params@));
            lemma_path_segments_unique(p, j + 1, s2, segs);
            lemma_call_args2_unique(p, j + 1 + 3 * segs.len(), n2, ns);
        }
    } else {
        if call_expression_at(p, j, n) {
            lemma_call_unique(p, j, n, n);
        }
    }
}

/// A call read from its first name on, as [path_call2_at] has it, is what the rest of it read
/// after that name gives.
proof fn lemma_call_from_name(
    a: &FileParser,
    b: &FileParser,
    c: &FileParser,
    name: Seq<char>,
    r: Result<Expression, crate::parser::ParserError>,
)
    requires
        FileParser::skipped(a, b, 1),
        forall|segs: Seq<Seq<char>>, ns: Seq<nat>|
            #[trigger] path_call2_at(b, 0, segs, ns) ==> (r matches Ok(Expression::FnCall { path, params })
                && single_name_start(path.start, name) && names(path.other@) == segs && args2_of_tokens(
                b,
                3 * segs.len(),
                ns,
                params@,
            )) && FileParser::skipped(b, c, 3 * segs.len() + call_args_len(ns)) && c.spec_pending()
                == b.spec_pending(),
    ensures
        forall|segs: Seq<Seq<char>>, ns: Seq<nat>|
            #[trigger] path_call2_at(a, 1, segs, ns) ==> (r matches Ok(Expression::FnCall { path, params })
                && single_name_start(path.start, name) && names(path.other@) == segs && args2_of_tokens(
                a,
                1 + 3 * segs.len(),
                ns,
                params@,
            )) && FileParser::skipped(a, c, 1 + 3 * segs.len() + call_args_len(ns)) && c.spec_pending()
                == b.spec_pending(),
{
    assert forall|segs: Seq<Seq<char>>, ns: Seq<nat>| #[trigger] path_call2_at(a, 1, segs, ns) implies (r matches Ok(
        Expression::FnCall { path, params },
    ) && single_name_start(path.start, name) && names(path.other@) == segs && args2_of_tokens(
        a,
        1 + 3 * segs.len(),
        ns,
        params@,
    )) && FileParser::skipped(a, c, 1 + 3 * segs.len() + call_args_len(ns)) && c.spec_pending() == b.spec_pending() by {
        lemma_path2_shift(a, b, segs, ns);
        assert(path_call2_at(b, 0, segs, ns));
        FileParser::lemma_skipped_trans(a, b, c, 1, 3 * segs.len() + call_args_len(ns));
    }
}

/// A call read from its first name on, as [path_call_at] has it, is what the rest of it read
/// after that name gives.
proof fn lemma_token_call_from_name(
    a: &FileParser,
    b: &FileParser,
    c: &FileParser,
    name: Seq<char>,
    r: Result<Expression, crate::parser::ParserError>,
)
    requires
        FileParser::skipped(a, b, 1),
        forall|segs: Seq<Seq<char>>, ns: Seq<nat>|
            #[trigger] path_call_at(b, 0, segs, ns) ==> (r matches Ok(Expression::FnCall { path, params })
                && single_name_start(path.start, name) && names(path.other@) == segs && args_of_tokens(
                b,
                3 * segs.len(),
                ns,
                params@,
            )) && FileParser::skipped(b, c, 3 * segs.len() + call_args_len(ns)) && c.spec_pending()
                == b.spec_pending(),
    ensures
        forall|segs: Seq<Seq<char>>, ns: Seq<nat>|
            #[trigger] path_call_at(a, 1, segs, ns) ==> (r matches Ok(Expression::FnCall { path, params })
                && single_name_start(path.start, name) && names(path.other@) == segs && args_of_tokens(
                a,
                1 + 3 * segs.len(),
                ns,
                params@,
            )) && FileParser::skipped(a, c, 1 + 3 * segs.len() + call_args_len(ns)) && c.spec_pending()
                == b.spec_pending(),
{
    assert forall|segs: Seq<Seq<char>>, ns: Seq<nat>| #[trigger] path_call_at(a, 1, segs, ns) implies (r matches Ok(
        Expression::FnCall { path, params },
    ) && single_name_start(path.start, name) && names(path.other@) == segs && args_of_tokens(
        a,
        1 + 3 * segs.len(),
        ns,
        params@,
    )) && FileParser::skipped(a, c, 1 + 3 * segs.len() + call_args_len(ns)) && c.spec_pending() == b.spec_pending() by {
        lemma_path_shift(a, b, segs, ns);
        assert(path_call_at(b, 0, segs, ns));
        FileParser::lemma_skipped_trans(a, b, c, 1, 3 * segs.len() + call_args_len(ns));
    }
}

/// An expression as [arg_expression_at] has it does not start with `)`.
proof fn lemma_expression_not_rparent(p: &FileParser, j: nat, n: nat)
    requires
        arg_expression_at(p, j, n),
    ensures
        p.tokens(j) != punct_token(Punctuation::RParent),
        p.tokens(j) is Ok,
{
    lemma_arg_expression_facts(p, j, n, n, 0);
    if !call1_expression_at(p, j, n) {
        crate::parser::operator_expression::infix::lemma_expression_first(p, j, n);
        assert(crate::parser::operator_expression::infix::token_run_at(p, j, 0) == Some((false, 0nat)));
        assert(p.tokens(j + (1 - 1) as nat) == p.tokens(j));
    }
}

/// Two divisions of such arguments agree on their first `k` arguments.
proof fn lemma_call_args2_prefix(p: &FileParser, j: nat, ns1: Seq<nat>, ns2: Seq<nat>, k: int)
    requires
        call_args2_at(p, j, ns1),
        call_args2_at(p, j, ns2),
        0 <= k <= ns1.len(),
        k <= ns2.len(),
    ensures
        ns1.take(k) == ns2.take(k),
    decreases k,
{
    if k > 0 {
        lemma_call_args2_prefix(p, j, ns1, ns2, k - 1);
        assert(arg_expression_at(p, j + 1 + arg_start(ns1, k - 1), ns1[k - 1]));
        assert(arg_expression_at(p, j + 1 + arg_start(ns2, k - 1), ns2[k - 1]));
        lemma_arg_expression_facts(p, j + 1 + arg_start(ns1, k - 1), ns1[k - 1], ns2[k - 1], 0);
        assert(ns1.take(k) =~= ns1.take(k - 1).push(ns1[k - 1]));
        assert(ns2.take(k) =~= ns2.take(k - 1).push(ns2[k - 1]));
    }
}

/// Such arguments divide in one way only.
pub proof fn lemma_call_args2_unique(p: &FileParser, j: nat, ns1: Seq<nat>, ns2: Seq<nat>)
    requires
        call_args2_at(p, j, ns1),
        call_args2_at(p, j, ns2),
    ensures
        ns1 == ns2,
{
    if ns1.len() == 0 && ns2.len() > 0 {
        assert(ns2.take(0) =~= Seq::<nat>::empty());
        assert(arg_start(ns2, 0) == 0);
        assert(arg_expression_at(p, j + 1 + arg_start(ns2, 0), ns2[0]));
        lemma_expression_not_rparent(p, j + 1, ns2[0]);
    } else if ns2.len() == 0 && ns1.len() > 0 {
        assert(ns1.take(0) =~= Seq::<nat>::empty());
        assert(arg_start(ns1, 0) == 0);
        assert(arg_expression_at(p, j + 1 + arg_start(ns1, 0), ns1[0]));
        lemma_expression_not_rparent(p, j + 1, ns1[0]);
    } else if ns1.len() < ns2.len() {
        let k = ns1.len() as int;
        lemma_call_args2_prefix(p, j, ns1, ns2, k);
        assert(ns1.take(k - 1) =~= ns2.take(k - 1)) by {
            assert(ns1.take(k - 1) =~= ns1.take(k).take(k - 1));
            assert(ns2.take(k - 1) =~= ns2.take(k).take(k - 1));
        }
        assert(ns1[k - 1] == ns1.take(k)[k - 1]);
        assert(ns2[k - 1] == ns2.take(k)[k - 1]);
        assert(arg_start(ns1, k - 1) == arg_start(ns2, k - 1));
        assert(p.tokens(j + 1 + arg_start(ns1, k - 1) + ns1[k - 1]) == punct_token(Punctuation::RParent));
        assert(p.tokens(j + 1 + arg_start(ns2, k - 1) + ns2[k - 1]) == punct_token(Punctuation::Comma));
    } else if ns2.len() < ns1.len() {
        let k = ns2.len() as int;
        lemma_call_args2_prefix(p, j, ns1, ns2, k);
        assert(ns1.take(k - 1) =~= ns2.take(k - 1)) by {
            assert(ns1.take(k - 1) =~= ns1.take(k).take(k - 1));
            assert(ns2.take(k - 1) =~= ns2.take(k).take(k - 1));
        }
        assert(ns1[k - 1] == ns1.take(k)[k - 1]);
        assert(ns2[k - 1] == ns2.take(k)[k - 1]);
        assert(arg_start(ns1, k - 1) == arg_start(ns2, k - 1));
        assert(p.tokens(j + 1 + arg_start(ns2, k - 1) + ns2[k - 1]) == punct_token(Punctuation::RParent));
        assert(p.tokens(j + 1 + arg_start(ns1, k - 1) + ns1[k - 1]) == punct_token(Punctuation::Comma));
    } else {
        let k = ns1.len() as int;
        lemma_call_args2_prefix(p, j, ns1, ns2, k);
        assert(ns1.take(k) =~= ns1);
        assert(ns2.take(k) =~= ns2);
    }
}

/// Arguments as [call_args_at] has them are ones as [call_args2_at] has them, read the same.
pub proof fn lemma_call_args_covers(p: &FileParser, j: nat, ns: Seq<nat>)
    requires
        call_args_at(p, j, ns),
    ensures
        call_args2_at(p, j, ns),
        forall|params: Seq<Expression>| #[trigger] args2_of_tokens(p, j, ns, params) ==> args_of_tokens(p, j, ns, params),
{
    assert forall|i: int| 0 <= i < ns.len() implies !call1_expression_at(p, j + 1 + arg_start(ns, i), #[trigger] ns[i]) by {
        if call1_expression_at(p, j + 1 + arg_start(ns, i), ns[i]) {
            lemma_call1_unique(p, j + 1 + arg_start(ns, i), ns[i], ns[i]);
        }
    }
}

/// A statement from the `j`-th token on has one length.
pub proof fn lemma_statement_unique(p: &FileParser, j: nat, l1: nat, l2: nat)
    requires
        statement_tokens(p, j, l1),
        statement_tokens(p, j, l2),
    ensures
        l1 == l2,
{
    reveal(statement_tokens);
    match p.tokens(j) {
        Ok(SpecToken::Keyword(Keyword::Break)) => {},
        Ok(SpecToken::Keyword(Keyword::Return)) => {
            lemma_expression_facts(p, j + 1, (l1 - 2) as nat, (l2 - 2) as nat, 0);
        },
        Ok(SpecToken::Keyword(Keyword::Let)) => {
            crate::parser::statement::lemma_let_unique(p, j + 1, (l1 - 1) as nat, (l2 - 1) as nat);
        },
        _ => {
            if assignment_statement_tokens(p, j, l1) {
                if assignment_statement_tokens(p, j, l2) {
                    lemma_token_expression_at_unique(p, j + 2, (l1 - 3) as nat, (l2 - 3) as nat);
                } else {
                    lemma_expression_facts(p, j, (l2 - 1) as nat, (l2 - 1) as nat, (l1 - 3) as nat);
                }
            } else if assignment_statement_tokens(p, j, l2) {
                lemma_expression_facts(p, j, (l1 - 1) as nat, (l1 - 1) as nat, (l2 - 3) as nat);
            } else {
                lemma_expression_facts(p, j, (l1 - 1) as nat, (l2 - 1) as nat, 0);
            }
        },
    }
}

/// Where a statement starts, a block does not end, and where it ends, its end has one length.
pub proof fn lemma_block_end_unique(p: &FileParser, j: nat, l: nat, t1: nat, t2: nat)
    requires
        block_end_tokens(p, j, t1),
    ensures
        !statement_tokens(p, j, l),
        block_end_tokens(p, j, t2) ==> t1 == t2,
{
    reveal(statement_tokens);
    reveal(block_end_tokens);
    if t1 > 0 {
        lemma_expression_facts(p, j, t1, t1, 0);
    }
    if t2 > 0 && block_end_tokens(p, j, t2) {
        lemma_expression_facts(p, j, t2, t2, 0);
        if t1 > 0 {
            lemma_expression_facts(p, j, t1, t2, 0);
        }
    }
    if statement_tokens(p, j, l) {
        match p.tokens(j) {
            Ok(SpecToken::Keyword(Keyword::Break)) => {},
            Ok(SpecToken::Keyword(Keyword::Return)) => {},
            Ok(SpecToken::Keyword(Keyword::Let)) => {},
            _ => {
                if assignment_statement_tokens(p, j, l) {
                    if t1 > 0 {
                        lemma_expression_facts(p, j, t1, t1, (l - 3) as nat);
                    }
                } else {
                    lemma_expression_facts(p, j, (l - 1) as nat, (l - 1) as nat, 0);
                    if t1 > 0 {
                        lemma_expression_facts(p, j, t1, (l - 1) as nat, 0);
                    }
                }
            },
        }
    }
}

/// Two divisions of the tokens into the statements of a block agree on their first `i`
/// statements.
proof fn lemma_block_prefix(p: &FileParser, lens1: Seq<nat>, tail1: nat, lens2: Seq<nat>, tail2: nat, i: int)
    requires
        block_tokens(p, lens1, tail1),
        block_tokens(p, lens2, tail2),
        0 <= i <= lens1.len(),
        i <= lens2.len(),
    ensures
        lens1.take(i) == lens2.take(i),
    decreases i,
{
    if i > 0 {
        lemma_block_prefix(p, lens1, tail1, lens2, tail2, i - 1);
        assert(statement_tokens(p, lens_sum(lens1.take(i - 1)), lens1[i - 1]));
        assert(statement_tokens(p, lens_sum(lens2.take(i - 1)), lens2[i - 1]));
        lemma_statement_unique(p, lens_sum(lens1.take(i - 1)), lens1[i - 1], lens2[i - 1]);
        assert(lens1.take(i) =~= lens1.take(i - 1).push(lens1[i - 1]));
        assert(lens2.take(i) =~= lens2.take(i - 1).push(lens2[i - 1]));
    }
}

/// The tokens of a block divide into its statements and its value in one way only.
pub proof fn lemma_block_unique(p: &FileParser, lens1: Seq<nat>, tail1: nat, lens2: Seq<nat>, tail2: nat)
    requires
        block_tokens(p, lens1, tail1),
        block_tokens(p, lens2, tail2),
    ensures
        lens1 == lens2,
        tail1 == tail2,
{
    if lens1.len() < lens2.len() {
        let k = lens1.len() as int;
        lemma_block_prefix(p, lens1, tail1, lens2, tail2, k);
        assert(lens1.take(k) =~= lens1);
        assert(statement_tokens(p, lens_sum(lens2.take(k)), lens2[k]));
        lemma_block_end_unique(p, lens_sum(lens1), lens2[k], tail1, tail2);
    } else if lens2.len() < lens1.len() {
        let k = lens2.len() as int;
        lemma_block_prefix(p, lens1, tail1, lens2, tail2, k);
        assert(lens2.take(k) =~= lens2);
        assert(statement_tokens(p, lens_sum(lens1.take(k)), lens1[k]));
        lemma_block_end_unique(p, lens_sum(lens2), lens1[k], tail2, tail1);
    } else {
        let k = lens1.len() as int;
        lemma_block_prefix(p, lens1, tail1, lens2, tail2, k);
        assert(lens1.take(k) =~= lens1);
        assert(lens2.take(k) =~= lens2);
        lemma_block_end_unique(p, lens_sum(lens1), 0, tail1, tail2);
    }
}

/// Two divisions of the tokens from the `j`-th on into the statements of a block agree on their
/// first `i` statements.
proof fn lemma_block_prefix_at(
    p: &FileParser,
    j: nat,
    lens1: Seq<nat>,
    tail1: nat,
    lens2: Seq<nat>,
    tail2: nat,
    i: int,
)
    requires
        block_tokens_at(p, j, lens1, tail1),
        block_tokens_at(p, j, lens2, tail2),
        0 <= i <= lens1.len(),
        i <= lens2.len(),
    ensures
        lens1.take(i) == lens2.take(i),
    decreases i,
{
    if i > 0 {
        lemma_block_prefix_at(p, j, lens1, tail1, lens2, tail2, i - 1);
        assert(statement_tokens(p, j + lens_sum(lens1.take(i - 1)), lens1[i - 1]));
        assert(statement_tokens(p, j + lens_sum(lens2.take(i - 1)), lens2[i - 1]));
        lemma_statement_unique(p, j + lens_sum(lens1.take(i - 1)), lens1[i - 1], lens2[i - 1]);
        assert(lens1.take(i) =~= lens1.take(i - 1).push(lens1[i - 1]));
        assert(lens2.take(i) =~= lens2.take(i - 1).push(lens2[i - 1]));
    }
}

/// The tokens of a block from the `j`-th on divide into its statements and its value in one way
/// only.
pub proof fn lemma_block_unique_at(p: &FileParser, j: nat, lens1: Seq<nat>, tail1: nat, lens2: Seq<nat>, tail2: nat)
    requires
        block_tokens_at(p, j, lens1, tail1),
        block_tokens_at(p, j, lens2, tail2),
    ensures
        lens1 == lens2,
        tail1 == tail2,
{
    if lens1.len() < lens2.len() {
        let k = lens1.len() as int;
        lemma_block_prefix_at(p, j, lens1, tail1, lens2, tail2, k);
        assert(lens1.take(k) =~= lens1);
        assert(statement_tokens(p, j + lens_sum(lens2.take(k)), lens2[k]));
        lemma_block_end_unique(p, j + lens_sum(lens1), lens2[k], tail1, tail2);
    } else if lens2.len() < lens1.len() {
        let k = lens2.len() as int;
        lemma_block_prefix_at(p, j, lens1, tail1, lens2, tail2, k);
        assert(lens2.take(k) =~= lens2);
        assert(statement_tokens(p, j + lens_sum(lens1.take(k)), lens1[k]));
        lemma_block_end_unique(p, j + lens_sum(lens2), lens1[k], tail2, tail1);
    } else {
        let k = lens1.len() as int;
        lemma_block_prefix_at(p, j, lens1, tail1, lens2, tail2, k);
        assert(lens1.take(k) =~= lens1);
        assert(lens2.take(k) =~= lens2);
        lemma_block_end_unique(p, j + lens_sum(lens1), 0, tail1, tail2);
    }
}

/// What one step of reading a block gave.
enum BlockPart {
    /// The closing brace.
    Closed,
    /// An item, which was declared.
    Item,
    /// A statement.
    Statement(Statement),
    /// The block's value, and the closing brace after it.
    Value(Expression),
}

impl FileParser {
    /// Parses an expression: an infix expression, turned into a tree by operator precedence.
    ///
    /// An assignment where an expression is expected, as [assignment_tokens] has it, is
    /// reported. An expression whose operands are single tokens, as [token_expression] has it,
    /// gives the tree of its entries.
    pub fn parse_expr(&mut self) -> (r: Result<Expression, ParserError>)
        requires
            old(self).wf(),
        ensures
            FileParser::advanced(old(self), final(self)),
            FileParser::reported(old(self), final(self), r),
            FileParser::consumed(old(self), final(self), r),
            r matches Ok(e) ==> exists|s: Seq<InfixEntry>|
                infix_valid(s) && e == tree_expr(#[trigger] shunting_yard(s)),
            forall|n: nat|
                #[trigger] token_expression(old(self), n) ==> (r matches Ok(e) && exists|s: Seq<InfixEntry>|
                    s.len() == n && entries_of_tokens(old(self), s) && e == tree_expr(
                        #[trigger] shunting_yard(s),
                    )) && FileParser::skipped(old(self), final(self), n)
                    && final(self).spec_pending() == old(self).spec_pending(),
            forall|n: nat|
                #[trigger] assignment_tokens(old(self), n) ==> r is Err && final(self).errors().last().message@
                    == "assignment in expression position"@,
            forall|n: nat|
                #[trigger] expression_at(old(self), 0, n) ==> (r matches Ok(e) && expression_of(old(self), 0, n, e))
                    && FileParser::skipped(old(self), final(self), n) && final(self).spec_pending()
                    == old(self).spec_pending(),
        decreases old(self).lexer.remaining(), 2int,
    {
        let start = self.location();
        proof {
            crate::parser::operator_expression::infix::lemma_skipped_none(self);
            assert forall|m: nat| #[trigger] expression_at(old(self), 0, m) implies token_expression(old(self), m)
                || call_expression_at(old(self), 0, m) by {
                lemma_token_expression_shift(old(self), old(self), 0, m);
            }
        }
        let infix = self.parse_infix()?;
        let ghost entries = infix.spec_expr()@;
        let ghost read = infix;
        proof {
            crate::parser::operator_expression::postfix::lemma_valid_balanced(infix.spec_expr()@);
        }
        let postfix = PostfixNotation::from_infix(infix);
        proof {
            assert(postfix.spec_expr()@ == shunting_yard(entries));
        }
        match postfix.into_expression() {
            Ok(tree) => {
                proof {
                    assert forall|m: nat| #[trigger] token_expression(old(self), m) implies (exists|
                        s: Seq<InfixEntry>,
                    | s.len() == m && entries_of_tokens(old(self), s) && tree == tree_expr(
                        #[trigger] shunting_yard(s),
                    )) by {
                        assert(entries.len() == m && entries_of_tokens(old(self), entries));
                        assert(tree == tree_expr(shunting_yard(entries)));
                    }
                    assert forall|m: nat| #[trigger] expression_at(old(self), 0, m) implies expression_of(
                        old(self),
                        0,
                        m,
                        tree,
                    ) by {
                        crate::parser::operator_expression::infix::lemma_skipped_none(old(self));
                        lemma_token_expression_shift(old(self), old(self), 0, m);
                        if call_expression_at(old(self), 0, m) {
                            let y = entries[0]->Operand_0;
                            assert(entries =~= seq![InfixEntry::Operand(y)]);
                            crate::parser::operator_expression::postfix::lemma_single_operand(y);
                        } else {
                            assert(entries_of_tokens_at(old(self), 0, entries));
                        }
                    }
                }
                Ok(tree)
            },
            Err(_) => {
                self.report(start, assignment_in_expression_position());
                Err(ParserError::ParserError)
            },
        }
    }

    /// The next token, without taking it.
    fn peek_token(&mut self) -> (r: Result<Token, ParserError>)
        requires
            old(self).wf(),
        ensures
            final(self).spec_pending() == old(self).spec_pending(),
            old(self).tokens(0) == old(self).lexer.lookahead().0,
            FileParser::advanced(old(self), final(self)),
            FileParser::reported(old(self), final(self), r),
            r is Ok ==> FileParser::looked(old(self), final(self), false),
            match old(self).lexer.lookahead().0 {
                Ok(t) => r matches Ok(tok) && tok@ == t,
                Err(e) => r matches Err(ParserError::LexerError(x)) && x@ == e,
            },
    {
        let ghost a = *self;
        let r = self.lexer.peek();
        proof {
            crate::lexer::Lexer::lemma_peeked_remaining(&a.lexer, &self.lexer);
            if a.lexer.lookahead().0 is Ok {
                crate::lexer::Lexer::lemma_peeked_tokens(&a.lexer, &self.lexer);
            }
            FileParser::lemma_lexer_step(&a, self);
        }
        match r {
            Ok(t) => Ok(t),
            Err(e) => Err(ParserError::LexerError(e)),
        }
    }

    /// Parses a single operand: a block, a literal, a conditional or loop, a variable or a call.
    /// A block, an `if`, a `while` or a `for` whose parts are as [block_tokens_at],
    /// [if_tokens_at], [while_tokens_at] and [for_tokens_at] have them is read whole. A call of a
    /// path, as [path_call_at] has it, gives its segments and the arguments read from their
    /// tokens; a path of more than one segment, or `super` or `crate` alone, that is not called
    /// is refused. A call whose arguments are such operator expressions or calls by themselves,
    /// as [path_call2_at] has it, gives the arguments read from their tokens.
    #[verifier::rlimit(80)]
    pub fn parse_operand(&mut self) -> (r: Result<Expression, ParserError>)
        requires
            old(self).wf(),
        ensures
            FileParser::advanced(old(self), final(self)),
            FileParser::reported(old(self), final(self), r),
            FileParser::consumed(old(self), final(self), r),
            (old(self).tokens(0) matches Ok(t) && old(self).tokens(1) matches Ok(nx)
                && crate::parser::operator_expression::infix::single_token_operand(t, nx))
                ==> final(self).spec_pending() == old(self).spec_pending(),
            match old(self).lexer.lookahead().0 {
                Ok(SpecToken::Number(n)) => r matches Ok(Expression::Literal(Literal::Number(m)))
                    && m@ == n && FileParser::skipped(old(self), final(self), 1),
                Ok(SpecToken::String(s)) => r matches Ok(Expression::Literal(Literal::String(t)))
                    && t@ == s && FileParser::skipped(old(self), final(self), 1),
                Ok(SpecToken::Keyword(Keyword::True)) => r == Ok::<Expression, ParserError>(
                    Expression::Literal(Literal::Boolean(true)),
                ) && FileParser::skipped(old(self), final(self), 1),
                Ok(SpecToken::Keyword(Keyword::False)) => r == Ok::<Expression, ParserError>(
                    Expression::Literal(Literal::Boolean(false)),
                ) && FileParser::skipped(old(self), final(self), 1),
                Ok(SpecToken::Keyword(Keyword::If)) => {
                    &&& r matches Ok(e) ==> e is If && closed_brace(old(self), final(self))
                    &&& forall|n: nat, lens: Seq<nat>, tail: nat, other: Option<(Seq<nat>, nat)>|
                        #[trigger] if_tokens_at(old(self), 1, n, lens, tail, other) ==> (r matches Ok(
                            Expression::If { condition, body, else_body },
                        ) && expression_of(old(self), 1, n, *condition) && block_of_tokens_at(
                            old(self),
                            n + 2,
                            lens,
                            tail,
                            body,
                        ) && match other {
                            None => else_body is None && FileParser::skipped(
                                old(self),
                                final(self),
                                after_block(n + 1, lens, tail),
                            ),
                            Some((l2, t2)) => else_body matches Some(b2) && block_of_tokens_at(
                                old(self),
                                after_block(n + 1, lens, tail) + 2,
                                l2,
                                t2,
                                b2,
                            ) && FileParser::skipped(
                                old(self),
                                final(self),
                                after_block(after_block(n + 1, lens, tail) + 1, l2, t2),
                            ),
                        }) && final(self).spec_pending() == old(self).spec_pending()
                },
                Ok(SpecToken::Keyword(Keyword::While)) => {
                    &&& r matches Ok(e) ==> e is While && closed_brace(old(self), final(self))
                    &&& forall|n: nat, lens: Seq<nat>, tail: nat|
                        #[trigger] while_tokens_at(old(self), 1, n, lens, tail) ==> (r matches Ok(
                            Expression::While { condition, body },
                        ) && expression_of(old(self), 1, n, *condition) && block_of_tokens_at(
                            old(self),
                            n + 2,
                            lens,
                            tail,
                            body,
                        )) && FileParser::skipped(old(self), final(self), after_block(n + 1, lens, tail))
                            && final(self).spec_pending() == old(self).spec_pending()
                },
                Ok(SpecToken::Keyword(Keyword::For)) => {
                    &&& r matches Ok(e) ==> e is For && closed_brace(old(self), final(self))
                    &&& forall|n: nat, lens: Seq<nat>, tail: nat|
                        #[trigger] for_tokens_at(old(self), 1, n, lens, tail) ==> (r matches Ok(
                            Expression::For { var, expr, body },
                        ) && old(self).tokens(1) == ident_token(var@) && expression_of(
                            old(self),
                            3,
                            n,
                            *expr,
                        ) && block_of_tokens_at(old(self), n + 4, lens, tail, body))
                            && FileParser::skipped(old(self), final(self), after_block(n + 3, lens, tail))
                            && final(self).spec_pending() == old(self).spec_pending()
                },
                Ok(SpecToken::Keyword(kw)) => r is Err && final(self).errors().last().message@
                    == spec_keyword_not_allowed(kw),
                Ok(SpecToken::Punctuation(Punctuation::LBrace)) => {
                    &&& r matches Ok(e) ==> e is Block && closed_brace(old(self), final(self))
                    &&& forall|lens: Seq<nat>, tail: nat|
                        #[trigger] block_tokens_at(old(self), 1, lens, tail) ==> (r matches Ok(
                            Expression::Block(b),
                        ) && block_of_tokens_at(old(self), 1, lens, tail, b)) && FileParser::skipped(
                            old(self),
                            final(self),
                            after_block(0, lens, tail),
                        ) && final(self).spec_pending() == old(self).spec_pending()
                },
                Ok(SpecToken::Punctuation(p)) => r is Err && final(self).errors().last().message@
                    == spec_invalid_punctuation(p),
                Ok(SpecToken::Identifier(name)) => {
                    &&& r matches Ok(e) ==> e is Var || e is FnCall
                    &&& r matches Ok(Expression::Var(id)) ==> id@ == name
                    &&& ({
                        &&& old(self).tokens(1) matches Ok(t)
                        &&& t != SpecToken::Punctuation(Punctuation::Colon)
                        &&& t != SpecToken::Punctuation(Punctuation::LParent)
                        &&& name != seq!['s', 'u', 'p', 'e', 'r']
                        &&& name != seq!['c', 'r', 'a', 't', 'e']
                    }) ==> (r matches Ok(Expression::Var(id)) && id@ == name && FileParser::skipped(
                        old(self),
                        final(self),
                        1,
                    ))
                    &&& ({
                        &&& old(self).tokens(1) matches Ok(t)
                        &&& t != SpecToken::Punctuation(Punctuation::Colon)
                        &&& t != SpecToken::Punctuation(Punctuation::LParent)
                        &&& (name == seq!['s', 'u', 'p', 'e', 'r'] || name == seq!['c', 'r', 'a', 't', 'e'])
                    }) ==> r is Err && final(self).errors().last().message@
                        == "a path may only be used as a variable or be called"@
                    &&& forall|segs: Seq<Seq<char>>, ns: Seq<nat>|
                        #[trigger] path_call_at(old(self), 1, segs, ns) ==> (r matches Ok(
                            Expression::FnCall { path, params },
                        ) && single_name_start(path.start, name) && names(path.other@) == segs
                            && args_of_tokens(old(self), 1 + 3 * segs.len(), ns, params@)) && FileParser::skipped(
                            old(self),
                            final(self),
                            1 + 3 * segs.len() + call_args_len(ns),
                        ) && final(self).spec_pending() == old(self).spec_pending()
                    &&& forall|segs: Seq<Seq<char>>, ns: Seq<nat>|
                        #[trigger] path_call2_at(old(self), 1, segs, ns) ==> (r matches Ok(
                            Expression::FnCall { path, params },
                        ) && single_name_start(path.start, name) && names(path.other@) == segs
                            && args2_of_tokens(old(self), 1 + 3 * segs.len(), ns, params@)) && FileParser::skipped(
                            old(self),
                            final(self),
                            1 + 3 * segs.len() + call_args_len(ns),
                        ) && final(self).spec_pending() == old(self).spec_pending()
                    &&& forall|segs: Seq<Seq<char>>|
                        #[trigger] path_segments(old(self), 1, segs) && segs.len() > 0 && old(self).tokens(
                            1 + 3 * segs.len(),
                        ) != punct_token(Punctuation::LParent) ==> r is Err && final(self).errors().last().message@
                            == "a path may only be used as a variable or be called"@
                },
                Ok(SpecToken::Eof) => r is Err && final(self).errors().last().message@
                    == "unexpected EOF"@,
                Err(e) => r matches Err(ParserError::LexerError(x)) && x@ == e,
            },
        decreases old(self).lexer.remaining(), 0int,
    {
        let start = self.location();
        let token = self.next_token()?;
        let ghost after_token = *self;
        let expression = match token {
            Token::Punctuation(Punctuation::LBrace) => {
                proof {
                    lemma_block_shift_all(old(self), &after_token, 1);
                }
                let b = self.parse_block()?;
                proof {
                    lemma_closed_brace_before(old(self), &after_token, self);
                    assert forall|lens: Seq<nat>, tail: nat| #[trigger] block_tokens_at(old(self), 1, lens, tail) implies FileParser::skipped(
                        old(self),
                        self,
                        after_block(0, lens, tail),
                    ) by {
                        FileParser::lemma_skipped_trans(old(self), &after_token, self, 1, lens_sum(lens) + tail + 1);
                    }
                }
                Expression::Block(b)
            },
            Token::Number(num) => Expression::Literal(Literal::Number(num)),
            Token::String(s) => Expression::Literal(Literal::String(s)),
            Token::Keyword(Keyword::If) => {
                proof {
                    assert forall|n: nat, lens: Seq<nat>, tail: nat, other: Option<(Seq<nat>, nat)>|
                        #[trigger] if_tokens_at(old(self), 1, n, lens, tail, other) implies if_tokens(
                        &after_token,
                        n,
                        lens,
                        tail,
                        other,
                    ) by {
                        lemma_if_shift(old(self), &after_token, n, lens, tail, other);
                    }
                }
                let e = self.parse_if()?;
                proof {
                    lemma_closed_brace_before(old(self), &after_token, self);
                    assert forall|n: nat, lens: Seq<nat>, tail: nat, other: Option<(Seq<nat>, nat)>|
                        #[trigger] if_tokens_at(old(self), 1, n, lens, tail, other) implies (e matches Expression::If {
                        condition,
                        body,
                        else_body,
                    } && expression_of(old(self), 1, n, *condition) && block_of_tokens_at(
                        old(self),
                        n + 2,
                        lens,
                        tail,
                        body,
                    ) && match other {
                        None => else_body is None && FileParser::skipped(
                            old(self),
                            self,
                            after_block(n + 1, lens, tail),
                        ),
                        Some((l2, t2)) => else_body matches Some(b2) && block_of_tokens_at(
                            old(self),
                            after_block(n + 1, lens, tail) + 2,
                            l2,
                            t2,
                            b2,
                        ) && FileParser::skipped(
                            old(self),
                            self,
                            after_block(after_block(n + 1, lens, tail) + 1, l2, t2),
                        ),
                    }) by {
                        lemma_if_shift(old(self), &after_token, n, lens, tail, other);
                        match other {
                            None => {
                                FileParser::lemma_skipped_trans(
                                    old(self),
                                    &after_token,
                                    self,
                                    1,
                                    after_block(n, lens, tail),
                                );
                            },
                            Some((l2, t2)) => {
                                FileParser::lemma_skipped_trans(
                                    old(self),
                                    &after_token,
                                    self,
                                    1,
                                    after_block(after_block(n, lens, tail) + 1, l2, t2),
                                );
                            },
                        }
                    }
                }
                e
            },
            Token::Keyword(Keyword::While) => {
                proof {
                    assert forall|n: nat, lens: Seq<nat>, tail: nat|
                        #[trigger] while_tokens_at(old(self), 1, n, lens, tail) implies while_tokens(
                        &after_token,
                        n,
                        lens,
                        tail,
                    ) by {
                        lemma_while_shift(old(self), &after_token, n, lens, tail);
                    }
                }
                let e = self.parse_while()?;
                proof {
                    lemma_closed_brace_before(old(self), &after_token, self);
                    assert forall|n: nat, lens: Seq<nat>, tail: nat|
                        #[trigger] while_tokens_at(old(self), 1, n, lens, tail) implies (e matches Expression::While {
                        condition,
                        body,
                    } && expression_of(old(self), 1, n, *condition) && block_of_tokens_at(
                        old(self),
                        n + 2,
                        lens,
                        tail,
                        body,
                    )) && FileParser::skipped(old(self), self, after_block(n + 1, lens, tail)) by {
                        lemma_while_shift(old(self), &after_token, n, lens, tail);
                        FileParser::lemma_skipped_trans(old(self), &after_token, self, 1, after_block(n, lens, tail));
                    }
                }
                e
            },
            Token::Keyword(Keyword::For) => {
                proof {
                    assert forall|n: nat, lens: Seq<nat>, tail: nat|
                        #[trigger] for_tokens_at(old(self), 1, n, lens, tail) implies for_tokens(
                        &after_token,
                        n,
                        lens,
                        tail,
                    ) by {
                        lemma_for_shift(old(self), &after_token, n, lens, tail);
                    }
                }
                let e = self.parse_for()?;
                proof {
                    lemma_closed_brace_before(old(self), &after_token, self);
                    assert forall|n: nat, lens: Seq<nat>, tail: nat|
                        #[trigger] for_tokens_at(old(self), 1, n, lens, tail) implies (e matches Expression::For {
                        var,
                        expr,
                        body,
                    } && old(self).tokens(1) == ident_token(var@) && expression_of(old(self), 3, n, *expr)
                        && block_of_tokens_at(old(self), n + 4, lens, tail, body)) && FileParser::skipped(
                        old(self),
                        self,
                        after_block(n + 3, lens, tail),
                    ) by {
                        lemma_for_shift(old(self), &after_token, n, lens, tail);
                        FileParser::lemma_skipped_trans(
                            old(self),
                            &after_token,
                            self,
                            1,
                            after_block(n + 2, lens, tail),
                        );
                    }
                }
                e
            },
            Token::Keyword(Keyword::True) => Expression::Literal(Literal::Boolean(true)),
            Token::Keyword(Keyword::False) => Expression::Literal(Literal::Boolean(false)),
            Token::Identifier(ident) => {
                let ghost name = ident@;
                let r = self.parse_path_operand(start, ident);
                proof {
                    if r is Ok && FileParser::skipped(&after_token, self, 0) {
                        FileParser::lemma_skipped_trans(old(self), &after_token, self, 1, 0);
                    }
                    lemma_token_call_from_name(old(self), &after_token, self, name, r);
                    lemma_call_from_name(old(self), &after_token, self, name, r);
                    assert forall|segs: Seq<Seq<char>>| #[trigger] path_segments(old(self), 1, segs) && segs.len() > 0
                        && old(self).tokens(1 + 3 * segs.len()) != punct_token(Punctuation::LParent) implies r is Err
                        && self.errors().last().message@ == "a path may only be used as a variable or be called"@ by {
                        lemma_path_shift(old(self), &after_token, segs, seq![]);
                        assert(path_segments(&after_token, 0, segs));
                    }
                }
                return r;
            },
            Token::Eof => {
                self.report(start, unexpected_eof());
                return Err(ParserError::ParserError);
            },
            Token::Keyword(kw) => {
                self.report(start, keyword_not_allowed(kw));
                return Err(ParserError::ParserError);
            },
            Token::Punctuation(punc) => {
                self.report(start, invalid_punctuation(punc));
                return Err(ParserError::ParserError);
            },
        };
        Ok(expression)
    }

    /// Parses the rest of an operand that starts with the identifier `first`, already taken:
    /// a path whose segments are separated by `::`, then, if a parenthesis follows, the
    /// parameters of a call.
    ///
    /// `super` may only lead a path and `crate` may only start it. A path that is not called
    /// must be a single variable.
    #[verifier::rlimit(50)]
    fn parse_path_operand(&mut self, start: Location, first: String) -> (r: Result<
        Expression,
        ParserError,
    >)
        requires
            old(self).wf(),
        ensures
            FileParser::advanced(old(self), final(self)),
            FileParser::reported(old(self), final(self), r),
            r matches Ok(e) ==> e is Var || e is FnCall,
            r matches Ok(Expression::Var(id)) ==> id@ == first@,
            ({
                &&& old(self).tokens(0) matches Ok(t)
                &&& t != SpecToken::Punctuation(Punctuation::Colon)
                &&& t != SpecToken::Punctuation(Punctuation::LParent)
                &&& first@ != seq!['s', 'u', 'p', 'e', 'r']
                &&& first@ != seq!['c', 'r', 'a', 't', 'e']
            }) ==> (r matches Ok(Expression::Var(id)) && id@ == first@ && FileParser::skipped(
                old(self),
                final(self),
                0,
            ) && final(self).spec_pending() == old(self).spec_pending()),
            ({
                &&& old(self).tokens(0) matches Ok(t)
                &&& t != SpecToken::Punctuation(Punctuation::Colon)
                &&& t != SpecToken::Punctuation(Punctuation::LParent)
                &&& (first@ == seq!['s', 'u', 'p', 'e', 'r'] || first@ == seq!['c', 'r', 'a', 't', 'e'])
            }) ==> r is Err && final(self).errors().last().message@
                == "a path may only be used as a variable or be called"@,
            forall|segs: Seq<Seq<char>>, ns: Seq<nat>|
                #[trigger] path_call_at(old(self), 0, segs, ns) ==> (r matches Ok(
                    Expression::FnCall { path, params },
                ) && single_name_start(path.start, first@) && names(path.other@) == segs && args_of_tokens(
                    old(self),
                    3 * segs.len(),
                    ns,
                    params@,
                )) && FileParser::skipped(old(self), final(self), 3 * segs.len() + call_args_len(ns))
                    && final(self).spec_pending() == old(self).spec_pending(),
            forall|segs: Seq<Seq<char>>, ns: Seq<nat>|
                #[trigger] path_call2_at(old(self), 0, segs, ns) ==> (r matches Ok(
                    Expression::FnCall { path, params },
                ) && single_name_start(path.start, first@) && names(path.other@) == segs && args2_of_tokens(
                    old(self),
                    3 * segs.len(),
                    ns,
                    params@,
                )) && FileParser::skipped(old(self), final(self), 3 * segs.len() + call_args_len(ns))
                    && final(self).spec_pending() == old(self).spec_pending(),
            forall|segs: Seq<Seq<char>>|
                #[trigger] path_segments(old(self), 0, segs) && segs.len() > 0 && old(self).tokens(3 * segs.len())
                    != punct_token(Punctuation::LParent) ==> r is Err && final(self).errors().last().message@
                    == "a path may only be used as a variable or be called"@,
        decreases old(self).lexer.remaining(), 0int,
    {
        let ghost first_string = first;
        let ghost segmented = exists|g: Seq<Seq<char>>| #[trigger] path_segments(old(self), 0, g);
        let ghost segs = choose|g: Seq<Seq<char>>| path_segments(old(self), 0, g);
        proof {
            if segmented {
                assert forall|g: Seq<Seq<char>>| #[trigger] path_segments(old(self), 0, g) implies g == segs by {
                    lemma_path_segments_unique(old(self), 0, g, segs);
                }
            }
        }
        let ghost plain = (old(self).tokens(0) matches Ok(t) && t != SpecToken::Punctuation(
            Punctuation::Colon,
        ));
        let ghost simple = ({
            &&& old(self).tokens(0) matches Ok(t)
            &&& t != SpecToken::Punctuation(Punctuation::Colon)
            &&& t != SpecToken::Punctuation(Punctuation::LParent)
            &&& first@ != seq!['s', 'u', 'p', 'e', 'r']
            &&& first@ != seq!['c', 'r', 'a', 't', 'e']
        });
        let ghost lone = ({
            &&& old(self).tokens(0) matches Ok(t)
            &&& t != SpecToken::Punctuation(Punctuation::Colon)
            &&& t != SpecToken::Punctuation(Punctuation::LParent)
            &&& (first@ == seq!['s', 'u', 'p', 'e', 'r'] || first@ == seq!['c', 'r', 'a', 't', 'e'])
        });
        let is_super = str_is(first.as_str(), &['s', 'u', 'p', 'e', 'r']);
        let is_crate = str_is(first.as_str(), &['c', 'r', 'a', 't', 'e']);
        let ghost first_view = first@;
        proof {
            assert(['s', 'u', 'p', 'e', 'r']@ =~= seq!['s', 'u', 'p', 'e', 'r']);
            assert(['c', 'r', 'a', 't', 'e']@ =~= seq!['c', 'r', 'a', 't', 'e']);
        }
        let mut supers: usize = 0;
        let mut head: Option<Identifier> = None;
        if is_super {
            supers = 1;
        } else if !is_crate {
            head = Some(Identifier(first));
        }
        let mut other: Vec<Identifier> = Vec::new();
        proof {
            FileParser::lemma_advanced_refl(self);
            assert(FileParser::skipped(old(self), self, 0)) by {
                assert forall|k: nat| #[trigger] self.tokens(k) == old(self).tokens(k + 0) by {
                    assert(k + 0 == k);
                }
            }
        }
        loop
            invariant
                FileParser::advanced(old(self), self),
                head matches Some(id) ==> id@ == first_view,
                is_super ==> head is None && supers >= 1,
                !is_super ==> supers == 0,
                is_crate ==> head is None,
                !is_super && !is_crate ==> head is Some,
                plain == (old(self).tokens(0) matches Ok(t) && t != SpecToken::Punctuation(
                    Punctuation::Colon,
                )),
                plain ==> other@.len() == 0 && self.tokens(0) == old(self).tokens(0)
                    && FileParser::skipped(old(self), self, 0) && supers <= 1,
                self.spec_pending() == old(self).spec_pending(),
                segmented ==> path_segments(old(self), 0, segs),
                segmented == exists|g: Seq<Seq<char>>| #[trigger] path_segments(old(self), 0, g),
                segmented ==> forall|g: Seq<Seq<char>>| #[trigger] path_segments(old(self), 0, g) ==> g == segs,
                segmented ==> other@.len() <= segs.len() && names(other@) == segs.take(other@.len() as int)
                    && FileParser::skipped(old(self), self, 3 * other@.len()) && supers <= 1,
            ensures
                FileParser::advanced(old(self), self),
                head matches Some(id) ==> id@ == first_view,
                is_super ==> head is None && supers >= 1,
                !is_super ==> supers == 0,
                !is_super && !is_crate ==> head is Some,
                plain ==> other@.len() == 0 && self.tokens(0) == old(self).tokens(0)
                    && FileParser::skipped(old(self), self, 0) && supers <= 1,
                segmented ==> names(other@) == segs && FileParser::skipped(old(self), self, 3 * segs.len())
                    && supers <= 1,
            decreases self.lexer.remaining(),
        {
            let ghost s0 = *self;
            let ghost k0 = other@.len() as int;
            proof {
                if segmented {
                    assert(s0.tokens(0) == old(self).tokens(0 + 3 * k0 as nat));
                    if k0 < segs.len() {
                        assert(old(self).tokens((0 + 3 * k0) as nat) == punct_token(Punctuation::Colon)) by {
                            assert(segs[k0] == segs[k0]);
                        }
                    }
                    assert(s0.tokens(0) is Ok);
                }
            }
            let colon = self.eat_punctuation(Punctuation::Colon)?;
            if !colon {
                proof {
                    if plain {
                        FileParser::lemma_skipped_trans(old(self), &s0, self, 0, 0);
                    }
                    if segmented {
                        FileParser::lemma_skipped_trans(old(self), &s0, self, 3 * k0 as nat, 0);
                        assert(segs.take(k0) =~= segs);
                    }
                }
                break;
            }
            let ghost s1 = *self;
            self.expect_punctuation(Punctuation::Colon)?;
            let ghost s2 = *self;
            let ident = self.expect_identifier()?;
            proof {
                if segmented {
                    FileParser::lemma_skipped_trans(old(self), &s0, &s1, 3 * k0 as nat, 1);
                    FileParser::lemma_skipped_trans(old(self), &s1, &s2, 3 * k0 as nat + 1, 1);
                    FileParser::lemma_skipped_trans(old(self), &s2, self, 3 * k0 as nat + 2, 1);
                    assert(s1.tokens(0) == old(self).tokens(0 + (3 * k0 as nat + 1)));
                    assert(s2.tokens(0) == old(self).tokens(0 + (3 * k0 as nat + 2)));
                    assert(old(self).tokens((0 + 3 * k0 + 2) as nat) == ident_token(segs[k0]));
                    assert(ident@ == segs[k0]);
                }
            }
            let ghost other0 = other@;
            if str_is(ident.as_str(), &['s', 'u', 'p', 'e', 'r']) {
                if other.len() > 0 {
                    self.report(start, invalid_super_kw());
                    return Err(ParserError::ParserError);
                }
                if is_super {
                    if supers == usize::MAX {
                        self.report(start, invalid_super_kw());
                        return Err(ParserError::ParserError);
                    }
                    supers = supers + 1;
                } else {
                    other.push(ident);
                }
            } else if str_is(ident.as_str(), &['c', 'r', 'a', 't', 'e']) {
                self.report(start, invalid_crate_kw());
                return Err(ParserError::ParserError);
            } else {
                other.push(ident);
            }
            proof {
                if segmented {
                    assert(other@ == other0.push(ident));
                    assert(names(other@) =~= segs.take(k0 + 1)) by {
                        assert(names(other0) == segs.take(k0));
                    }
                }
            }
        }
        let path_start = if is_super {
            RelativePathStart::Super(supers)
        } else {
            match head {
                Some(id) => RelativePathStart::Identifier(id),
                None => RelativePathStart::Crate,
            }
        };
        let path = RelativePath { start: path_start, other };
        let ghost s1 = *self;
        let ghost base = *self;
        let ghost off: nat = 3 * segs.len();
        let ghost callable = segmented && exists|ns3: Seq<nat>| #[trigger] call_args2_at(old(self), off, ns3);
        let ghost ns = choose|ns3: Seq<nat>| call_args2_at(old(self), off, ns3);
        proof {
            if segmented {
                assert(single_name_start(path.start, first_string@));
                assert(names(path.other@) == segs);
                lemma_call_args2_shift(old(self), &base, off, 0, ns);
                assert(base.tokens(0) == old(self).tokens(0 + off));
                assert forall|ns2: Seq<nat>| #[trigger] call_args_at(old(self), off, ns2) implies callable by {
                    lemma_call_args_covers(old(self), off, ns2);
                }
                if callable {
                    assert forall|ns2: Seq<nat>| #[trigger] call_args2_at(old(self), off, ns2) implies ns2 == ns by {
                        lemma_call_args2_unique(old(self), off, ns2, ns);
                    }
                    assert forall|ns2: Seq<nat>| #[trigger] call_args_at(old(self), off, ns2) implies ns2 == ns
                        && forall|params: Seq<Expression>| #[trigger] args2_of_tokens(old(self), off, ns, params)
                        ==> args_of_tokens(old(self), off, ns, params) by {
                        lemma_call_args_covers(old(self), off, ns2);
                        lemma_call_args2_unique(old(self), off, ns2, ns);
                    }
                }
            }
        }
        let called = self.eat_punctuation(Punctuation::LParent)?;
        proof {
            if simple {
                FileParser::lemma_skipped_trans(old(self), &s1, self, 0, 0);
            }
        }
        if called {
            let mut params: Vec<Expression> = Vec::new();
            let ghost s2 = *self;
            proof {
                if callable {
                    assert(call_args2_at(&base, 0, ns));
                    assert(s2.tokens(0) == base.tokens(0 + 1));
                    if ns.len() > 0 {
                        assert(ns.take(0) =~= Seq::<nat>::empty());
                        assert(arg_expression_at(&base, 0 + 1 + arg_start(ns, 0), ns[0]));
                        assert(0 + 1 + arg_start(ns, 0) == 1);
                        lemma_expression_not_rparent(&base, 1, ns[0]);
                    }
                }
            }
            if self.eat_punctuation(Punctuation::RParent)? {
                proof {
                    if callable {
                        FileParser::lemma_skipped_trans(&base, &s2, self, 1, 1);
                        assert(args2_of_tokens(&base, 0, ns, params@));
                        lemma_call_args2_shift(old(self), &base, off, 0, ns);
                        FileParser::lemma_skipped_trans(old(self), &base, self, off, call_args_len(ns));
                    }
                }
                return Ok(Expression::FnCall { path, params });
            }
            let ghost mut k: int = 0;
            proof {
                assert(first_string@ == first_view);
                if callable {
                    FileParser::lemma_skipped_trans(&base, &s2, self, 1, 0);
                    assert(ns.take(0) =~= Seq::<nat>::empty());
                }
            }
            loop
                invariant
                    FileParser::advanced(old(self), self),
                    self.lexer.remaining() < old(self).lexer.remaining(),
                    !simple,
                    !lone,
                    lone == ({
                        &&& old(self).tokens(0) matches Ok(t)
                        &&& t != SpecToken::Punctuation(Punctuation::Colon)
                        &&& t != SpecToken::Punctuation(Punctuation::LParent)
                        &&& (first@ == seq!['s', 'u', 'p', 'e', 'r'] || first@ == seq!['c', 'r', 'a', 't', 'e'])
                    }),
                    simple == ({
                        &&& old(self).tokens(0) matches Ok(t)
                        &&& t != SpecToken::Punctuation(Punctuation::Colon)
                        &&& t != SpecToken::Punctuation(Punctuation::LParent)
                        &&& first@ != seq!['s', 'u', 'p', 'e', 'r']
                        &&& first@ != seq!['c', 'r', 'a', 't', 'e']
                    }),
                    first_string@ == first@,
                    segmented == exists|g: Seq<Seq<char>>| #[trigger] path_segments(old(self), 0, g),
                    segmented ==> forall|g: Seq<Seq<char>>| #[trigger] path_segments(old(self), 0, g) ==> g == segs,
                    off == 3 * segs.len(),
                    callable == (segmented && exists|ns3: Seq<nat>| #[trigger] call_args2_at(old(self), off, ns3)),
                    segmented ==> FileParser::skipped(old(self), &base, off),
                    callable ==> call_args2_at(old(self), off, ns) && call_args2_at(&base, 0, ns),
                    callable ==> forall|ns2: Seq<nat>| #[trigger] call_args2_at(old(self), off, ns2) ==> ns2 == ns,
                    segmented ==> forall|ns2: Seq<nat>| #[trigger] call_args_at(old(self), off, ns2) ==> callable,
                    callable ==> forall|ns2: Seq<nat>| #[trigger] call_args_at(old(self), off, ns2) ==> ns2 == ns
                        && forall|params: Seq<Expression>| #[trigger] args2_of_tokens(old(self), off, ns, params)
                        ==> args_of_tokens(old(self), off, ns, params),
                    callable ==> single_name_start(path.start, first_string@) && names(path.other@) == segs,
                    callable ==> self.spec_pending() == old(self).spec_pending(),
                    segmented ==> old(self).tokens(off) == punct_token(Punctuation::LParent),
                    callable ==> 0 <= k < ns.len() && params@.len() == k && FileParser::skipped(
                        &base,
                        self,
                        1 + arg_start(ns, k),
                    ),
                    callable ==> forall|m: int|
                        #![trigger params@[m]]
                        0 <= m < k ==> arg_expression_of(&base, 1 + arg_start(ns, m), ns[m], params@[m]),
                decreases self.lexer.remaining(),
            {
                let start = self.location();
                let ghost t0 = *self;
                let ghost pos = 1 + arg_start(ns, k);
                proof {
                    if callable {
                        assert(arg_expression_at(&base, 0 + 1 + arg_start(ns, k), ns[k]));
                        lemma_call1_shift(&base, &t0, pos, 0, ns[k]);
                        assert(pos + 0 == 0 + 1 + arg_start(ns, k));
                        assert(arg_expression_at(&t0, 0, ns[k]));
                        lemma_arg_covers(&t0, 0, ns[k]);
                    }
                }
                let value = self.parse_expr()?;
                let ghost t1 = *self;
                proof {
                    if callable {
                        lemma_call1_shift(&base, &t0, pos, 0, ns[k]);
                        lemma_arg_covers(&t0, 0, ns[k]);
                        assert(arg_expression_of(&t0, 0, ns[k], value));
                        assert(arg_expression_of(&base, pos + 0, ns[k], value));
                        assert(arg_expression_of(&base, pos, ns[k], value));
                        FileParser::lemma_skipped_trans(&base, &t0, &t1, pos, ns[k]);
                        assert(t1.tokens(0) == base.tokens(0 + (pos + ns[k])));
                        assert(ns.take(k + 1).drop_last() =~= ns.take(k));
                    }
                }
                let ghost p0 = params@;
                params.push(value);
                proof {
                    if callable {
                        assert forall|m: int| 0 <= m < k implies #[trigger] params@[m] == p0[m] by {}
                    }
                }
                if self.eat_punctuation(Punctuation::RParent)? {
                    proof {
                        if callable {
                            FileParser::lemma_skipped_trans(&base, &t1, self, pos + ns[k], 1);
                            assert(k == ns.len() - 1);
                            assert(ns.take(k + 1) =~= ns);
                            assert(ns.take(k + 1).drop_last() =~= ns.take(k));
                            assert(lens_sum(ns.take(k + 1)) == lens_sum(ns.take(k)) + ns[k]);
                            assert(call_args_len(ns) == pos + ns[k] + 1);
                            assert forall|m: int| 0 <= m < ns.len() implies arg_expression_of(
                                &base,
                                0 + 1 + arg_start(ns, m),
                                ns[m],
                                #[trigger] params@[m],
                            ) by {
                                assert(0 + 1 + arg_start(ns, m) == 1 + arg_start(ns, m));
                            }
                            assert(args2_of_tokens(&base, 0, ns, params@));
                            lemma_call_args2_shift(old(self), &base, off, 0, ns);
                            FileParser::lemma_skipped_trans(old(self), &base, self, off, call_args_len(ns));
                        }
                    }
                    return Ok(Expression::FnCall { path, params });
                }
                let ghost t2 = *self;
                proof {
                    if callable {
                        FileParser::lemma_skipped_trans(&base, &t1, &t2, pos + ns[k], 0);
                    }
                }
                if !self.eat_punctuation(Punctuation::Comma)? {
                    let token = self.peek_token()?;
                    let expected = vec![
                        ExpectedToken::Punctuation(Punctuation::Comma),
                        ExpectedToken::Punctuation(Punctuation::RParent),
                    ];
                    let message = token_mismatch(&expected, &token);
                    self.report(start, message);
                    return Err(ParserError::ParserError);
                }
                proof {
                    if callable {
                        FileParser::lemma_skipped_trans(&base, &t2, self, pos + ns[k], 1);
                        assert(lens_sum(ns.take(k + 1)) == lens_sum(ns.take(k)) + ns[k]);
                        assert(arg_start(ns, k + 1) == arg_start(ns, k) + ns[k] + 1);
                    }
                    k = k + 1;
                }
            }
        }
        match path.start {
            RelativePathStart::Identifier(ident) => {
                if path.other.len() == 0 {
                    return Ok(Expression::Var(ident));
                }
            },
            _ => {},
        }
        self.report(start, path_not_a_value());
        Err(ParserError::ParserError)
    }

    /// Parses a block. Opening brace is expected to be consumed beforehand.
    ///
    /// Statements follow each other up to the closing brace; an expression right before it is
    /// the block's value. Keywords `fn` and `struct` are taken, and an item is parsed from the
    /// token after them. A block whose statements are `break;`, `return`, `let`, assignments,
    /// expression statements, and blocks, conditionals and loops whose own blocks hold such
    /// statements, as [nested_block_tokens_at](crate::parser::control::nested_block_tokens_at)
    /// has them, is read whole, up to its closing brace.
    #[verifier::rlimit(100)]
    pub fn parse_block(&mut self) -> (r: Result<Block, ParserError>)
        requires
            old(self).wf(),
        ensures
            FileParser::advanced(old(self), final(self)),
            FileParser::reported(old(self), final(self), r),
            FileParser::consumed(old(self), final(self), r),
            r is Ok ==> closed_brace(old(self), final(self)),
            forall|lens: Seq<nat>, tail: nat|
                #[trigger] block_tokens(old(self), lens, tail) ==> (r matches Ok(b) && block_of_tokens(
                    old(self),
                    lens,
                    tail,
                    b,
                )) && FileParser::skipped(old(self), final(self), lens_sum(lens) + tail + 1)
                    && final(self).spec_pending() == old(self).spec_pending(),
            forall|lens: Seq<nat>, tail: nat|
                #[trigger] crate::parser::control::nested_block_tokens_at(old(self), 0, lens, tail) ==> (r matches Ok(
                    b,
                ) && crate::parser::control::nested_block_of_at(old(self), 0, lens, tail, b))
                    && FileParser::skipped(old(self), final(self), lens_sum(lens) + tail + 1)
                    && final(self).spec_pending() == old(self).spec_pending(),
        decreases old(self).lexer.remaining(), 3int,
    {
        let mut buffer: Vec<Statement> = Vec::new();
        let mut expr: Option<Expression> = None;
        let ghost simple = exists|lens: Seq<nat>, tail: nat|
            #[trigger] crate::parser::control::nested_block_tokens_at(old(self), 0, lens, tail);
        let ghost shape = choose|lens: Seq<nat>, tail: nat| crate::parser::control::nested_block_tokens_at(old(self), 0, lens, tail);
        let ghost lens = shape.0;
        let ghost tail = shape.1;
        let ghost mut i: int = 0;
        proof {
            assert forall|l: Seq<nat>, t: nat| #[trigger] block_tokens(old(self), l, t) implies simple by {
                crate::parser::operator_expression::infix::lemma_skipped_none(old(self));
                lemma_block_shift(old(self), old(self), 0, l, t);
                crate::parser::control::lemma_nested_covers(old(self), 0, l, t, vstd::pervasive::arbitrary());
            }
            FileParser::lemma_advanced_refl(self);
            crate::parser::operator_expression::infix::lemma_skipped_none(self);
            assert(lens.take(0) =~= Seq::<nat>::empty());
        }
        loop
            invariant_except_break
                simple ==> 0 <= i <= lens.len() && buffer@.len() == i && expr is None && FileParser::skipped(
                    old(self),
                    self,
                    lens_sum(lens.take(i)),
                ) && self.spec_pending() == old(self).spec_pending(),
                simple ==> forall|m: int|
                    #![trigger buffer@[m]]
                    0 <= m < i ==> crate::parser::control::nested_statement_of(
                        old(self),
                        0 + lens_sum(lens.take(m)),
                        lens[m],
                        buffer@[m],
                    ),
            invariant
                FileParser::advanced(old(self), self),
                simple == exists|lens: Seq<nat>, tail: nat|
                    #[trigger] crate::parser::control::nested_block_tokens_at(old(self), 0, lens, tail),
                simple ==> crate::parser::control::nested_block_tokens_at(old(self), 0, lens, tail),
                forall|l: Seq<nat>, t: nat| #[trigger] block_tokens(old(self), l, t) ==> simple,
            ensures
                FileParser::advanced(old(self), self),
                self.lexer.remaining() < old(self).lexer.remaining(),
                closed_brace(old(self), self),
                simple ==> i == lens.len() && buffer@.len() == i && FileParser::skipped(
                    old(self),
                    self,
                    lens_sum(lens) + tail + 1,
                ) && self.spec_pending() == old(self).spec_pending(),
                simple ==> forall|m: int|
                    #![trigger buffer@[m]]
                    0 <= m < i ==> crate::parser::control::nested_statement_of(
                        old(self),
                        0 + lens_sum(lens.take(m)),
                        lens[m],
                        buffer@[m],
                    ),
                simple ==> if tail == 0 {
                    expr is None
                } else {
                    expr matches Some(e) && crate::parser::control::nested_end_of(old(self), 0 + lens_sum(lens), tail, e)
                },
            decreases self.lexer.remaining(),
        {
            let ghost pos = lens_sum(lens.take(i));
            let ghost s0 = *self;
            proof {
                if simple {
                    if i < lens.len() {
                        assert(crate::parser::control::nested_statement_tokens(old(self), 0 + pos, lens[i]));
                        crate::parser::control::lemma_nested_statement_shift(old(self), &s0, pos, 0, lens[i]);
                        assert(pos + 0 == 0 + pos);
                    } else {
                        assert(lens.take(i) =~= lens);
                        crate::parser::control::lemma_nested_end_shift(old(self), &s0, pos, 0, tail);
                        assert(pos + 0 == 0 + pos);
                    }
                }
            }
            let part = self.parse_block_part()?;
            match part {
                BlockPart::Closed => {
                    proof {
                        lemma_closed_brace_before(old(self), &s0, self);
                        if simple {
                            FileParser::lemma_skipped_trans(old(self), &s0, self, pos, 1);
                        }
                    }
                    break;
                },
                BlockPart::Value(e) => {
                    proof {
                        lemma_closed_brace_before(old(self), &s0, self);
                        if simple {
                            FileParser::lemma_skipped_trans(old(self), &s0, self, pos, tail + 1);
                            if crate::parser::control::control_end_tokens(&s0, 0, tail) {
                                crate::parser::control::lemma_control_start(&s0, 0, tail);
                            }
                            assert(tail > 0);
                            assert(crate::parser::control::nested_end_of(&s0, 0, tail, e));
                            assert(i == lens.len());
                            assert(lens.take(i) =~= lens);
                            assert(crate::parser::control::nested_end_of(old(self), pos + 0, tail, e));
                            assert(crate::parser::control::nested_end_of(old(self), 0 + lens_sum(lens), tail, e));
                        }
                    }
                    expr = Some(e);
                    break;
                },
                BlockPart::Item => {},
                BlockPart::Statement(st) => {
                    let ghost b0 = buffer@;
                    buffer.push(st);
                    proof {
                        if simple {
                            assert(crate::parser::control::nested_statement_of(&s0, 0, lens[i], st));
                            FileParser::lemma_skipped_trans(old(self), &s0, self, pos, lens[i]);
                            assert(lens.take(i + 1).drop_last() =~= lens.take(i));
                            assert forall|m: int| 0 <= m < i implies #[trigger] buffer@[m] == b0[m] by {}
                        }
                        i = i + 1;
                    }
                },
            }
        }
        let expression = match expr {
            Some(e) => Some(Box::new(e)),
            None => None,
        };
        let blk = Block { statements: buffer, expression };
        proof {
            if simple {
                assert forall|l: Seq<nat>, t: nat| #[trigger] crate::parser::control::nested_block_tokens_at(old(self), 0, l, t) implies l
                    == lens && t == tail by {
                    crate::parser::control::lemma_nested_block_unique_at(old(self), 0, l, t, lens, tail);
                }
            }
            assert forall|l: Seq<nat>, t: nat| #[trigger] block_tokens(old(self), l, t) implies block_of_tokens(
                old(self),
                l,
                t,
                blk,
            ) && FileParser::skipped(old(self), self, lens_sum(l) + t + 1) && self.spec_pending()
                == old(self).spec_pending() by {
                crate::parser::operator_expression::infix::lemma_skipped_none(old(self));
                lemma_block_shift(old(self), old(self), 0, l, t);
                crate::parser::control::lemma_nested_covers(old(self), 0, l, t, blk);
            }
        }
        Ok(blk)
    }

    /// Reads one part of a block: its closing brace, an item, a statement, or its value with the
    /// closing brace after it.
    #[verifier::rlimit(100)]
    fn parse_block_part(&mut self) -> (r: Result<BlockPart, ParserError>)
        requires
            old(self).wf(),
        ensures
            FileParser::advanced(old(self), final(self)),
            FileParser::reported(old(self), final(self), r),
            FileParser::consumed(old(self), final(self), r),
            (r matches Ok(BlockPart::Closed) || r matches Ok(BlockPart::Value(_))) ==> closed_brace(
                old(self),
                final(self),
            ),
            forall|len: nat|
                #[trigger] statement_tokens(old(self), 0, len) ==> (r matches Ok(
                    BlockPart::Statement(st),
                ) && statement_of_tokens(old(self), 0, len, st)) && FileParser::skipped(
                    old(self),
                    final(self),
                    len,
                ) && final(self).spec_pending() == old(self).spec_pending(),
            forall|tail: nat|
                #[trigger] block_end_tokens(old(self), 0, tail) ==> (if tail == 0 {
                    r matches Ok(BlockPart::Closed)
                } else {
                    r matches Ok(BlockPart::Value(e)) && expression_of(old(self), 0, tail, e)
                }) && FileParser::skipped(old(self), final(self), tail + 1)
                    && final(self).spec_pending() == old(self).spec_pending(),
            forall|len: nat|
                #[trigger] crate::parser::control::control_statement_tokens(old(self), 0, len) ==> (r matches Ok(
                    BlockPart::Statement(st),
                ) && crate::parser::control::control_statement_of(old(self), 0, len, st)) && FileParser::skipped(
                    old(self),
                    final(self),
                    len,
                ) && final(self).spec_pending() == old(self).spec_pending(),
            forall|tail: nat|
                #[trigger] crate::parser::control::control_end_tokens(old(self), 0, tail) ==> (r matches Ok(
                    BlockPart::Value(e),
                ) && crate::parser::control::control_of_tokens(old(self), 0, tail, e)) && FileParser::skipped(
                    old(self),
                    final(self),
                    tail + 1,
                ) && final(self).spec_pending() == old(self).spec_pending(),
        decreases old(self).lexer.remaining(), 2int,
    {
        let ghost s0 = *self;
        let ghost cs = exists|len: nat| #[trigger] crate::parser::control::control_statement_tokens(old(self), 0, len);
        let ghost csl: nat = choose|len: nat| #[trigger] crate::parser::control::control_statement_tokens(old(self), 0, len);
        let ghost semi = csl >= 1 && crate::parser::control::control_expression_at(old(self), 0, (csl - 1) as nat)
            && old(self).tokens((csl - 1) as nat) == punct_token(Punctuation::Semicolon);
        let ghost ce = exists|tail: nat| #[trigger] crate::parser::control::control_end_tokens(old(self), 0, tail);
        let ghost cet: nat = choose|tail: nat| #[trigger] crate::parser::control::control_end_tokens(old(self), 0, tail);
        let ghost cn: nat = if cs {
            if semi {
                (csl - 1) as nat
            } else {
                csl
            }
        } else {
            cet
        };
        proof {
            if cs || ce {
                assert(crate::parser::control::control_expression_at(old(self), 0, cn));
                crate::parser::control::lemma_control_start(old(self), 0, cn);
            }
            if cs {
                assert forall|len: nat| #[trigger] crate::parser::control::control_statement_tokens(old(self), 0, len) implies len
                    == csl by {
                    crate::parser::control::lemma_nested_statement_unique(old(self), 0, len, csl);
                }
                assert(!ce) by {
                    if ce {
                        crate::parser::control::lemma_nested_end_unique(old(self), 0, csl, cet, cet);
                    }
                }
                if !semi {
                    crate::parser::control::lemma_control_unique(old(self), 0, cn, (cn - 1) as nat, 0);
                }
            }
            if ce {
                assert forall|tail: nat| #[trigger] crate::parser::control::control_end_tokens(old(self), 0, tail) implies tail
                    == cet by {
                    crate::parser::control::lemma_nested_end_unique(old(self), 0, 0, tail, cet);
                }
            }
        }
        proof {
            reveal(statement_tokens);
            reveal(statement_of_tokens);
            reveal(block_end_tokens);
            crate::parser::operator_expression::infix::lemma_skipped_none(self);
            assert forall|len: nat| #[trigger] statement_tokens(old(self), 0, len) implies old(self).tokens(0) is Ok && !(old(
                self,
            ).tokens(0) matches Ok(SpecToken::Punctuation(Punctuation::RBrace))) && !(old(self).tokens(
                0,
            ) matches Ok(SpecToken::Keyword(Keyword::Fn))) && !(old(self).tokens(0) matches Ok(
                SpecToken::Keyword(Keyword::Struct),
            )) by {
                match old(self).tokens(0) {
                    Ok(SpecToken::Keyword(Keyword::Break)) => {},
                    Ok(SpecToken::Keyword(Keyword::Return)) => {},
                    Ok(SpecToken::Keyword(Keyword::Let)) => {},
                    _ => {
                        if !assignment_statement_tokens(old(self), 0, len) {
                            lemma_expression_facts(old(self), 0, (len - 1) as nat, (len - 1) as nat, 0);
                        }
                    },
                }
            }
            assert forall|tail: nat| #[trigger] block_end_tokens(old(self), 0, tail) implies old(self).tokens(0) is Ok && (tail > 0 ==> !(
            old(self).tokens(0) matches Ok(SpecToken::Keyword(k)) && k != Keyword::True && k
                != Keyword::False) && !(old(self).tokens(0) matches Ok(
                SpecToken::Punctuation(Punctuation::RBrace),
            ))) by {
                if tail > 0 {
                    lemma_expression_facts(old(self), 0, tail, tail, 0);
                }
            }
        }
        let ghost before_close = *self;
        if self.eat_punctuation(Punctuation::RBrace)? {
            proof {
                assert(FileParser::skipped(&before_close, self, 1));
                assert(closed_brace(old(self), self));
            }
            return Ok(BlockPart::Closed);
        }
        let mut item = self.eat_keyword(Keyword::Fn)?;
        if !item {
            item = self.eat_keyword(Keyword::Struct)?;
        }
        if item {
            self.parse_item()?;
            return Ok(BlockPart::Item);
        }
        let ghost s1 = *self;
        proof {
            FileParser::lemma_skipped_trans(&s0, &s0, &s1, 0, 0);
        }
        if self.eat_keyword(Keyword::Return)? {
            let ghost s2 = *self;
            proof {
                FileParser::lemma_skipped_trans(&s0, &s1, &s2, 0, 1);
                assert forall|len: nat| #[trigger] statement_tokens(old(self), 0, len) implies expression_at(
                    &s2,
                    0,
                    (len - 2) as nat,
                ) by {
                    lemma_call_shift(&s0, &s2, 1, 0, (len - 2) as nat);
                }
            }
            let value = self.parse_expr()?;
            let ghost s3 = *self;
            self.expect_punctuation(Punctuation::Semicolon)?;
            proof {
                assert forall|len: nat| #[trigger] statement_tokens(old(self), 0, len) implies expression_of(
                    old(self),
                    1,
                    (len - 2) as nat,
                    value,
                ) && FileParser::skipped(old(self), self, len) by {
                    let n = (len - 2) as nat;
                    lemma_call_shift(&s0, &s2, 1, 0, n);
                    FileParser::lemma_skipped_trans(&s0, &s2, &s3, 1, n);
                    assert(s3.tokens(0) == s0.tokens(0 + (1 + n)));
                    FileParser::lemma_skipped_trans(&s0, &s3, self, 1 + n, 1);
                }
            }
            return Ok(BlockPart::Statement(Statement::Return(value)));
        }
        if self.eat_keyword(Keyword::Let)? {
            let ghost s2 = *self;
            proof {
                FileParser::lemma_skipped_trans(&s0, &s1, &s2, 0, 1);
                assert(s2.tokens(0) == s0.tokens(0 + 1));
                assert(s2.tokens(1) == s0.tokens(1 + 1));
                assert(s2.tokens(2) == s0.tokens(2 + 1));
                assert forall|len: nat| #[trigger] statement_tokens(old(self), 0, len) implies let_tokens(
                    &s2,
                    0,
                    (len - 1) as nat,
                ) by {
                    lemma_let_shift(&s0, &s2, 1, 0, (len - 1) as nat);
                }
            }
            let statement = self.parse_let()?;
            proof {
                assert forall|len: nat| #[trigger] statement_tokens(old(self), 0, len) implies let_value_of_tokens(
                    old(self),
                    1,
                    (len - 1) as nat,
                    statement,
                ) && FileParser::skipped(old(self), self, len) by {
                    lemma_let_shift(&s0, &s2, 1, 0, (len - 1) as nat);
                    FileParser::lemma_skipped_trans(&s0, &s2, self, 1, (len - 1) as nat);
                }
            }
            return Ok(BlockPart::Statement(Statement::LetStmt(statement)));
        }
        if self.eat_keyword(Keyword::Break)? {
            let ghost s2 = *self;
            self.expect_punctuation(Punctuation::Semicolon)?;
            proof {
                FileParser::lemma_skipped_trans(&s0, &s1, &s2, 0, 1);
                assert(s2.tokens(0) == s0.tokens(0 + 1));
                FileParser::lemma_skipped_trans(&s0, &s2, self, 1, 1);
            }
            return Ok(BlockPart::Statement(Statement::Break));
        }
        let ghost s2 = *self;
        proof {
            FileParser::lemma_skipped_trans(&s0, &s1, &s2, 0, 0);
            crate::parser::operator_expression::infix::lemma_skipped_none(&s2);
            assert forall|len: nat| #[trigger] statement_tokens(old(self), 0, len) implies (if assignment_statement_tokens(
                old(self),
                0,
                len,
            ) {
                assignment_tokens(&s2, (len - 3) as nat)
            } else {
                expression_at(&s2, 0, (len - 1) as nat)
            }) by {
                lemma_call_shift(&s0, &s2, 0, 0, (len - 1) as nat);
                lemma_assignment_shift(&s0, &s2, 0, 0, (len - 3) as nat);
            }
            assert forall|n: nat| #[trigger] expression_at(&s2, 0, n) implies token_expression(&s2, n)
                || call_expression_at(&s2, 0, n) by {
                lemma_token_expression_shift(&s2, &s2, 0, n);
            }
            assert forall|tail: nat| #[trigger] block_end_tokens(old(self), 0, tail) && tail > 0 implies expression_at(
                &s2,
                0,
                tail,
            ) by {
                lemma_call_shift(&s0, &s2, 0, 0, tail);
            }
            if cs || ce {
                crate::parser::control::lemma_control_shift(&s0, &s2, 0, 0, cn);
                assert(crate::parser::control::control_expression_at(&s2, 0, cn));
            }
        }
        let infix = self.parse_infix()?;
        let ghost entries = infix.spec_expr()@;
        proof {
            crate::parser::operator_expression::postfix::lemma_valid_balanced(infix.spec_expr()@);
        }
        let postfix = PostfixNotation::from_infix(infix);
        let tree = postfix.into_tree();
        let ghost s3 = *self;
        proof {
            assert(tree.spec_expr() == tree_expr(shunting_yard(entries)));
            assert forall|n: nat| #[trigger] expression_at(old(self), 0, n) implies tree is Expression
                && expression_of(old(self), 0, n, tree.spec_expr()) && FileParser::skipped(old(self), &s3, n) by {
                lemma_call_shift(&s0, &s2, 0, 0, n);
                lemma_token_expression_shift(&s2, &s2, 0, n);
                if call_expression_at(&s2, 0, n) {
                    assert(infix is Expression);
                    let y = entries[0]->Operand_0;
                    assert(entries =~= seq![InfixEntry::Operand(y)]);
                    crate::parser::operator_expression::postfix::lemma_single_operand(y);
                    assert(call_of_tokens(&s2, 0, n, y));
                    assert(expression_of(&s2, 0, n, tree.spec_expr()));
                } else {
                    assert(token_expression(&s2, n));
                    assert(infix is Expression);
                    assert(entries_of_tokens_at(&s2, 0, entries));
                    assert(tree_of_tokens(&s2, 0, n, tree.spec_expr()));
                }
                assert(tree is Expression);
                assert(expression_of(&s2, 0, n, tree.spec_expr()) == expression_of(&s0, 0 + 0, n, tree.spec_expr()));
                assert(expression_of(&s0, 0, n, tree.spec_expr()));
                FileParser::lemma_skipped_trans(&s0, &s2, &s3, 0, n);
            }
            if cs || ce {
                crate::parser::control::lemma_control_shift(&s0, &s2, 0, 0, cn);
                assert(infix is Expression);
                let y = entries[0]->Operand_0;
                assert(entries =~= seq![InfixEntry::Operand(y)]);
                crate::parser::operator_expression::postfix::lemma_single_operand(y);
                assert(tree is Expression);
                assert(tree.spec_expr() == y);
                assert(crate::parser::control::control_of_tokens(&s2, 0, cn, y));
                assert(crate::parser::control::control_of_tokens(&s0, 0 + 0, cn, y));
                crate::parser::control::lemma_control_of_block(&s0, 0, cn, y);
                FileParser::lemma_skipped_trans(&s0, &s2, &s3, 0, cn);
                assert(s3.tokens(0) == s0.tokens(0 + cn));
            }
        }
        match tree {
            MaybeAssignment::Assignment { assignee, operator, expression } => {
                proof {
                    assert forall|len: nat| #[trigger] statement_tokens(old(self), 0, len) implies statement_of_tokens(
                        old(self),
                        0,
                        len,
                        Statement::Assignment { assignee, operator, expression },
                    ) && FileParser::skipped(old(self), self, len) by {
                        let n = (len - 3) as nat;
                        lemma_assignment_shift(&s0, &s2, 0, 0, n);
                        assert(expression == tree_expr(shunting_yard(entries)));
                        assert(tree_of_tokens(&s2, 2, n, expression));
                        crate::parser::operator_expression::infix::lemma_tree_of_tokens_shift(&s0, &s2, 0, 2, n);
                        FileParser::lemma_skipped_trans(&s0, &s2, &s3, 0, n + 3);
                    }
                }
                Ok(BlockPart::Statement(Statement::Assignment { assignee, operator, expression }))
            },
            MaybeAssignment::Expression(e) => {
                let ghost before_close = *self;
                if self.eat_punctuation(Punctuation::RBrace)? {
                    proof {
                        assert(FileParser::skipped(&before_close, self, 1));
                        assert(closed_brace(old(self), self));
                        assert forall|tail: nat| #[trigger] block_end_tokens(old(self), 0, tail) && tail > 0 implies expression_of(
                            old(self),
                            0,
                            tail,
                            e,
                        ) && FileParser::skipped(old(self), self, tail + 1) by {
                            FileParser::lemma_skipped_trans(&s0, &s3, self, tail, 1);
                        }
                        assert forall|len: nat| #[trigger] statement_tokens(old(self), 0, len) implies false by {
                            if !assignment_statement_tokens(old(self), 0, len) {
                                let n = (len - 1) as nat;
                                assert(s3.tokens(0) == s0.tokens(0 + n));
                            }
                        }
                    }
                    return Ok(BlockPart::Value(e));
                }
                if e.is_block_expression() {
                    self.eat_punctuation(Punctuation::Semicolon)?;
                } else {
                    self.expect_punctuation(Punctuation::Semicolon)?;
                }
                proof {
                    assert forall|len: nat| #[trigger] statement_tokens(old(self), 0, len) implies !assignment_statement_tokens(
                        old(self),
                        0,
                        len,
                    ) && expression_of(
                        old(self),
                        0,
                        (len - 1) as nat,
                        e,
                    ) && FileParser::skipped(old(self), self, len) by {
                        let n = (len - 1) as nat;
                        assert(s3.tokens(0) == s0.tokens(0 + n));
                        FileParser::lemma_skipped_trans(&s0, &s3, &before_close, n, 0);
                        FileParser::lemma_skipped_trans(&s0, &before_close, self, n, 1);
                    }
                    assert forall|tail: nat| #[trigger] block_end_tokens(old(self), 0, tail) && tail > 0 implies false by {
                        assert(s3.tokens(0) == s0.tokens(0 + tail));
                    }
                }
                Ok(BlockPart::Statement(Statement::ExprStmt(e)))
            },
        }
    }

    /// Parses an `if` conditional. Keyword `if` is expected to be consumed beforehand.
    ///
    /// A condition, a block and an optional `else` block as [if_tokens] has them are read whole.
    #[verifier::rlimit(50)]
    pub fn parse_if(&mut self) -> (r: Result<Expression, ParserError>)
        requires
            old(self).wf(),
        ensures
            FileParser::advanced(old(self), final(self)),
            FileParser::reported(old(self), final(self), r),
            FileParser::consumed(old(self), final(self), r),
            r matches Ok(e) ==> e is If,
            r is Ok ==> closed_brace(old(self), final(self)),
            forall|n: nat, lens: Seq<nat>, tail: nat, other: Option<(Seq<nat>, nat)>|
                #[trigger] if_tokens(old(self), n, lens, tail, other) ==> (r matches Ok(
                    Expression::If { condition, body, else_body },
                ) && expression_of(old(self), 0, n, *condition) && block_of_tokens_at(
                    old(self),
                    n + 1,
                    lens,
                    tail,
                    body,
                ) && match other {
                    None => else_body is None && FileParser::skipped(
                        old(self),
                        final(self),
                        after_block(n, lens, tail),
                    ),
                    Some((l2, t2)) => else_body matches Some(b2) && block_of_tokens_at(
                        old(self),
                        after_block(n, lens, tail) + 2,
                        l2,
                        t2,
                        b2,
                    ) && FileParser::skipped(
                        old(self),
                        final(self),
                        after_block(after_block(n, lens, tail) + 1, l2, t2),
                    ),
                }) && final(self).spec_pending() == old(self).spec_pending(),
        decreases old(self).lexer.remaining(), 3int,
    {
        let ghost simple = exists|n: nat, lens: Seq<nat>, tail: nat, other: Option<(Seq<nat>, nat)>|
            #[trigger] if_tokens(old(self), n, lens, tail, other);
        let ghost w = choose|n: nat, lens: Seq<nat>, tail: nat, other: Option<(Seq<nat>, nat)>|
            if_tokens(old(self), n, lens, tail, other);
        let ghost n = w.0;
        let ghost lens = w.1;
        let ghost tail = w.2;
        let ghost e = after_block(n, lens, tail);
        proof {
            crate::parser::operator_expression::infix::lemma_skipped_none(self);
            if simple {
                assert forall|m: nat, l: Seq<nat>, t: nat, o: Option<(Seq<nat>, nat)>| #[trigger] if_tokens(
                    old(self),
                    m,
                    l,
                    t,
                    o,
                ) implies m == n by {
                    lemma_expression_facts(old(self), 0, n, m, 0);
                }
            }
        }
        let condition = Box::new(self.parse_expr()?);
        let ghost s1 = *self;
        proof {
            if simple {
                assert(s1.tokens(0) == old(self).tokens(0 + n));
            }
        }
        self.expect_punctuation(Punctuation::LBrace)?;
        let ghost before_body = *self;
        proof {
            if simple {
                FileParser::lemma_skipped_trans(old(self), &s1, self, n, 1);
                lemma_block_shift_all(old(self), self, n + 1);
                assert forall|m: nat, l: Seq<nat>, t: nat, o: Option<(Seq<nat>, nat)>| #[trigger] if_tokens(
                    old(self),
                    m,
                    l,
                    t,
                    o,
                ) implies l == lens && t == tail by {
                    lemma_block_unique(&before_body, l, t, lens, tail);
                }
            }
        }
        let body = self.parse_block()?;
        let ghost after_body = *self;
        proof {
            if simple {
                FileParser::lemma_skipped_trans(old(self), &before_body, self, n + 1, lens_sum(lens) + tail + 1);
                assert(self.tokens(0) == old(self).tokens(0 + e));
            }
        }
        let else_body = if self.eat_keyword(Keyword::Else)? {
            let ghost s3 = *self;
            proof {
                if simple {
                    FileParser::lemma_skipped_trans(old(self), &after_body, &s3, e, 1);
                    assert(s3.tokens(0) == old(self).tokens(0 + (e + 1)));
                }
            }
            self.expect_punctuation(Punctuation::LBrace)?;
            let ghost before_else = *self;
            proof {
                if simple {
                    FileParser::lemma_skipped_trans(old(self), &s3, self, e + 1, 1);
                    lemma_block_shift_all(old(self), self, e + 2);
                }
            }
            let b = self.parse_block()?;
            proof {
                lemma_closed_brace_before(old(self), &before_else, self);
                if simple {
                    assert forall|l2: Seq<nat>, t2: nat| #[trigger] block_tokens_at(old(self), e + 2, l2, t2) implies FileParser::skipped(
                        old(self),
                        self,
                        after_block(e + 1, l2, t2),
                    ) by {
                        FileParser::lemma_skipped_trans(old(self), &before_else, self, e + 2, lens_sum(l2) + t2 + 1);
                    }
                }
            }
            Some(b)
        } else {
            proof {
                lemma_closed_brace_look(&before_body, &after_body, self);
                lemma_closed_brace_before(old(self), &before_body, self);
                if simple {
                    FileParser::lemma_skipped_trans(old(self), &after_body, self, e, 0);
                }
            }
            None
        };
        Ok(Expression::If { condition, body, else_body })
    }

    /// Parses a `while` loop. Keyword `while` is expected to be consumed beforehand.
    ///
    /// A condition and a block as [while_tokens] has them are read whole.
    #[verifier::rlimit(30)]
    pub fn parse_while(&mut self) -> (r: Result<Expression, ParserError>)
        requires
            old(self).wf(),
        ensures
            FileParser::advanced(old(self), final(self)),
            FileParser::reported(old(self), final(self), r),
            FileParser::consumed(old(self), final(self), r),
            r matches Ok(e) ==> e is While,
            r is Ok ==> closed_brace(old(self), final(self)),
            forall|n: nat, lens: Seq<nat>, tail: nat|
                #[trigger] while_tokens(old(self), n, lens, tail) ==> (r matches Ok(
                    Expression::While { condition, body },
                ) && expression_of(old(self), 0, n, *condition) && block_of_tokens_at(
                    old(self),
                    n + 1,
                    lens,
                    tail,
                    body,
                )) && FileParser::skipped(old(self), final(self), after_block(n, lens, tail))
                    && final(self).spec_pending() == old(self).spec_pending(),
        decreases old(self).lexer.remaining(), 3int,
    {
        let ghost simple = exists|n: nat, lens: Seq<nat>, tail: nat| #[trigger] while_tokens(old(self), n, lens, tail);
        let ghost n = (choose|n: nat, lens: Seq<nat>, tail: nat| while_tokens(old(self), n, lens, tail)).0;
        proof {
            crate::parser::operator_expression::infix::lemma_skipped_none(self);
            if simple {
                assert forall|m: nat, lens: Seq<nat>, tail: nat| #[trigger] while_tokens(old(self), m, lens, tail) implies m == n by {
                    lemma_expression_facts(old(self), 0, n, m, 0);
                }
            }
        }
        let condition = Box::new(self.parse_expr()?);
        let ghost s1 = *self;
        proof {
            if simple {
                assert(s1.tokens(0) == old(self).tokens(0 + n));
            }
        }
        self.expect_punctuation(Punctuation::LBrace)?;
        let ghost before_body = *self;
        proof {
            if simple {
                FileParser::lemma_skipped_trans(old(self), &s1, self, n, 1);
                lemma_block_shift_all(old(self), self, n + 1);
            }
        }
        let body = self.parse_block()?;
        proof {
            lemma_closed_brace_before(old(self), &before_body, self);
            if simple {
                assert forall|m: nat, lens: Seq<nat>, tail: nat| #[trigger] while_tokens(old(self), m, lens, tail) implies expression_of(
                    old(self),
                    0,
                    m,
                    *condition,
                ) && FileParser::skipped(old(self), self, after_block(m, lens, tail)) by {
                    FileParser::lemma_skipped_trans(
                        old(self),
                        &before_body,
                        self,
                        n + 1,
                        lens_sum(lens) + tail + 1,
                    );
                }
            }
        }
        Ok(Expression::While { condition, body })
    }

    /// Parses a `for` loop. Keyword `for` is expected to be consumed beforehand.
    pub fn parse_for(&mut self) -> (r: Result<Expression, ParserError>)
        requires
            old(self).wf(),
        ensures
            FileParser::advanced(old(self), final(self)),
            FileParser::reported(old(self), final(self), r),
            FileParser::consumed(old(self), final(self), r),
            r matches Ok(e) ==> e is For,
            r matches Ok(Expression::For { var, .. }) ==> old(self).tokens(0) == Ok::<
                SpecToken,
                SpecLexerError,
            >(SpecToken::Identifier(var@)) && old(self).tokens(1) == Ok::<SpecToken, SpecLexerError>(
                SpecToken::Keyword(Keyword::In),
            ),
            r is Ok ==> closed_brace(old(self), final(self)),
            forall|n: nat, lens: Seq<nat>, tail: nat|
                #[trigger] for_tokens(old(self), n, lens, tail) ==> (r matches Ok(
                    Expression::For { expr, body, .. },
                ) && expression_of(old(self), 2, n, *expr) && block_of_tokens_at(
                    old(self),
                    n + 3,
                    lens,
                    tail,
                    body,
                )) && FileParser::skipped(old(self), final(self), after_block(n + 2, lens, tail))
                    && final(self).spec_pending() == old(self).spec_pending(),
        decreases old(self).lexer.remaining(), 0int,
    {
        let ghost simple = exists|n: nat, lens: Seq<nat>, tail: nat| #[trigger] for_tokens(old(self), n, lens, tail);
        let ghost n = (choose|n: nat, lens: Seq<nat>, tail: nat| for_tokens(old(self), n, lens, tail)).0;
        let ghost s0 = *self;
        let var = self.expect_identifier()?;
        let ghost s1 = *self;
        proof {
            if simple {
                assert(s1.tokens(0) == s0.tokens(0 + 1));
            }
        }
        self.expect_keyword(Keyword::In)?;
        let ghost s2 = *self;
        proof {
            if simple {
                FileParser::lemma_skipped_trans(&s0, &s1, &s2, 1, 1);
                lemma_call_shift(&s0, &s2, 2, 0, n);
                assert(2 + 0 == 2nat);
                assert(expression_at(&s2, 0, n));
                assert forall|m: nat, l: Seq<nat>, t: nat| #[trigger] for_tokens(old(self), m, l, t) implies m == n by {
                    lemma_expression_facts(old(self), 2, n, m, 0);
                }
            }
        }
        let expr = Box::new(self.parse_expr()?);
        let ghost s3 = *self;
        proof {
            if simple {
                FileParser::lemma_skipped_trans(&s0, &s2, &s3, 2, n);
                assert(s3.tokens(0) == s0.tokens(0 + (2 + n)));
                lemma_call_shift(&s0, &s2, 2, 0, n);
                assert(expression_of(&s2, 0, n, *expr));
                assert(expression_of(old(self), 2 + 0, n, *expr));
                assert(expression_of(old(self), 2, n, *expr));
            }
        }
        self.expect_punctuation(Punctuation::LBrace)?;
        let ghost before_body = *self;
        proof {
            if simple {
                FileParser::lemma_skipped_trans(&s0, &s3, self, 2 + n, 1);
                lemma_block_shift_all(old(self), self, n + 3);
            }
        }
        let body = self.parse_block()?;
        proof {
            lemma_closed_brace_before(old(self), &before_body, self);
            if simple {
                assert forall|l: Seq<nat>, t: nat| #[trigger] block_tokens_at(old(self), n + 3, l, t) implies FileParser::skipped(
                    old(self),
                    self,
                    after_block(n + 2, l, t),
                ) by {
                    FileParser::lemma_skipped_trans(old(self), &before_body, self, n + 3, lens_sum(l) + t + 1);
                }
            }
        }
        Ok(Expression::For { var, expr, body })
    }
}

} // verus!
