//! Infix operator expressions.

use std::collections::VecDeque;

use vstd::prelude::*;

use crate::ast::Identifier;
use crate::ast::expression::{Expression, Literal};
use crate::lexer::keyword::Keyword;
use crate::lexer::operator::{AssignOp, BinaryOp, UnaryOp};
use crate::lexer::punctuation::Punctuation;
use crate::lexer::{SpecLexerError, SpecToken};
use crate::parser::{FileParser, ParserError};
use crate::parser::operator_expression::MaybeAssignment;

verus! {

/// A sequence of operands and operators in infix notation, possibly assigned to a variable.
pub type InfixNotation = MaybeAssignment<VecDeque<InfixEntry>>;

/// An entry of infix expression: operand, operator (unary or binary) or parenthesis.
#[derive(Debug, PartialEq, Eq)]
pub enum InfixEntry {
    Operand(Expression),
    UnaryOperator(UnaryOp),
    BinaryOperator(BinaryOp),
    LeftParenthesis,
    RightParenthesis,
}

/// A sequence of operands and operators in infix notation.
#[derive(Debug, PartialEq, Eq)]
pub struct InfixExpr(pub VecDeque<InfixEntry>);

/// One step of reading an infix expression. The state tells whether an operand was just
/// completed (by an operand or a closing parenthesis) and how many parentheses are open. Operands,
/// unary operators and opening parentheses may only come where an operand is awaited; binary
/// operators and closing parentheses only after a completed operand, and a closing parenthesis
/// only while one is open.
pub open spec fn infix_step(e: InfixEntry, after: bool, depth: nat) -> Option<(bool, nat)> {
    match e {
        InfixEntry::Operand(_) => if !after {
            Some((true, depth))
        } else {
            None
        },
        InfixEntry::UnaryOperator(_) => if !after {
            Some((false, depth))
        } else {
            None
        },
        InfixEntry::BinaryOperator(_) => if after {
            Some((false, depth))
        } else {
            None
        },
        InfixEntry::LeftParenthesis => if !after {
            Some((false, depth + 1))
        } else {
            None
        },
        InfixEntry::RightParenthesis => if after && depth > 0 {
            Some((true, (depth - 1) as nat))
        } else {
            None
        },
    }
}

/// The state after reading the entries from the start, if they are a valid beginning of an infix
/// expression.
pub open spec fn infix_run(s: Seq<InfixEntry>) -> Option<(bool, nat)>
    decreases s.len(),
{
    if s.len() == 0 {
        Some((false, 0))
    } else {
        match infix_run(s.drop_last()) {
            Some((after, depth)) => infix_step(s.last(), after, depth),
            None => None,
        }
    }
}

/// The entries form a complete infix expression: operators between operands, balanced
/// parentheses, and no operator or parenthesis left waiting for an operand.
pub open spec fn infix_valid(s: Seq<InfixEntry>) -> bool {
    infix_run(s) == Some((true, 0nat))
}

/// The operands of the entries, in order.
pub open spec fn infix_operands(s: Seq<InfixEntry>) -> Seq<Expression>
    decreases s.len(),
{
    if s.len() == 0 {
        seq![]
    } else {
        match s.last() {
            InfixEntry::Operand(e) => infix_operands(s.drop_last()).push(e),
            _ => infix_operands(s.drop_last()),
        }
    }
}

/// Every beginning of a valid beginning is valid.
pub proof fn lemma_infix_run_prefix(s: Seq<InfixEntry>, i: int)
    requires
        0 <= i <= s.len(),
        infix_run(s) is Some,
    ensures
        infix_run(s.take(i)) is Some,
    decreases s.len() - i,
{
    if i < s.len() {
        assert(s.take(i + 1).drop_last() =~= s.take(i));
        lemma_infix_run_prefix(s, i + 1);
    } else {
        assert(s.take(i) =~= s);
    }
}

/// The entries end with a completed operand: an operand or a closing parenthesis.
pub open spec fn ends_operand(s: Seq<InfixEntry>) -> bool {
    s.len() > 0 && (s.last() is Operand || s.last() is RightParenthesis)
}

pub proof fn lemma_infix_run_push(s: Seq<InfixEntry>, e: InfixEntry)
    ensures
        infix_run(s.push(e)) == match infix_run(s) {
            Some((after, depth)) => infix_step(e, after, depth),
            None => None,
        },
{
    assert(s.push(e).drop_last() =~= s);
}


/// The punctuation denotes a unary operator.
pub open spec fn unary_punctuation(p: Punctuation) -> bool {
    p == Punctuation::Plus || p == Punctuation::Minus || p == Punctuation::Bang
}

/// The punctuation denotes a binary operator.
pub open spec fn binary_punctuation(p: Punctuation) -> bool {
    exists|op: BinaryOp| op.spec_punctuation() == p
}

/// The punctuation denotes an assignment operator.
pub open spec fn assignment_punctuation(p: Punctuation) -> bool {
    p == Punctuation::Assign || p == Punctuation::AssignPlus || p == Punctuation::AssignMinus
        || p == Punctuation::AssignMul || p == Punctuation::AssignDiv
}

pub proof fn lemma_operator_punctuation(p: Punctuation)
    ensures
        (exists|op: UnaryOp| op.spec_punctuation() == p) == unary_punctuation(p),
        (exists|op: AssignOp| op.spec_punctuation() == p) == assignment_punctuation(p),
        binary_punctuation(p) ==> !assignment_punctuation(p) && p != Punctuation::LParent && p
            != Punctuation::RParent,
{
    if unary_punctuation(p) {
        let op = if p == Punctuation::Plus {
            UnaryOp::Add
        } else if p == Punctuation::Minus {
            UnaryOp::Sub
        } else {
            UnaryOp::Not
        };
        assert(op.spec_punctuation() == p);
    }
    if assignment_punctuation(p) {
        let op = if p == Punctuation::Assign {
            AssignOp::Assign
        } else if p == Punctuation::AssignPlus {
            AssignOp::AddAssign
        } else if p == Punctuation::AssignMinus {
            AssignOp::SubAssign
        } else if p == Punctuation::AssignMul {
            AssignOp::MulAssign
        } else {
            AssignOp::DivAssign
        };
        assert(op.spec_punctuation() == p);
    }
    if binary_punctuation(p) {
        let op = choose|op: BinaryOp| op.spec_punctuation() == p;
        assert(op.spec_punctuation() == p);
    }
}

/// The token is an operand by itself, where `next` follows it: a number, a string, `true`,
/// `false`, or a variable: a name other than `super` and `crate` that no `::` or `(` follows.
pub open spec fn single_token_operand(t: SpecToken, next: SpecToken) -> bool {
    match t {
        SpecToken::Number(_) => true,
        SpecToken::String(_) => true,
        SpecToken::Keyword(k) => k == Keyword::True || k == Keyword::False,
        SpecToken::Identifier(name) => name != seq!['s', 'u', 'p', 'e', 'r'] && name != seq![
            'c',
            'r',
            'a',
            't',
            'e',
        ] && next != SpecToken::Punctuation(Punctuation::Colon) && next != SpecToken::Punctuation(
            Punctuation::LParent,
        ),
        _ => false,
    }
}

/// One token of an operator expression whose operands are single tokens, read after a completed
/// operand (`after`) or where an operand is awaited, with `depth` parentheses open; `next` is the
/// token after it. Gives the state after it, if it fits there.
pub open spec fn token_step(t: SpecToken, next: SpecToken, after: bool, depth: nat) -> Option<(bool, nat)> {
    if after {
        match t {
            SpecToken::Punctuation(p) => if binary_punctuation(p) {
                Some((false, depth))
            } else if p == Punctuation::RParent && depth > 0 {
                Some((true, (depth - 1) as nat))
            } else {
                None
            },
            _ => None,
        }
    } else if single_token_operand(t, next) {
        Some((true, depth))
    } else {
        match t {
            SpecToken::Punctuation(p) => if unary_punctuation(p) {
                Some((false, depth))
            } else if p == Punctuation::LParent && depth < usize::MAX {
                Some((false, depth + 1))
            } else {
                None
            },
            _ => None,
        }
    }
}

/// The state after the first `k` tokens of `p`, if they fit such an expression.
pub open spec fn token_run(p: &FileParser, k: nat) -> Option<(bool, nat)>
    decreases k,
{
    if k == 0 {
        Some((false, 0nat))
    } else {
        match (token_run(p, (k - 1) as nat), p.tokens((k - 1) as nat), p.tokens(k)) {
            (Some((after, depth)), Ok(t), Ok(next)) => token_step(t, next, after, depth),
            _ => None,
        }
    }
}

/// A token that ends an operator expression after a completed operand: no binary or
/// assignment operator.
pub open spec fn ends_expression(t: SpecToken) -> bool {
    match t {
        SpecToken::Punctuation(p) => !binary_punctuation(p) && !assignment_punctuation(p),
        _ => true,
    }
}

/// The first `n` tokens of `p` form a complete operator expression whose operands are single
/// tokens, and the token after them ends it.
pub open spec fn token_expression(p: &FileParser, n: nat) -> bool {
    &&& token_run(p, n) == Some((true, 0nat))
    &&& p.tokens(n) matches Ok(t) && ends_expression(t)
}

/// The entry read from token `t`, after a completed operand (`after`) or not.
pub open spec fn entry_of_token(e: InfixEntry, t: SpecToken, after: bool) -> bool {
    match t {
        SpecToken::Punctuation(Punctuation::LParent) => e is LeftParenthesis,
        SpecToken::Punctuation(Punctuation::RParent) => e is RightParenthesis,
        SpecToken::Punctuation(p) => if after {
            e matches InfixEntry::BinaryOperator(op) && op.spec_punctuation() == p
        } else {
            e matches InfixEntry::UnaryOperator(op) && op.spec_punctuation() == p
        },
        SpecToken::Number(n) => e matches InfixEntry::Operand(Expression::Literal(Literal::Number(m)))
            && m@ == n,
        SpecToken::String(s) => e matches InfixEntry::Operand(Expression::Literal(Literal::String(x)))
            && x@ == s,
        SpecToken::Keyword(k) => e == InfixEntry::Operand(
            Expression::Literal(Literal::Boolean(k == Keyword::True)),
        ),
        SpecToken::Identifier(name) => e matches InfixEntry::Operand(Expression::Var(id)) && id@
            == name,
        SpecToken::Eof => false,
    }
}

/// `entries` are read one from each of the first `entries.len()` tokens of `p`.
pub open spec fn entries_of_tokens(p: &FileParser, entries: Seq<InfixEntry>) -> bool {
    forall|i: int|
        0 <= i < entries.len() ==> (p.tokens(i as nat) matches Ok(t) && #[trigger] token_run(
            p,
            i as nat,
        ) matches Some((after, _)) && entry_of_token(entries[i], t, after))
}

/// A state that fits stays fitting on every shorter beginning.
pub proof fn lemma_token_run_prefix(p: &FileParser, j: nat, k: nat)
    requires
        j <= k,
        token_run(p, k) is Some,
    ensures
        token_run(p, j) is Some,
    decreases k - j,
{
    if j < k {
        lemma_token_run_prefix(p, j + 1, k);
    }
}

/// After a complete expression that its next token ends, no longer beginning fits.
pub proof fn lemma_token_run_end(p: &FileParser, n: nat, m: nat)
    requires
        token_expression(p, n),
        n < m,
    ensures
        token_run(p, m) is None,
    decreases m - n,
{
    if m == n + 1 {
        if let Ok(SpecToken::Punctuation(q)) = p.tokens(n) {
            lemma_operator_punctuation(q);
        }
    } else {
        lemma_token_run_end(p, n, (m - 1) as nat);
    }
}


/// Within such an expression, the next token is there, denotes no assignment operator, and, short
/// of the end, fits.
pub proof fn lemma_next_token(p: &FileParser, n: nat, k: nat)
    requires
        token_expression(p, n),
        k <= n,
    ensures
        p.tokens(k) matches Ok(t) && !(t matches SpecToken::Punctuation(q) && exists|op: AssignOp|
            op.spec_punctuation() == q),
        k < n ==> token_run(p, k + 1) is Some && p.tokens(k + 1) is Ok,
        k == n ==> token_run(p, k) == Some((true, 0nat)),
{
    if k < n {
        lemma_token_run_prefix(p, k + 1, n);
    }
    if let Ok(SpecToken::Punctuation(q)) = p.tokens(k) {
        lemma_operator_punctuation(q);
    }
}

/// Another entry read from the next token.
pub proof fn lemma_entries_push(p: &FileParser, entries: Seq<InfixEntry>, e: InfixEntry)
    requires
        entries_of_tokens(p, entries),
        p.tokens(entries.len()) matches Ok(t) && token_run(p, entries.len()) matches Some((after, _))
            && entry_of_token(e, t, after),
    ensures
        entries_of_tokens(p, entries.push(e)),
{
    let s = entries.push(e);
    assert forall|i: int| 0 <= i < s.len() implies (p.tokens(i as nat) matches Ok(t) && #[trigger] token_run(
        p,
        i as nat,
    ) matches Some((after, _)) && entry_of_token(s[i], t, after)) by {
        if i < entries.len() {
            assert(s[i] == entries[i]);
        }
    }
}

/// Reading nothing skips no token.
pub proof fn lemma_skipped_none(p: &FileParser)
    ensures
        FileParser::skipped(p, p, 0),
{
    assert forall|k: nat| #[trigger] p.tokens(k) == p.tokens(k + 0) by {
        assert(k + 0 == k);
    }
}


/// [token_run] on the tokens of `p` from the `j`-th on.
pub open spec fn token_run_at(p: &FileParser, j: nat, k: nat) -> Option<(bool, nat)>
    decreases k,
{
    if k == 0 {
        Some((false, 0nat))
    } else {
        match (token_run_at(p, j, (k - 1) as nat), p.tokens(j + (k - 1) as nat), p.tokens(j + k)) {
            (Some((after, depth)), Ok(t), Ok(next)) => token_step(t, next, after, depth),
            _ => None,
        }
    }
}

/// [token_expression] on the tokens of `p` from the `j`-th on.
pub open spec fn token_expression_at(p: &FileParser, j: nat, n: nat) -> bool {
    &&& token_run_at(p, j, n) == Some((true, 0nat))
    &&& p.tokens(j + n) matches Ok(t) && ends_expression(t)
}

/// [entries_of_tokens] on the tokens of `p` from the `j`-th on.
pub open spec fn entries_of_tokens_at(p: &FileParser, j: nat, entries: Seq<InfixEntry>) -> bool {
    forall|i: int|
        0 <= i < entries.len() ==> (p.tokens(j + i as nat) matches Ok(t) && #[trigger] token_run_at(
            p,
            j,
            i as nat,
        ) matches Some((after, _)) && entry_of_token(entries[i], t, after))
}

/// The expression `e` is the tree of the operator expression that the `n` tokens of `p` from
/// the `j`-th on form.
pub open spec fn tree_of_tokens(p: &FileParser, j: nat, n: nat, e: Expression) -> bool {
    exists|s: Seq<InfixEntry>|
        s.len() == n && entries_of_tokens_at(p, j, s) && e == crate::parser::operator_expression::postfix::tree_expr(
            #[trigger] crate::parser::operator_expression::postfix::shunting_yard(s),
        )
}

/// Reading from a parser `j` tokens further on is reading from the `j`-th token on.
pub proof fn lemma_token_run_shift(a: &FileParser, b: &FileParser, j: nat, k: nat)
    requires
        FileParser::skipped(a, b, j),
    ensures
        token_run(b, k) == token_run_at(a, j, k),
    decreases k,
{
    if k > 0 {
        lemma_token_run_shift(a, b, j, (k - 1) as nat);
        assert(b.tokens((k - 1) as nat) == a.tokens((k - 1) as nat + j));
        assert(b.tokens(k) == a.tokens(k + j));
        assert((k - 1) as nat + j == j + (k - 1) as nat);
    }
}

/// Such an expression read `j` tokens further on is one from the `j`-th token on.
pub proof fn lemma_token_expression_shift(a: &FileParser, b: &FileParser, j: nat, n: nat)
    requires
        FileParser::skipped(a, b, j),
    ensures
        token_expression(b, n) == token_expression_at(a, j, n),
        forall|s: Seq<InfixEntry>| entries_of_tokens(b, s) == #[trigger] entries_of_tokens_at(a, j, s),
{
    lemma_token_run_shift(a, b, j, n);
    assert(b.tokens(n) == a.tokens(n + j));
    assert forall|s: Seq<InfixEntry>| entries_of_tokens(b, s) == #[trigger] entries_of_tokens_at(a, j, s) by {
        if entries_of_tokens(b, s) {
            assert forall|i: int| 0 <= i < s.len() implies (a.tokens(j + i as nat) matches Ok(t)
                && #[trigger] token_run_at(a, j, i as nat) matches Some((after, _)) && entry_of_token(
                s[i],
                t,
                after,
            )) by {
                lemma_token_run_shift(a, b, j, i as nat);
                assert(b.tokens(i as nat) == a.tokens(i as nat + j));
                assert(token_run(b, i as nat) matches Some(_));
            }
        }
        if entries_of_tokens_at(a, j, s) {
            assert forall|i: int| 0 <= i < s.len() implies (b.tokens(i as nat) matches Ok(t)
                && #[trigger] token_run(b, i as nat) matches Some((after, _)) && entry_of_token(
                s[i],
                t,
                after,
            )) by {
                lemma_token_run_shift(a, b, j, i as nat);
                assert(b.tokens(i as nat) == a.tokens(i as nat + j));
                assert(token_run_at(a, j, i as nat) matches Some(_));
            }
        }
    }
}


/// Reading from a parser `j` tokens further on, from its `i`-th token, is reading from the
/// `j + i`-th token on.
pub proof fn lemma_token_run_at_shift(a: &FileParser, b: &FileParser, j: nat, i: nat, k: nat)
    requires
        FileParser::skipped(a, b, j),
    ensures
        token_run_at(b, i, k) == token_run_at(a, j + i, k),
    decreases k,
{
    if k > 0 {
        lemma_token_run_at_shift(a, b, j, i, (k - 1) as nat);
        assert(b.tokens(i + (k - 1) as nat) == a.tokens(i + (k - 1) as nat + j));
        assert(b.tokens(i + k) == a.tokens(i + k + j));
        assert(i + (k - 1) as nat + j == (j + i) + (k - 1) as nat);
        assert(i + k + j == (j + i) + k);
    }
}

/// The expression read from a parser `j` tokens further on, from its `i`-th token, is the one
/// read from the `j + i`-th token on.
pub proof fn lemma_tree_of_tokens_shift(a: &FileParser, b: &FileParser, j: nat, i: nat, n: nat)
    requires
        FileParser::skipped(a, b, j),
    ensures
        token_expression_at(b, i, n) == token_expression_at(a, j + i, n),
        forall|e: Expression| #[trigger] tree_of_tokens(b, i, n, e) == tree_of_tokens(a, j + i, n, e),
{
    lemma_token_run_at_shift(a, b, j, i, n);
    assert(b.tokens(i + n) == a.tokens(i + n + j));
    assert(i + n + j == (j + i) + n);
    assert forall|s: Seq<InfixEntry>| entries_of_tokens_at(b, i, s) == #[trigger] entries_of_tokens_at(
        a,
        j + i,
        s,
    ) by {
        assert forall|m: int| 0 <= m < s.len() implies (b.tokens(i + m as nat) == a.tokens((j + i) + m as nat)
            && #[trigger] token_run_at(b, i, m as nat) == token_run_at(a, j + i, m as nat)) by {
            lemma_token_run_at_shift(a, b, j, i, m as nat);
            assert(b.tokens(i + m as nat) == a.tokens(i + m as nat + j));
            assert(i + m as nat + j == (j + i) + m as nat);
        }
        if entries_of_tokens_at(b, i, s) {
            assert forall|m: int| 0 <= m < s.len() implies (a.tokens((j + i) + m as nat) matches Ok(t)
                && #[trigger] token_run_at(a, j + i, m as nat) matches Some((after, _))
                && entry_of_token(s[m], t, after)) by {
                assert(token_run_at(b, i, m as nat) matches Some(_));
            }
        }
        if entries_of_tokens_at(a, j + i, s) {
            assert forall|m: int| 0 <= m < s.len() implies (b.tokens(i + m as nat) matches Ok(t)
                && #[trigger] token_run_at(b, i, m as nat) matches Some((after, _))
                && entry_of_token(s[m], t, after)) by {
                assert(token_run_at(a, j + i, m as nat) matches Some(_));
            }
        }
    }
}


/// A state that fits from the `j`-th token on stays fitting on every shorter beginning.
pub proof fn lemma_token_run_at_prefix(p: &FileParser, j: nat, m: nat, k: nat)
    requires
        m <= k,
        token_run_at(p, j, k) is Some,
    ensures
        token_run_at(p, j, m) is Some,
    decreases k - m,
{
    if m < k {
        lemma_token_run_at_prefix(p, j, m + 1, k);
    }
}

/// Such an expression has a first token, and it fits where an operand is awaited.
pub proof fn lemma_expression_first(p: &FileParser, j: nat, n: nat)
    requires
        token_expression_at(p, j, n),
    ensures
        n >= 1,
        token_run_at(p, j, 1) is Some,
{
    if n >= 1 {
        lemma_token_run_at_prefix(p, j, 1, n);
    }
}


/// After such an expression from the `j`-th token on that its next token ends, no longer
/// beginning fits.
pub proof fn lemma_token_run_at_end(p: &FileParser, j: nat, n: nat, m: nat)
    requires
        token_expression_at(p, j, n),
        n < m,
    ensures
        token_run_at(p, j, m) is None,
    decreases m - n,
{
    if m == n + 1 {
        if let Ok(SpecToken::Punctuation(q)) = p.tokens(j + n) {
            lemma_operator_punctuation(q);
        }
        assert(j + (m - 1) as nat == j + n);
    } else {
        lemma_token_run_at_end(p, j, n, (m - 1) as nat);
    }
}

/// Such an expression from the `j`-th token on has one length.
pub proof fn lemma_token_expression_at_unique(p: &FileParser, j: nat, n: nat, m: nat)
    requires
        token_expression_at(p, j, n),
        token_expression_at(p, j, m),
    ensures
        n == m,
{
    if n < m {
        lemma_token_run_at_end(p, j, n, m);
    } else if m < n {
        lemma_token_run_at_end(p, j, m, n);
    }
}


/// The tokens of `p` are an assignment: a variable (a name other than `super` and `crate`), an
/// assignment operator, an operator expression of `n` tokens from the third token on as
/// [token_expression_at] has it, and `;`.
pub open spec fn assignment_tokens(p: &FileParser, n: nat) -> bool {
    &&& (p.tokens(0) matches Ok(SpecToken::Identifier(name)) && name != seq!['s', 'u', 'p', 'e', 'r']
        && name != seq!['c', 'r', 'a', 't', 'e'])
    &&& (p.tokens(1) matches Ok(SpecToken::Punctuation(q)) && assignment_punctuation(q))
    &&& token_expression_at(p, 2, n)
    &&& p.tokens(2 + n) == Ok::<SpecToken, crate::lexer::SpecLexerError>(
        SpecToken::Punctuation(Punctuation::Semicolon),
    )
}


/// [assignment_tokens] on the tokens of `p` from the `j`-th on.
pub open spec fn assignment_tokens_at(p: &FileParser, j: nat, n: nat) -> bool {
    &&& (p.tokens(j) matches Ok(SpecToken::Identifier(name)) && name != seq!['s', 'u', 'p', 'e', 'r']
        && name != seq!['c', 'r', 'a', 't', 'e'])
    &&& (p.tokens(j + 1) matches Ok(SpecToken::Punctuation(q)) && assignment_punctuation(q))
    &&& token_expression_at(p, j + 2, n)
    &&& p.tokens(j + 2 + n) == Ok::<SpecToken, crate::lexer::SpecLexerError>(
        SpecToken::Punctuation(Punctuation::Semicolon),
    )
}

/// An assignment read from a parser `j` tokens further on, from its `i`-th token, is one read
/// from the `j + i`-th token on; from the start, it is [assignment_tokens].
pub proof fn lemma_assignment_shift(a: &FileParser, b: &FileParser, j: nat, i: nat, n: nat)
    requires
        FileParser::skipped(a, b, j),
    ensures
        assignment_tokens_at(b, i, n) == assignment_tokens_at(a, j + i, n),
        assignment_tokens(b, n) == assignment_tokens_at(b, 0, n),
        forall|e: Expression| #[trigger] tree_of_tokens(b, i + 2, n, e) == tree_of_tokens(a, j + i + 2, n, e),
{
    assert(b.tokens(i) == a.tokens(i + j));
    assert(b.tokens(i + 1) == a.tokens(i + 1 + j));
    assert(b.tokens(i + 2 + n) == a.tokens(i + 2 + n + j));
    lemma_tree_of_tokens_shift(a, b, j, i + 2, n);
    assert(j + (i + 2) == j + i + 2);
}

/// Where an assignment starts, no operator expression does.
pub proof fn lemma_assignment_not_expression(p: &FileParser, j: nat, n: nat, l: nat)
    requires
        assignment_tokens_at(p, j, n),
    ensures
        !token_expression_at(p, j, l),
{
    if let Ok(SpecToken::Punctuation(q)) = p.tokens(j + 1) {
        lemma_operator_punctuation(q);
    }
    if token_expression_at(p, j, l) && l >= 2 {
        lemma_token_run_at_prefix(p, j, 2, l);
        assert(token_run_at(p, j, 0) == Some((false, 0nat)));
        assert(p.tokens(j + (1 - 1) as nat) == p.tokens(j));
        assert(p.tokens(j + (2 - 1) as nat) == p.tokens(j + 1));
    }
    if token_expression_at(p, j, l) && l == 1 {
        assert(p.tokens(j + (1 - 1) as nat) == p.tokens(j));
    }
}

broadcast use crate::parser::FileParser::lemma_advanced_trans;

impl FileParser {
    /// Parses and validates an infix expression, possibly assigned to a variable.
    ///
    /// Parsing continues while a valid infix expression may be produced. For example, in
    /// `if x > 5 { 5 + 2 - (10 - 2) }` only `x > 5` and `5 + 2 - (10 - 2)` are infix
    /// expressions. An assignment operator right after a single variable makes the rest the
    /// assigned expression, which a semicolon must end.
    ///
    /// A parenthesis that is not closed, or is closed without being opened, is an error, and so
    /// are more open parentheses than a `usize` counts. An expression whose operands are single
    /// tokens, as [token_expression] has it, is read whole: one entry from each of its tokens; so
    /// is the expression of an assignment as [assignment_tokens] has it, with its variable and
    /// operator.
    #[verifier::rlimit(60)]
    pub fn parse_infix(&mut self) -> (r: Result<InfixNotation, ParserError>)
        requires
            old(self).wf(),
        ensures
            FileParser::advanced(old(self), final(self)),
            FileParser::reported(old(self), final(self), r),
            FileParser::consumed(old(self), final(self), r),
            r matches Ok(n) ==> infix_valid(n.spec_expr()@),
            !(r matches Err(ParserError::ExpectedExpression)),
            forall|n: nat|
                #[trigger] token_expression(old(self), n) ==> (r matches Ok(
                    MaybeAssignment::Expression(out),
                ) && out@.len() == n && entries_of_tokens(old(self), out@) && FileParser::skipped(
                    old(self),
                    final(self),
                    n,
                ) && final(self).spec_pending() == old(self).spec_pending()),
            forall|n: nat|
                #[trigger] assignment_tokens(old(self), n) ==> (r matches Ok(
                    MaybeAssignment::Assignment { assignee, operator, expression },
                ) && old(self).tokens(0) == Ok::<SpecToken, SpecLexerError>(
                    SpecToken::Identifier(assignee@),
                ) && old(self).tokens(1) == Ok::<SpecToken, SpecLexerError>(
                    SpecToken::Punctuation(operator.spec_punctuation()),
                ) && expression@.len() == n && entries_of_tokens_at(old(self), 2, expression@))
                    && FileParser::skipped(old(self), final(self), n + 3)
                    && final(self).spec_pending() == old(self).spec_pending(),
            forall|n: nat|
                #[trigger] crate::parser::expression::call_expression_at(old(self), 0, n) ==> (r matches Ok(
                    MaybeAssignment::Expression(out),
                ) && out@.len() == 1 && (out@[0] matches InfixEntry::Operand(y) && crate::parser::expression::call_of_tokens(
                    old(self),
                    0,
                    n,
                    y,
                ))) && FileParser::skipped(old(self), final(self), n) && final(self).spec_pending()
                    == old(self).spec_pending(),
            forall|n: nat|
                #[trigger] crate::parser::control::control_expression_at(old(self), 0, n) ==> (r matches Ok(
                    MaybeAssignment::Expression(out),
                ) && out@.len() == 1 && (out@[0] matches InfixEntry::Operand(y) && crate::parser::control::control_of_tokens(
                    old(self),
                    0,
                    n,
                    y,
                ))) && FileParser::skipped(old(self), final(self), n) && final(self).spec_pending()
                    == old(self).spec_pending(),
        decreases old(self).lexer.remaining(), 1int,
    {
        let mut depth: usize = 0;
        let mut open: usize = 0;
        let mut broken: bool = false;
        let mut output: VecDeque<InfixEntry> = VecDeque::new();
        let mut assignment: Option<(Identifier, AssignOp)> = None;
        let ghost simple = exists|m: nat| #[trigger] token_expression(old(self), m);
        let ghost n: nat = choose|m: nat| #[trigger] token_expression(old(self), m);
        let ghost asg = exists|m: nat| #[trigger] assignment_tokens(old(self), m);
        let ghost m: nat = choose|m: nat| #[trigger] assignment_tokens(old(self), m);
        let ghost callx = exists|m3: nat| #[trigger] crate::parser::expression::call_expression_at(old(self), 0, m3);
        let ghost cn: nat = choose|m3: nat| #[trigger] crate::parser::expression::call_expression_at(old(self), 0, m3);
        let ghost ctrlx = exists|m4: nat| #[trigger] crate::parser::control::control_expression_at(old(self), 0, m4);
        let ghost ctn: nat = choose|m4: nat| #[trigger] crate::parser::control::control_expression_at(old(self), 0, m4);
        let ghost mut popped = false;
        let ghost mut org = *self;
        let ghost mut goal: nat = n;
        let ghost mut k: nat = 0;
        proof {
            FileParser::lemma_advanced_refl(self);
            lemma_skipped_none(self);
        }
        loop
            invariant
                FileParser::advanced(old(self), self),
                !broken ==> infix_run(output@) == Some((ends_operand(output@), open as nat)),
                open <= depth,
                output@.len() > 0 ==> self.lexer.remaining() < old(self).lexer.remaining(),
                output@.len() > 0 ==> !(output@[0] is BinaryOperator),
                simple == exists|m: nat| #[trigger] token_expression(old(self), m),
                asg == exists|m2: nat| #[trigger] assignment_tokens(old(self), m2),
                callx == exists|m3: nat| #[trigger] crate::parser::expression::call_expression_at(old(self), 0, m3),
                callx ==> crate::parser::expression::call_expression_at(old(self), 0, cn) && self.spec_pending() == old(self).spec_pending()
                    && !broken && open == 0 && depth == 0 && assignment is None && (
                (output@.len() == 0 && FileParser::skipped(old(self), self, 0)) || (output@.len() == 1 && (
                output@[0] matches InfixEntry::Operand(y) && crate::parser::expression::call_of_tokens(old(self), 0, cn, y))
                    && FileParser::skipped(old(self), self, cn))),
                ctrlx == exists|m4: nat| #[trigger] crate::parser::control::control_expression_at(old(self), 0, m4),
                ctrlx ==> crate::parser::control::control_expression_at(old(self), 0, ctn) && self.spec_pending() == old(self).spec_pending()
                    && !broken && open == 0 && depth == 0 && assignment is None && (
                (output@.len() == 0 && FileParser::skipped(old(self), self, 0)) || (output@.len() == 1 && (
                output@[0] matches InfixEntry::Operand(y) && crate::parser::control::control_of_tokens(old(self), 0, ctn, y))
                    && FileParser::skipped(old(self), self, ctn))),
                (simple || asg) ==> self.spec_pending() == old(self).spec_pending(),
                simple ==> token_expression(old(self), n) && org == *old(self) && goal == n && !popped,
                asg ==> assignment_tokens(old(self), m),
                asg && popped ==> FileParser::skipped(old(self), &org, 2) && goal == m && (
                assignment matches Some((a, op)) && old(self).tokens(0) == Ok::<SpecToken, SpecLexerError>(
                    SpecToken::Identifier(a@),
                ) && old(self).tokens(1) == Ok::<SpecToken, SpecLexerError>(
                    SpecToken::Punctuation(op.spec_punctuation()),
                )),
                asg && !popped ==> k <= 1 && output@.len() == k && FileParser::skipped(old(self), self, k)
                    && assignment is None && !broken && open == 0 && depth == 0 && (k == 1 ==> (
                output@[0] matches InfixEntry::Operand(Expression::Var(id)) && old(self).tokens(0) == Ok::<
                    SpecToken,
                    SpecLexerError,
                >(SpecToken::Identifier(id@)))),
                (simple || (asg && popped)) ==> token_expression(&org, goal),
                (simple || (asg && popped)) ==> k <= goal && FileParser::skipped(&org, self, k)
                    && output@.len() == k && token_run(&org, k) == Some((ends_operand(output@), depth as nat))
                    && !broken && open == depth && (simple ==> assignment is None) && entries_of_tokens(
                    &org,
                    output@,
                ),
            ensures
                FileParser::advanced(old(self), self),
                !broken ==> infix_run(output@) == Some((true, open as nat)),
                open <= depth,
                output@.len() > 0,
                self.lexer.remaining() < old(self).lexer.remaining(),
                !(output@[0] is BinaryOperator),
                simple == exists|m: nat| #[trigger] token_expression(old(self), m),
                asg == exists|m2: nat| #[trigger] assignment_tokens(old(self), m2),
                callx == exists|m3: nat| #[trigger] crate::parser::expression::call_expression_at(old(self), 0, m3),
                callx ==> crate::parser::expression::call_expression_at(old(self), 0, cn) && self.spec_pending() == old(self).spec_pending()
                    && !broken && open == 0 && depth == 0 && assignment is None && output@.len() == 1 && (
                output@[0] matches InfixEntry::Operand(y) && crate::parser::expression::call_of_tokens(old(self), 0, cn, y))
                    && FileParser::skipped(old(self), self, cn),
                ctrlx == exists|m4: nat| #[trigger] crate::parser::control::control_expression_at(old(self), 0, m4),
                ctrlx ==> crate::parser::control::control_expression_at(old(self), 0, ctn) && self.spec_pending() == old(self).spec_pending()
                    && !broken && open == 0 && depth == 0 && assignment is None && output@.len() == 1 && (
                output@[0] matches InfixEntry::Operand(y) && crate::parser::control::control_of_tokens(old(self), 0, ctn, y))
                    && FileParser::skipped(old(self), self, ctn),
                (simple || asg) ==> self.spec_pending() == old(self).spec_pending(),
                simple ==> token_expression(old(self), n) && org == *old(self) && goal == n,
                asg ==> assignment_tokens(old(self), m) && popped,
                asg ==> FileParser::skipped(old(self), &org, 2) && goal == m && (
                assignment matches Some((a, op)) && old(self).tokens(0) == Ok::<SpecToken, SpecLexerError>(
                    SpecToken::Identifier(a@),
                ) && old(self).tokens(1) == Ok::<SpecToken, SpecLexerError>(
                    SpecToken::Punctuation(op.spec_punctuation()),
                )),
                (simple || asg) ==> token_expression(&org, goal),
                (simple || asg) ==> k == goal && FileParser::skipped(&org, self, goal) && output@.len()
                    == goal && depth == 0 && !broken && (simple ==> assignment is None) && entries_of_tokens(
                    &org,
                    output@,
                ),
            decreases self.lexer.remaining(),
        {
            let ghost following = simple || (asg && popped);
            let ghost s0 = *self;
            proof {
                if following {
                    lemma_next_token(&org, goal, k);
                }
            }
            proof {
                if following {
                    assert(self.tokens(0) == org.tokens(k + 0));
                    assert(self.tokens(0) is Ok);
                } else if asg && !popped {
                    assert(self.tokens(0) == old(self).tokens(k + 0));
                    assert(self.tokens(1) == old(self).tokens(1 + k));
                    if let Ok(SpecToken::Punctuation(q)) = old(self).tokens(1) {
                        lemma_operator_punctuation(q);
                    }
                }
            }
            proof {
                if callx {
                    if output@.len() == 1 {
                        assert(self.tokens(0) == old(self).tokens(0 + cn));
                        if let Ok(SpecToken::Punctuation(q)) = old(self).tokens(cn) {
                            lemma_operator_punctuation(q);
                        }
                    } else {
                        assert(self.tokens(0) == old(self).tokens(0 + 0));
                        crate::parser::expression::lemma_call_unique(old(self), 0, cn, cn);
                        assert(self.tokens(1) == old(self).tokens(1 + 0));
                    }
                }
                if ctrlx {
                    if output@.len() == 1 {
                        assert(self.tokens(0) == old(self).tokens(0 + ctn));
                        if let Ok(SpecToken::Punctuation(q)) = old(self).tokens(ctn) {
                            lemma_operator_punctuation(q);
                        }
                    } else {
                        assert(self.tokens(0) == old(self).tokens(0 + 0));
                        crate::parser::control::lemma_control_start(old(self), 0, ctn);
                    }
                }
            }
            if output.len() == 1 {
                if let Some(operator) = self.eat_assignment_operator()? {
                    let ghost before = output@;
                    let popped = output.pop_back();
                    proof {
                        assert(before.drop_last() =~= Seq::<InfixEntry>::empty());
                        assert(infix_run(before) == infix_step(before[0], false, 0));
                    }
                    match popped {
                        Some(InfixEntry::Operand(Expression::Var(assignee))) => {
                            assignment = Some((assignee, operator));
                        },
                        Some(InfixEntry::LeftParenthesis) => {
                            if open > 0 {
                                open = open - 1;
                            }
                        },
                        _ => {},
                    }
                }
                proof {
                    if following {
                        FileParser::lemma_skipped_trans(&org, &s0, self, k, 0);
                    } else if asg && !popped {
                        FileParser::lemma_skipped_trans(old(self), &s0, self, 1, 1);
                        org = *self;
                        popped = true;
                        goal = m;
                        k = 0;
                        lemma_skipped_none(self);
                        lemma_token_expression_shift(old(self), self, 2, m);
                        assert(output@ =~= Seq::<InfixEntry>::empty());
                        lemma_next_token(&org, goal, 0);
                        assert(self.tokens(0) == org.tokens(0 + 0));
                    }
                }
            }
            let ghost s1 = *self;
            let ghost reading = simple || (asg && popped);
            let n_out = output.len();
            let after = n_out > 0 && match &output[n_out - 1] {
                InfixEntry::Operand(_) | InfixEntry::RightParenthesis => true,
                _ => false,
            };
            let ghost before = output@;
            proof {
                if reading {
                    assert(self.tokens(0) == org.tokens(k + 0));
                    assert(self.tokens(0) is Ok);
                    assert(after == ends_operand(before));
                    if k == goal {
                        assert(after);
                    }
                }
            }
            if after {
                if let Some(op) = self.eat_binary_operator()? {
                    output.push_back(InfixEntry::BinaryOperator(op));
                    proof {
                        lemma_infix_run_push(before, InfixEntry::BinaryOperator(op));
                        if reading {
                            lemma_operator_punctuation(op.spec_punctuation());
                            assert(k < goal);
                            assert(output@ == before.push(InfixEntry::BinaryOperator(op)));
                            lemma_entries_push(&org, before, InfixEntry::BinaryOperator(op));
                            FileParser::lemma_skipped_trans(&org, &s1, self, k, 1);
                            k = k + 1;
                        }
                    }
                } else if self.peek_punctuation(Punctuation::RParent) {
                    if depth > 0 {
                        let ghost s2 = *self;
                        self.skip();
                        depth = depth - 1;
                        if open > 0 {
                            open = open - 1;
                        } else {
                            broken = true;
                        }
                        output.push_back(InfixEntry::RightParenthesis);
                        proof {
                            lemma_infix_run_push(before, InfixEntry::RightParenthesis);
                            if reading {
                                assert(k < goal);
                                assert(output@ == before.push(InfixEntry::RightParenthesis));
                                lemma_entries_push(&org, before, InfixEntry::RightParenthesis);
                                FileParser::lemma_skipped_trans(&org, &s1, &s2, k, 0);
                                FileParser::lemma_skipped_trans(&org, &s2, self, k, 1);
                                k = k + 1;
                            }
                        }
                    } else {
                        proof {
                            if reading {
                                assert(k == goal);
                            }
                        }
                        break;
                    }
                } else {
                    proof {
                        if reading {
                            assert(k == goal);
                        }
                    }
                    break;
                }
            } else {
                if let Some(op) = self.eat_unary_operator()? {
                    output.push_back(InfixEntry::UnaryOperator(op));
                    proof {
                        lemma_infix_run_push(before, InfixEntry::UnaryOperator(op));
                        if reading {
                            lemma_operator_punctuation(op.spec_punctuation());
                            assert(output@ == before.push(InfixEntry::UnaryOperator(op)));
                            lemma_entries_push(&org, before, InfixEntry::UnaryOperator(op));
                            FileParser::lemma_skipped_trans(&org, &s1, self, k, 1);
                            k = k + 1;
                        }
                    }
                } else {
                    let ghost s2 = *self;
                    if self.eat_punctuation(Punctuation::LParent)? {
                        if depth == usize::MAX {
                            return Err(ParserError::UnclosedParenthesis);
                        }
                        depth = depth + 1;
                        open = open + 1;
                        output.push_back(InfixEntry::LeftParenthesis);
                        proof {
                            lemma_infix_run_push(before, InfixEntry::LeftParenthesis);
                            if reading {
                                assert(output@ == before.push(InfixEntry::LeftParenthesis));
                                lemma_entries_push(&org, before, InfixEntry::LeftParenthesis);
                                FileParser::lemma_skipped_trans(&org, &s1, &s2, k, 0);
                                FileParser::lemma_skipped_trans(&org, &s2, self, k, 1);
                                k = k + 1;
                            }
                        }
                    } else {
                        let ghost s3 = *self;
                        proof {
                            if !reading && asg && !popped {
                                FileParser::lemma_skipped_trans(old(self), &s1, &s2, 0, 0);
                                FileParser::lemma_skipped_trans(old(self), &s2, &s3, 0, 0);
                            }
                            if reading {
                                FileParser::lemma_skipped_trans(&org, &s1, &s2, k, 0);
                                FileParser::lemma_skipped_trans(&org, &s2, &s3, k, 0);
                                assert(s3.tokens(0) == org.tokens(k + 0));
                                assert(s3.tokens(1) == org.tokens(1 + k));
                                assert(s3.tokens(0) is Ok);
                                if let Ok(SpecToken::Punctuation(q)) = org.tokens(k) {
                                    lemma_operator_punctuation(q);
                                }
                                assert(org.tokens(k) matches Ok(t) && org.tokens(k + 1)
                                    matches Ok(next) && single_token_operand(t, next));
                            }
                        }
                        proof {
                            if !reading && asg && !popped {
                                assert(s3.tokens(0) == old(self).tokens(0 + k));
                                assert(s3.tokens(1) == old(self).tokens(1 + k));
                                if let Ok(SpecToken::Punctuation(q)) = old(self).tokens(1) {
                                    lemma_operator_punctuation(q);
                                }
                                assert(k == 0);
                                assert(old(self).tokens(0) matches Ok(t) && old(self).tokens(1) matches Ok(nx)
                                    && single_token_operand(t, nx));
                            }
                        }
                        proof {
                            if callx {
                                assert(s3.tokens(0) == old(self).tokens(0 + 0));
                                let (segs, ns) = choose|segs: Seq<Seq<char>>, ns: Seq<nat>|
                                    #[trigger] crate::parser::expression::path_call2_at(old(self), 0 + 1, segs, ns)
                                        && cn == 1 + 3 * segs.len() + crate::parser::expression::call_args_len(ns);
                                crate::parser::expression::lemma_path_call2_shift(old(self), &s3, 0, 1, segs, ns);
                                assert(crate::parser::expression::path_call2_at(&s3, 1, segs, ns));
                            }
                            if ctrlx {
                                assert(s3.tokens(0) == old(self).tokens(0 + 0));
                                reveal(crate::parser::control::control_tokens_at);
                                reveal(crate::parser::control::control_of_tokens);
                                crate::parser::control::lemma_control_shift(old(self), &s3, 0, 0, ctn);
                                assert(crate::parser::control::control_tokens_at(&s3, 0, ctn));
                                match s3.tokens(0) {
                                    Ok(SpecToken::Keyword(Keyword::If)) => {
                                        let (m, l, t, o) = choose|m: nat, lens: Seq<nat>, tail: nat, other: Option<(Seq<nat>, nat)>|
                                            #[trigger] crate::parser::expression::if_tokens_at(&s3, 0 + 1, m, lens, tail, other)
                                                && ctn == crate::parser::control::if_len(m, lens, tail, other);
                                        assert(crate::parser::expression::if_tokens_at(&s3, 1, m, l, t, o));
                                        assert(0 + m + 2 == m + 2);
                                    },
                                    Ok(SpecToken::Keyword(Keyword::While)) => {
                                        let (m, l, t) = choose|m: nat, lens: Seq<nat>, tail: nat|
                                            #[trigger] crate::parser::expression::while_tokens_at(&s3, 0 + 1, m, lens, tail)
                                                && ctn == crate::parser::expression::after_block(m + 1, lens, tail);
                                        assert(crate::parser::expression::while_tokens_at(&s3, 1, m, l, t));
                                    },
                                    Ok(SpecToken::Keyword(Keyword::For)) => {
                                        let (m, l, t) = choose|m: nat, lens: Seq<nat>, tail: nat|
                                            #[trigger] crate::parser::expression::for_tokens_at(&s3, 0 + 1, m, lens, tail)
                                                && ctn == crate::parser::expression::after_block(m + 3, lens, tail);
                                        assert(crate::parser::expression::for_tokens_at(&s3, 1, m, l, t));
                                    },
                                    _ => {
                                        let (l, t) = choose|lens: Seq<nat>, tail: nat|
                                            #[trigger] crate::parser::expression::block_tokens_at(&s3, 0 + 1, lens, tail)
                                                && ctn == crate::parser::expression::after_block(0, lens, tail);
                                        assert(crate::parser::expression::block_tokens_at(&s3, 1, l, t));
                                    },
                                }
                            }
                        }
                        let operand = self.parse_operand()?;
                        let ghost e = InfixEntry::Operand(operand);
                        proof {
                            if callx {
                                let (segs, ns) = choose|segs: Seq<Seq<char>>, ns: Seq<nat>|
                                    #[trigger] crate::parser::expression::path_call2_at(old(self), 0 + 1, segs, ns)
                                        && cn == 1 + 3 * segs.len() + crate::parser::expression::call_args_len(ns);
                                crate::parser::expression::lemma_path_call2_shift(old(self), &s3, 0, 1, segs, ns);
                                assert(crate::parser::expression::path_call2_at(&s3, 1, segs, ns));
                                assert(crate::parser::item::name_at(&s3, 0) == crate::parser::item::name_at(old(self), 0));
                                FileParser::lemma_skipped_trans(old(self), &s3, self, 0, cn);
                                assert(crate::parser::expression::call_of_tokens(old(self), 0, cn, operand));
                            }
                            if ctrlx {
                                reveal(crate::parser::control::control_tokens_at);
                                reveal(crate::parser::control::control_of_tokens);
                                crate::parser::control::lemma_control_shift(old(self), &s3, 0, 0, ctn);
                                assert(crate::parser::control::control_tokens_at(&s3, 0, ctn));
                                match s3.tokens(0) {
                                    Ok(SpecToken::Keyword(Keyword::If)) => {
                                        let (m, l, t, o) = choose|m: nat, lens: Seq<nat>, tail: nat, other: Option<(Seq<nat>, nat)>|
                                            #[trigger] crate::parser::expression::if_tokens_at(&s3, 0 + 1, m, lens, tail, other)
                                                && ctn == crate::parser::control::if_len(m, lens, tail, other);
                                        assert(crate::parser::expression::if_tokens_at(&s3, 1, m, l, t, o));
                                        assert(0 + m + 2 == m + 2);
                                    },
                                    Ok(SpecToken::Keyword(Keyword::While)) => {
                                        let (m, l, t) = choose|m: nat, lens: Seq<nat>, tail: nat|
                                            #[trigger] crate::parser::expression::while_tokens_at(&s3, 0 + 1, m, lens, tail)
                                                && ctn == crate::parser::expression::after_block(m + 1, lens, tail);
                                        assert(crate::parser::expression::while_tokens_at(&s3, 1, m, l, t));
                                    },
                                    Ok(SpecToken::Keyword(Keyword::For)) => {
                                        let (m, l, t) = choose|m: nat, lens: Seq<nat>, tail: nat|
                                            #[trigger] crate::parser::expression::for_tokens_at(&s3, 0 + 1, m, lens, tail)
                                                && ctn == crate::parser::expression::after_block(m + 3, lens, tail);
                                        assert(crate::parser::expression::for_tokens_at(&s3, 1, m, l, t));
                                    },
                                    _ => {
                                        let (l, t) = choose|lens: Seq<nat>, tail: nat|
                                            #[trigger] crate::parser::expression::block_tokens_at(&s3, 0 + 1, lens, tail)
                                                && ctn == crate::parser::expression::after_block(0, lens, tail);
                                        assert(crate::parser::expression::block_tokens_at(&s3, 1, l, t));
                                    },
                                }
                                assert(crate::parser::control::control_of_tokens(&s3, 0, ctn, operand));
                                FileParser::lemma_skipped_trans(old(self), &s3, self, 0, ctn);
                            }
                        }
                        output.push_back(InfixEntry::Operand(operand));
                        proof {
                            lemma_infix_run_push(before, e);
                            if !reading && asg && !popped {
                                FileParser::lemma_skipped_trans(old(self), &s3, self, 0, 1);
                                k = k + 1;
                            }
                            if reading {
                                assert(output@ == before.push(e));
                                lemma_entries_push(&org, before, e);
                                FileParser::lemma_skipped_trans(&org, &s3, self, k, 1);
                                k = k + 1;
                            }
                        }
                    }
                }
            }
        }
        if depth != 0 || broken {
            return Err(ParserError::UnclosedParenthesis);
        }
        match &output[0] {
            InfixEntry::BinaryOperator(_) => {
                return Err(ParserError::ExpectedExpression);
            },
            _ => {},
        }
        proof {
            if callx {
                assert forall|m2: nat| #[trigger] crate::parser::expression::call_expression_at(old(self), 0, m2) implies m2
                    == cn by {
                    crate::parser::expression::lemma_call_unique(old(self), 0, cn, m2);
                }
            }
            if ctrlx {
                assert forall|m2: nat| #[trigger] crate::parser::control::control_expression_at(old(self), 0, m2) implies m2
                    == ctn by {
                    crate::parser::control::lemma_control_unique(old(self), 0, ctn, m2, 0);
                }
            }
            if simple {
                assert forall|m: nat| #[trigger] token_expression(old(self), m) implies m == n by {
                    if m < n {
                        lemma_token_run_end(old(self), m, n);
                    } else if n < m {
                        lemma_token_run_end(old(self), n, m);
                    }
                }
            }
            if asg {
                lemma_token_expression_shift(old(self), &org, 2, m);
                assert forall|m2: nat| #[trigger] assignment_tokens(old(self), m2) implies m2 == m by {
                    lemma_token_expression_at_unique(old(self), 2, m2, m);
                }
                FileParser::lemma_skipped_trans(old(self), &org, self, 2, m);
                assert(self.tokens(0) == old(self).tokens(0 + (2 + m)));
            }
        }
        let ghost before_end = *self;
        match assignment {
            Some((assignee, operator)) => {
                self.expect_punctuation(Punctuation::Semicolon)?;
                proof {
                    if asg {
                        FileParser::lemma_skipped_trans(old(self), &before_end, self, 2 + m, 1);
                    }
                }
                Ok(MaybeAssignment::Assignment { assignee, operator, expression: output })
            },
            None => Ok(MaybeAssignment::Expression(output)),
        }
    }
}

} // verus!
