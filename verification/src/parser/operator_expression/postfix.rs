//! Postfix (reverse polish) operator expressions and the shunting yard algorithm.

use std::collections::VecDeque;

use vstd::prelude::*;

use crate::ast::expression::Expression;
use crate::lexer::operator::{BinaryOp, UnaryOp};
use crate::parser::operator_expression::{MaybeAssignment, Tree};
use crate::parser::operator_expression::infix::{
    InfixEntry, InfixExpr, InfixNotation, infix_operands, infix_run, infix_step, infix_valid,
    lemma_infix_run_prefix,
};

verus! {

/// A sequence of operands and operators in reverse polish notation, possibly assigned to a
/// variable.
pub type PostfixNotation = MaybeAssignment<VecDeque<PostfixEntry>>;

/// An entry of postfix expression: operand or operator (unary or binary).
#[derive(Debug, PartialEq, Eq)]
pub enum PostfixEntry {
    Operand(Expression),
    UnaryOperator(UnaryOp),
    BinaryOperator(BinaryOp),
}

/// A sequence of operands and operators in reverse polish notation.
#[derive(Debug, PartialEq, Eq)]
pub struct ReversePolishExpr(pub VecDeque<PostfixEntry>);

/// An operator waiting on the stack of the shunting yard algorithm.
#[derive(Debug, PartialEq, Eq)]
enum Operator {
    Unary(UnaryOp),
    Binary(BinaryOp),
    LeftParenthesis,
}

/// Number of values on the evaluation stack after the entries, read from the start: an operand
/// pushes one, a unary operator needs one, a binary operator takes two and gives one. `None` when
/// an operator lacks operands.
pub open spec fn postfix_count(s: Seq<PostfixEntry>) -> Option<nat>
    decreases s.len(),
{
    if s.len() == 0 {
        Some(0)
    } else {
        match postfix_count(s.drop_last()) {
            Some(c) => match s.last() {
                PostfixEntry::Operand(_) => Some(c + 1),
                PostfixEntry::UnaryOperator(_) => if c >= 1 {
                    Some(c)
                } else {
                    None
                },
                PostfixEntry::BinaryOperator(_) => if c >= 2 {
                    Some((c - 1) as nat)
                } else {
                    None
                },
            },
            None => None,
        }
    }
}

/// The entries denote exactly one expression.
pub open spec fn postfix_valid(s: Seq<PostfixEntry>) -> bool {
    postfix_count(s) == Some(1nat)
}

/// The operands of the entries, in order.
pub open spec fn postfix_operands(s: Seq<PostfixEntry>) -> Seq<Expression>
    decreases s.len(),
{
    if s.len() == 0 {
        seq![]
    } else {
        match s.last() {
            PostfixEntry::Operand(e) => postfix_operands(s.drop_last()).push(e),
            _ => postfix_operands(s.drop_last()),
        }
    }
}

/// The expression that ends at the end of `s`, read backwards as reverse polish notation, with
/// the entries before it. A binary operator's right operand is the expression right before it,
/// and its left operand the expression before that.
pub open spec fn tree_of(s: Seq<PostfixEntry>) -> Option<(Expression, Seq<PostfixEntry>)>
    decreases s.len(),
{
    if s.len() == 0 {
        None
    } else {
        match s.last() {
            PostfixEntry::Operand(e) => Some((e, s.drop_last())),
            PostfixEntry::UnaryOperator(op) => match tree_of(s.drop_last()) {
                Some((v, rest)) => Some((Expression::Unary { op, value: Box::new(v) }, rest)),
                None => None,
            },
            PostfixEntry::BinaryOperator(op) => match tree_of(s.drop_last()) {
                Some((right, rest1)) => if rest1.len() < s.len() {
                    match tree_of(rest1) {
                        Some((left, rest2)) => Some(
                            (
                                Expression::Binary { op, left: Box::new(left), right: Box::new(right) },
                                rest2,
                            ),
                        ),
                        None => None,
                    }
                } else {
                    None
                },
                None => None,
            },
        }
    }
}

/// The expression that ends at the end of `s`.
pub open spec fn tree_expr(s: Seq<PostfixEntry>) -> Expression {
    tree_of(s).unwrap().0
}

/// The entries before the expression that ends at the end of `s`.
pub open spec fn tree_rest(s: Seq<PostfixEntry>) -> Seq<PostfixEntry> {
    tree_of(s).unwrap().1
}

/// What is left after reading an expression from the end is a beginning of the entries.
pub proof fn lemma_tree_of_prefix(s: Seq<PostfixEntry>)
    ensures
        tree_of(s) matches Some((e, rest)) ==> rest.len() < s.len() && rest == s.take(
            rest.len() as int,
        ),
    decreases s.len(),
{
    if s.len() > 0 {
        lemma_tree_of_prefix(s.drop_last());
        match s.last() {
            PostfixEntry::Operand(_) => {
                assert(s.drop_last() =~= s.take(s.len() - 1));
            },
            PostfixEntry::UnaryOperator(_) => {
                if let Some((v, rest)) = tree_of(s.drop_last()) {
                    assert(rest =~= s.take(rest.len() as int));
                }
            },
            PostfixEntry::BinaryOperator(_) => {
                if let Some((right, rest1)) = tree_of(s.drop_last()) {
                    lemma_tree_of_prefix(rest1);
                    if let Some((left, rest2)) = tree_of(rest1) {
                        assert(rest2 =~= s.take(rest2.len() as int));
                    }
                }
            },
        }
    }
}

/// Entries that leave `c >= 1` values on the evaluation stack end with an expression, and the
/// entries before it leave `c - 1` values.
pub proof fn lemma_tree_of_count(s: Seq<PostfixEntry>, c: nat)
    requires
        postfix_count(s) == Some(c),
        c >= 1,
    ensures
        tree_of(s) matches Some((e, rest)) && postfix_count(rest) == Some((c - 1) as nat),
    decreases s.len(),
{
    lemma_tree_of_prefix(s);
    match s.last() {
        PostfixEntry::Operand(_) => {},
        PostfixEntry::UnaryOperator(_) => {
            lemma_tree_of_count(s.drop_last(), c);
        },
        PostfixEntry::BinaryOperator(_) => {
            lemma_tree_of_count(s.drop_last(), c + 1);
            lemma_tree_of_prefix(s.drop_last());
            let (right, rest1) = tree_of(s.drop_last()).unwrap();
            lemma_tree_of_count(rest1, c);
        },
    }
}

/// The shunting yard at work: what it has output and the operators waiting on its stack, each
/// as the infix entry it came from, the top last.
pub type YardState = (Seq<PostfixEntry>, Seq<InfixEntry>);

/// Moves to the output, from the top of the stack, the waiting operators that bind at least as
/// tightly as an arriving binary operator of priority `prio`: binary operators of priority
/// `prio` or more, and unary operators, which bind tighter than any binary one. An opening
/// parenthesis stops it.
pub open spec fn yard_pop_tighter(y: YardState, prio: nat) -> YardState
    decreases y.1.len(),
{
    if y.1.len() == 0 {
        y
    } else {
        match y.1.last() {
            InfixEntry::UnaryOperator(u) => yard_pop_tighter(
                (y.0.push(PostfixEntry::UnaryOperator(u)), y.1.drop_last()),
                prio,
            ),
            InfixEntry::BinaryOperator(b) => if b.spec_priority() < prio {
                y
            } else {
                yard_pop_tighter((y.0.push(PostfixEntry::BinaryOperator(b)), y.1.drop_last()), prio)
            },
            _ => y,
        }
    }
}

/// Moves to the output the operators waiting above the nearest opening parenthesis, and drops
/// the parenthesis.
pub open spec fn yard_pop_group(y: YardState) -> YardState
    decreases y.1.len(),
{
    if y.1.len() == 0 {
        y
    } else {
        match y.1.last() {
            InfixEntry::LeftParenthesis => (y.0, y.1.drop_last()),
            InfixEntry::UnaryOperator(u) => yard_pop_group(
                (y.0.push(PostfixEntry::UnaryOperator(u)), y.1.drop_last()),
            ),
            InfixEntry::BinaryOperator(b) => yard_pop_group(
                (y.0.push(PostfixEntry::BinaryOperator(b)), y.1.drop_last()),
            ),
            _ => yard_pop_group((y.0, y.1.drop_last())),
        }
    }
}

/// The output once every waiting operator is moved to it, the top first.
pub open spec fn yard_pop_all(y: YardState) -> Seq<PostfixEntry>
    decreases y.1.len(),
{
    if y.1.len() == 0 {
        y.0
    } else {
        match y.1.last() {
            InfixEntry::UnaryOperator(u) => yard_pop_all(
                (y.0.push(PostfixEntry::UnaryOperator(u)), y.1.drop_last()),
            ),
            InfixEntry::BinaryOperator(b) => yard_pop_all(
                (y.0.push(PostfixEntry::BinaryOperator(b)), y.1.drop_last()),
            ),
            _ => yard_pop_all((y.0, y.1.drop_last())),
        }
    }
}

/// One entry read by the shunting yard: an operand goes to the output; a unary operator or an
/// opening parenthesis waits; a binary operator waits once the tighter ones are output; a
/// closing parenthesis outputs its group.
pub open spec fn yard_step(y: YardState, e: InfixEntry) -> YardState {
    match e {
        InfixEntry::Operand(x) => (y.0.push(PostfixEntry::Operand(x)), y.1),
        InfixEntry::BinaryOperator(b) => {
            let popped = yard_pop_tighter(y, b.spec_priority() as nat);
            (popped.0, popped.1.push(e))
        },
        InfixEntry::RightParenthesis => yard_pop_group(y),
        _ => (y.0, y.1.push(e)),
    }
}

/// The shunting yard after reading the entries from the start.
pub open spec fn yard_run(s: Seq<InfixEntry>) -> YardState
    decreases s.len(),
{
    if s.len() == 0 {
        (Seq::empty(), Seq::empty())
    } else {
        yard_step(yard_run(s.drop_last()), s.last())
    }
}

/// The postfix form the shunting yard gives of the infix entries `s`.
pub open spec fn shunting_yard(s: Seq<InfixEntry>) -> Seq<PostfixEntry> {
    yard_pop_all(yard_run(s))
}

/// An operand alone is the tree it stands for.
pub proof fn lemma_single_operand(x: Expression)
    ensures
        tree_expr(shunting_yard(seq![InfixEntry::Operand(x)])) == x,
        shunting_yard(seq![InfixEntry::Operand(x)]) == seq![PostfixEntry::Operand(x)],
{
    let s = seq![InfixEntry::Operand(x)];
    assert(s.drop_last() =~= Seq::<InfixEntry>::empty());
    assert(yard_run(s) == yard_step(yard_run(s.drop_last()), s.last()));
    assert(yard_run(s).0 =~= seq![PostfixEntry::Operand(x)]);
    let t = seq![PostfixEntry::Operand(x)];
    assert(tree_of(t) == Some((x, t.drop_last())));
}

/// Of two binary operators in a row, the one that binds at least as tightly as the other, or the
/// first of two that bind equally, is applied first: `x p y q z` is `(x p y) q z` when `p`'s
/// priority is at least `q`'s, and `x p (y q z)` otherwise.
pub proof fn law_binary_precedence(x: Expression, p: BinaryOp, y: Expression, q: BinaryOp, z: Expression)
    ensures
        ({
            let s = seq![
                InfixEntry::Operand(x),
                InfixEntry::BinaryOperator(p),
                InfixEntry::Operand(y),
                InfixEntry::BinaryOperator(q),
                InfixEntry::Operand(z),
            ];
            &&& p.spec_priority() >= q.spec_priority() ==> tree_expr(shunting_yard(s))
                == Expression::Binary {
                op: q,
                left: Box::new(Expression::Binary { op: p, left: Box::new(x), right: Box::new(y) }),
                right: Box::new(z),
            }
            &&& p.spec_priority() < q.spec_priority() ==> tree_expr(shunting_yard(s))
                == Expression::Binary {
                op: p,
                left: Box::new(x),
                right: Box::new(Expression::Binary { op: q, left: Box::new(y), right: Box::new(z) }),
            }
        }),
{
    let ix = InfixEntry::Operand(x);
    let ip = InfixEntry::BinaryOperator(p);
    let iy = InfixEntry::Operand(y);
    let iq = InfixEntry::BinaryOperator(q);
    let iz = InfixEntry::Operand(z);
    let ox = PostfixEntry::Operand(x);
    let oy = PostfixEntry::Operand(y);
    let oz = PostfixEntry::Operand(z);
    let bp = PostfixEntry::BinaryOperator(p);
    let bq = PostfixEntry::BinaryOperator(q);
    let e = Seq::<PostfixEntry>::empty();
    let w = Seq::<InfixEntry>::empty();
    let s1 = w.push(ix);
    let s2 = s1.push(ip);
    let s3 = s2.push(iy);
    let s4 = s3.push(iq);
    let s5 = s4.push(iz);
    assert(s5 =~= seq![ix, ip, iy, iq, iz]);
    assert(s1.drop_last() =~= w);
    assert(s2.drop_last() =~= s1);
    assert(s3.drop_last() =~= s2);
    assert(s4.drop_last() =~= s3);
    assert(s5.drop_last() =~= s4);
    assert(yard_run(w) == (e, w));
    assert(yard_run(s1) == (e.push(ox), w));
    assert(yard_run(s2) == (e.push(ox), w.push(ip)));
    let o2 = e.push(ox).push(oy);
    assert(yard_run(s3) == (o2, w.push(ip)));
    assert(w.push(ip).drop_last() =~= w);
    if p.spec_priority() >= q.spec_priority() {
        let o3 = o2.push(bp);
        assert(yard_pop_tighter((o3, w), q.spec_priority() as nat) == (o3, w));
        assert(yard_pop_tighter((o2, w.push(ip)), q.spec_priority() as nat) == (o3, w));
        assert(yard_run(s4) == (o3, w.push(iq)));
        let o4 = o3.push(oz);
        assert(yard_run(s5) == (o4, w.push(iq)));
        assert(w.push(iq).drop_last() =~= w);
        let out = o4.push(bq);
        assert(yard_pop_all((out, w)) == out);
        assert(shunting_yard(s5) == out);
        assert(out.drop_last() =~= o4);
        assert(o4.drop_last() =~= o3);
        assert(o3.drop_last() =~= o2);
        assert(o2.drop_last() =~= e.push(ox));
        assert(e.push(ox).drop_last() =~= e);
        assert(tree_of(e.push(ox)) == Some((x, e)));
        assert(tree_of(o2) == Some((y, e.push(ox))));
        assert(tree_of(o3) == Some((Expression::Binary { op: p, left: Box::new(x), right: Box::new(y) }, e)));
        assert(tree_of(o4) == Some((z, o3)));
    } else {
        let stack = w.push(ip).push(iq);
        assert(yard_pop_tighter((o2, w.push(ip)), q.spec_priority() as nat) == (o2, w.push(ip)));
        assert(yard_run(s4) == (o2, stack));
        let o3 = o2.push(oz);
        assert(yard_run(s5) == (o3, stack));
        assert(stack.drop_last() =~= w.push(ip));
        let out = o3.push(bq).push(bp);
        assert(yard_pop_all((out, w)) == out);
        assert(yard_pop_all((o3.push(bq), w.push(ip))) == out);
        assert(shunting_yard(s5) == out);
        assert(out.drop_last() =~= o3.push(bq));
        assert(o3.push(bq).drop_last() =~= o3);
        assert(o3.drop_last() =~= o2);
        assert(o2.drop_last() =~= e.push(ox));
        assert(e.push(ox).drop_last() =~= e);
        assert(tree_of(e.push(ox)) == Some((x, e)));
        assert(tree_of(o2) == Some((y, e.push(ox))));
        assert(tree_of(o3) == Some((z, o2)));
        assert(tree_of(o3.push(bq)) == Some((Expression::Binary { op: q, left: Box::new(y), right: Box::new(z) }, e.push(ox))));
    }
}

/// `&&` binds tighter than `||`, whichever side it stands on: `x || y && z` is `x || (y && z)`
/// and `x && y || z` is `(x && y) || z`, whatever the operands.
pub proof fn law_and_binds_tighter_than_or(x: Expression, y: Expression, z: Expression)
    ensures
        tree_expr(
            shunting_yard(
                seq![
                    InfixEntry::Operand(x),
                    InfixEntry::BinaryOperator(BinaryOp::Or),
                    InfixEntry::Operand(y),
                    InfixEntry::BinaryOperator(BinaryOp::And),
                    InfixEntry::Operand(z),
                ],
            ),
        ) == (Expression::Binary {
            op: BinaryOp::Or,
            left: Box::new(x),
            right: Box::new(Expression::Binary { op: BinaryOp::And, left: Box::new(y), right: Box::new(z) }),
        }),
        tree_expr(
            shunting_yard(
                seq![
                    InfixEntry::Operand(x),
                    InfixEntry::BinaryOperator(BinaryOp::And),
                    InfixEntry::Operand(y),
                    InfixEntry::BinaryOperator(BinaryOp::Or),
                    InfixEntry::Operand(z),
                ],
            ),
        ) == (Expression::Binary {
            op: BinaryOp::Or,
            left: Box::new(Expression::Binary { op: BinaryOp::And, left: Box::new(x), right: Box::new(y) }),
            right: Box::new(z),
        }),
{
    crate::lexer::operator::law_priority_levels();
    law_binary_precedence(x, BinaryOp::Or, y, BinaryOp::And, z);
    law_binary_precedence(x, BinaryOp::And, y, BinaryOp::Or, z);
}

/// A prefix operator binds tighter than any binary operator: `u x p y` is `(u x) p y`.
pub proof fn law_prefix_binds_tightest(u: UnaryOp, x: Expression, p: BinaryOp, y: Expression)
    ensures
        tree_expr(
            shunting_yard(
                seq![
                    InfixEntry::UnaryOperator(u),
                    InfixEntry::Operand(x),
                    InfixEntry::BinaryOperator(p),
                    InfixEntry::Operand(y),
                ],
            ),
        ) == (Expression::Binary {
            op: p,
            left: Box::new(Expression::Unary { op: u, value: Box::new(x) }),
            right: Box::new(y),
        }),
{
    let iu = InfixEntry::UnaryOperator(u);
    let ix = InfixEntry::Operand(x);
    let ip = InfixEntry::BinaryOperator(p);
    let iy = InfixEntry::Operand(y);
    let ox = PostfixEntry::Operand(x);
    let ou = PostfixEntry::UnaryOperator(u);
    let oy = PostfixEntry::Operand(y);
    let e = Seq::<PostfixEntry>::empty();
    let w = Seq::<InfixEntry>::empty();
    let s1 = w.push(iu);
    let s2 = s1.push(ix);
    let s3 = s2.push(ip);
    let s4 = s3.push(iy);
    assert(s4 =~= seq![iu, ix, ip, iy]);
    assert(s1.drop_last() =~= w);
    assert(s2.drop_last() =~= s1);
    assert(s3.drop_last() =~= s2);
    assert(s4.drop_last() =~= s3);
    assert(yard_run(w) == (e, w));
    assert(yard_run(s1) == (e, w.push(iu)));
    assert(yard_run(s2) == (e.push(ox), w.push(iu)));
    assert(w.push(iu).drop_last() =~= w);
    let o1 = e.push(ox).push(ou);
    assert(yard_pop_tighter((o1, w), p.spec_priority() as nat) == (o1, w));
    assert(yard_pop_tighter((e.push(ox), w.push(iu)), p.spec_priority() as nat) == (o1, w));
    let stack = w.push(ip);
    assert(yard_run(s3) == (o1, stack));
    let o2 = o1.push(oy);
    assert(yard_run(s4) == (o2, stack));
    assert(stack.drop_last() =~= w);
    let out = o2.push(PostfixEntry::BinaryOperator(p));
    assert(yard_pop_all((out, w)) == out);
    assert(yard_pop_all((o2, stack)) == out);
    assert(shunting_yard(s4) == out);
    assert(out.drop_last() =~= o2);
    assert(o2.drop_last() =~= o1);
    assert(o1.drop_last() =~= e.push(ox));
    assert(e.push(ox).drop_last() =~= e);
    assert(tree_of(e.push(ox)) == Some((x, e)));
    assert(tree_of(o1) == Some((Expression::Unary { op: u, value: Box::new(x) }, e)));
    assert(tree_of(o2) == Some((y, o1)));
}

/// A waiting operator as the infix entry it came from.
spec fn waiting_entry(o: Operator) -> InfixEntry {
    match o {
        Operator::Unary(u) => InfixEntry::UnaryOperator(u),
        Operator::Binary(b) => InfixEntry::BinaryOperator(b),
        Operator::LeftParenthesis => InfixEntry::LeftParenthesis,
    }
}

/// The operator stack as infix entries.
spec fn stack_view(s: Seq<Operator>) -> Seq<InfixEntry> {
    s.map_values(|o: Operator| waiting_entry(o))
}

/// The postfix entry a waiting operator becomes.
spec fn output_entry(o: Operator) -> PostfixEntry {
    match o {
        Operator::Unary(u) => PostfixEntry::UnaryOperator(u),
        Operator::Binary(b) => PostfixEntry::BinaryOperator(b),
        Operator::LeftParenthesis => PostfixEntry::UnaryOperator(UnaryOp::Not),
    }
}

/// Number of binary operators on the operator stack.
spec fn count_binary(s: Seq<Operator>) -> nat
    decreases s.len(),
{
    if s.len() == 0 {
        0
    } else {
        count_binary(s.drop_last()) + if s.last() is Binary {
            1nat
        } else {
            0nat
        }
    }
}

/// Number of opening parentheses on the operator stack.
spec fn count_parens(s: Seq<Operator>) -> nat
    decreases s.len(),
{
    if s.len() == 0 {
        0
    } else {
        count_parens(s.drop_last()) + if s.last() is LeftParenthesis {
            1nat
        } else {
            0nat
        }
    }
}

proof fn lemma_count_parens_empty(s: Seq<Operator>)
    requires
        s.len() > 0,
        count_parens(s) == 0,
    ensures
        !(s.last() is LeftParenthesis),
        count_parens(s.drop_last()) == 0,
{
}

proof fn lemma_count_parens_nonempty(s: Seq<Operator>)
    requires
        count_parens(s) > 0,
    ensures
        s.len() > 0,
{
}

/// Moves the operator on top of the stack to the output; the stack's top is an operator.
fn pop_operator(op_stack: &mut Vec<Operator>, output: &mut VecDeque<PostfixEntry>, counted: Ghost<bool>)
    requires
        old(op_stack)@.len() > 0,
        !(old(op_stack)@.last() is LeftParenthesis),
        counted@ ==> postfix_count(old(output)@) == Some(count_binary(old(op_stack)@) + 1),
    ensures
        final(op_stack)@ == old(op_stack)@.drop_last(),
        counted@ ==> postfix_count(final(output)@) == Some(count_binary(final(op_stack)@) + 1),
        count_parens(final(op_stack)@) == count_parens(old(op_stack)@),
        postfix_operands(final(output)@) == postfix_operands(old(output)@),
        final(output)@ == old(output)@.push(output_entry(old(op_stack)@.last())),
{
    let top = op_stack.pop();
    let ghost out0 = output@;
    match top {
        Some(Operator::Unary(op)) => {
            output.push_back(PostfixEntry::UnaryOperator(op));
            proof {
                assert(output@.drop_last() =~= out0);
            }
        },
        Some(Operator::Binary(op)) => {
            output.push_back(PostfixEntry::BinaryOperator(op));
            proof {
                assert(output@.drop_last() =~= out0);
            }
        },
        _ => {},
    }
}

/// Open parentheses after the entries: a closing one counts minus one.
pub open spec fn paren_depth(s: Seq<InfixEntry>) -> int
    decreases s.len(),
{
    if s.len() == 0 {
        0
    } else {
        paren_depth(s.drop_last()) + match s.last() {
            InfixEntry::LeftParenthesis => 1int,
            InfixEntry::RightParenthesis => -1int,
            _ => 0int,
        }
    }
}

/// Every parenthesis of the entries is closed, and none is closed that was not opened.
pub open spec fn parens_balanced(s: Seq<InfixEntry>) -> bool {
    &&& forall|i: int| 0 <= i <= s.len() ==> paren_depth(#[trigger] s.take(i)) >= 0
    &&& paren_depth(s) == 0
}

/// Where entries are a valid beginning of an infix expression, the parentheses open after them
/// are those the reading counted.
pub proof fn lemma_run_depth(s: Seq<InfixEntry>)
    requires
        infix_run(s) is Some,
    ensures
        infix_run(s).unwrap().1 == paren_depth(s),
        forall|i: int| 0 <= i <= s.len() ==> paren_depth(#[trigger] s.take(i)) >= 0,
    decreases s.len(),
{
    if s.len() > 0 {
        lemma_run_depth(s.drop_last());
        assert forall|i: int| 0 <= i <= s.len() implies paren_depth(#[trigger] s.take(i)) >= 0 by {
            if i < s.len() {
                assert(s.take(i) =~= s.drop_last().take(i));
            } else {
                assert(s.take(i) =~= s);
            }
        }
    } else {
        assert forall|i: int| 0 <= i <= s.len() implies paren_depth(#[trigger] s.take(i)) >= 0 by {
            assert(s.take(i) =~= s);
        }
    }
}

/// A valid infix expression has balanced parentheses.
pub proof fn lemma_valid_balanced(s: Seq<InfixEntry>)
    requires
        infix_valid(s),
    ensures
        parens_balanced(s),
{
    lemma_run_depth(s);
}

impl ReversePolishExpr {
    /// Converts from infix to postfix notation with the shunting yard algorithm: operands go
    /// straight to the output; an arriving binary operator first moves to the output the
    /// operators on the stack (down to an opening parenthesis) that bind at least as tightly,
    /// unary operators binding tightest; a closing parenthesis moves the operators
    /// down to its opening parenthesis.
    ///
    /// The parentheses must be balanced. A valid infix expression gives a valid postfix one;
    /// either way the operands keep their order.
    pub fn from_infix(infix: InfixExpr) -> (r: ReversePolishExpr)
        requires
            parens_balanced(infix.0@),
        ensures
            infix_valid(infix.0@) ==> postfix_valid(r.0@),
            postfix_operands(r.0@) == infix_operands(infix.0@),
            r.0@ == shunting_yard(infix.0@),
    {
        let ghost s = infix.0@;
        let ghost valid = infix_valid(s);
        proof {
            if valid {
                lemma_run_depth(s);
            }
        }
        let mut entries = infix.0;
        let mut output: VecDeque<PostfixEntry> = VecDeque::new();
        let mut op_stack: Vec<Operator> = Vec::new();
        let ghost mut i: int = 0;
        proof {
            assert(s.skip(0) =~= s);
            assert(s.take(0) =~= Seq::<InfixEntry>::empty());
        }
        loop
            invariant
                0 <= i <= s.len(),
                entries@ == s.skip(i),
                parens_balanced(s),
                valid == infix_valid(s),
                valid ==> infix_run(s) == Some((true, 0nat)),
                valid ==> infix_run(s.take(i)) is Some,
                valid ==> postfix_count(output@) == Some(
                    count_binary(op_stack@) + if infix_run(s.take(i)).unwrap().0 {
                        1nat
                    } else {
                        0nat
                    },
                ),
                count_parens(op_stack@) == paren_depth(s.take(i)),
                postfix_operands(output@) == infix_operands(s.take(i)),
                (output@, stack_view(op_stack@)) == yard_run(s.take(i)),
            ensures
                i == s.len(),
                valid ==> infix_run(s.take(i)) is Some,
                valid ==> postfix_count(output@) == Some(
                    count_binary(op_stack@) + if infix_run(s.take(i)).unwrap().0 {
                        1nat
                    } else {
                        0nat
                    },
                ),
                count_parens(op_stack@) == paren_depth(s.take(i)),
                postfix_operands(output@) == infix_operands(s.take(i)),
                (output@, stack_view(op_stack@)) == yard_run(s.take(i)),
            decreases s.len() - i,
        {
            let entry = match entries.pop_front() {
                Some(e) => e,
                None => {
                    proof {
                        assert(s.skip(i).len() == 0);
                    }
                    break;
                },
            };
            proof {
                assert(entry == s[i]);
                assert(s.take(i + 1).drop_last() =~= s.take(i));
                assert(s.take(i + 1).last() == s[i]);
                if valid {
                    lemma_infix_run_prefix(s, i + 1);
                }
                assert(paren_depth(s.take(i + 1)) >= 0);
            }
            let ghost state = infix_run(s.take(i)).unwrap();
            let ghost stack0 = op_stack@;
            proof {
                if valid {
                    assert(infix_run(s.take(i + 1)) == infix_step(s[i], state.0, state.1));
                }
            }
            match entry {
                InfixEntry::Operand(operand) => {
                    let ghost out0 = output@;
                    output.push_back(PostfixEntry::Operand(operand));
                    proof {
                        assert(output@.drop_last() =~= out0);
                    }
                },
                InfixEntry::UnaryOperator(op) => {
                    op_stack.push(Operator::Unary(op));
                    proof {
                        assert(op_stack@.drop_last() =~= stack0);
                        assert(stack_view(op_stack@) =~= stack_view(stack0).push(InfixEntry::UnaryOperator(op)));
                    }
                },
                InfixEntry::BinaryOperator(op) => {
                    let ghost prio = op.spec_priority() as nat;
                    let ghost y0 = yard_run(s.take(i));
                    loop
                        invariant
                            valid ==> state.0,
                            valid ==> postfix_count(output@) == Some(count_binary(op_stack@) + 1),
                            count_parens(op_stack@) == paren_depth(s.take(i)),
                            postfix_operands(output@) == infix_operands(s.take(i)),
                            prio == op.spec_priority() as nat,
                            yard_pop_tighter((output@, stack_view(op_stack@)), prio) == yard_pop_tighter(y0, prio),
                        ensures
                            valid ==> postfix_count(output@) == Some(count_binary(op_stack@) + 1),
                            count_parens(op_stack@) == paren_depth(s.take(i)),
                            postfix_operands(output@) == infix_operands(s.take(i)),
                            (output@, stack_view(op_stack@)) == yard_pop_tighter(y0, prio),
                        decreases op_stack@.len(),
                    {
                        let ghost here = (output@, stack_view(op_stack@));
                        proof {
                            if op_stack@.len() > 0 {
                                assert(here.1.last() == waiting_entry(op_stack@.last()));
                            }
                        }
                        let top_priority: usize = match op_stack.last() {
                            Some(Operator::Unary(_)) => usize::MAX,
                            Some(Operator::Binary(top)) => top.priority(),
                            Some(Operator::LeftParenthesis) => {
                                break;
                            },
                            None => {
                                break;
                            },
                        };
                        if top_priority < op.priority() {
                            break;
                        }
                        let ghost stack_before = op_stack@;
                        pop_operator(&mut op_stack, &mut output, Ghost(valid));
                        proof {
                            assert(stack_view(op_stack@) =~= stack_view(stack_before).drop_last());
                        }
                    }
                    let ghost stack1 = op_stack@;
                    op_stack.push(Operator::Binary(op));
                    proof {
                        assert(op_stack@.drop_last() =~= stack1);
                        assert(stack_view(op_stack@) =~= stack_view(stack1).push(InfixEntry::BinaryOperator(op)));
                    }
                },
                InfixEntry::LeftParenthesis => {
                    op_stack.push(Operator::LeftParenthesis);
                    proof {
                        assert(op_stack@.drop_last() =~= stack0);
                        assert(stack_view(op_stack@) =~= stack_view(stack0).push(InfixEntry::LeftParenthesis));
                    }
                },
                InfixEntry::RightParenthesis => {
                    let ghost y0 = yard_run(s.take(i));
                    loop
                        invariant
                            valid ==> state.0,
                            paren_depth(s.take(i)) > 0,
                            valid ==> postfix_count(output@) == Some(count_binary(op_stack@) + 1),
                            count_parens(op_stack@) == paren_depth(s.take(i)),
                            postfix_operands(output@) == infix_operands(s.take(i)),
                            yard_pop_group((output@, stack_view(op_stack@))) == yard_pop_group(y0),
                        ensures
                            valid ==> postfix_count(output@) == Some(count_binary(op_stack@) + 1),
                            count_parens(op_stack@) == paren_depth(s.take(i)),
                            postfix_operands(output@) == infix_operands(s.take(i)),
                            op_stack@.len() > 0,
                            op_stack@.last() is LeftParenthesis,
                            yard_pop_group((output@, stack_view(op_stack@))) == yard_pop_group(y0),
                        decreases op_stack@.len(),
                    {
                        proof {
                            lemma_count_parens_nonempty(op_stack@);
                            assert(stack_view(op_stack@).last() == waiting_entry(op_stack@.last()));
                        }
                        match op_stack.last() {
                            Some(Operator::LeftParenthesis) => {
                                break;
                            },
                            _ => {},
                        }
                        let ghost stack_before = op_stack@;
                        pop_operator(&mut op_stack, &mut output, Ghost(valid));
                        proof {
                            assert(stack_view(op_stack@) =~= stack_view(stack_before).drop_last());
                        }
                    }
                    let ghost stack1 = op_stack@;
                    proof {
                        assert(stack_view(stack1).last() == waiting_entry(stack1.last()));
                    }
                    op_stack.pop();
                    proof {
                        assert(op_stack@ =~= stack1.drop_last());
                        assert(stack_view(op_stack@) =~= stack_view(stack1).drop_last());
                    }
                },
            }
            proof {
                assert(entries@ =~= s.skip(i + 1));
                i = i + 1;
            }
        }
        proof {
            assert(s.take(i) =~= s);
        }
        loop
            invariant
                valid ==> postfix_count(output@) == Some(count_binary(op_stack@) + 1),
                count_parens(op_stack@) == 0,
                postfix_operands(output@) == infix_operands(s),
                yard_pop_all((output@, stack_view(op_stack@))) == shunting_yard(s),
            ensures
                valid ==> postfix_count(output@) == Some(count_binary(op_stack@) + 1),
                postfix_operands(output@) == infix_operands(s),
                op_stack@.len() == 0,
                yard_pop_all((output@, stack_view(op_stack@))) == shunting_yard(s),
            decreases op_stack@.len(),
        {
            if op_stack.len() == 0 {
                break;
            }
            proof {
                lemma_count_parens_empty(op_stack@);
                assert(stack_view(op_stack@).last() == waiting_entry(op_stack@.last()));
            }
            let ghost stack_before = op_stack@;
            pop_operator(&mut op_stack, &mut output, Ghost(valid));
            proof {
                assert(stack_view(op_stack@) =~= stack_view(stack_before).drop_last());
            }
        }
        proof {
            assert(stack_view(op_stack@) =~= Seq::<InfixEntry>::empty());
        }
        ReversePolishExpr(output)
    }

    /// Converts the postfix expression to an expression tree.
    pub fn into_tree(self) -> (r: Expression)
        requires
            postfix_valid(self.0@),
        ensures
            r == tree_expr(self.0@),
    {
        proof {
            lemma_tree_of_count(self.0@, 1);
        }
        let mut buf = self.0;
        Self::get_node(&mut buf)
    }

    /// Reads the expression that ends at the end of the buffer, removing its entries.
    fn get_node(buf: &mut VecDeque<PostfixEntry>) -> (r: Expression)
        requires
            tree_of(old(buf)@) is Some,
        ensures
            r == tree_expr(old(buf)@),
            final(buf)@ == tree_rest(old(buf)@),
        decreases old(buf)@.len(),
    {
        let ghost s = buf@;
        proof {
            lemma_tree_of_prefix(s);
        }
        match buf.pop_back() {
            Some(PostfixEntry::Operand(expr)) => expr,
            Some(PostfixEntry::UnaryOperator(op)) => {
                let value = Box::new(Self::get_node(buf));
                Expression::Unary { op, value }
            },
            Some(PostfixEntry::BinaryOperator(op)) => {
                let right = Box::new(Self::get_node(buf));
                proof {
                    lemma_tree_of_prefix(s.drop_last());
                }
                let left = Box::new(Self::get_node(buf));
                Expression::Binary { op, left, right }
            },
            None => {
                proof {
                    assert(false);
                }
                Expression::Literal(crate::ast::expression::Literal::Boolean(false))
            },
        }
    }
}

/// The postfix entries of a valid infix expression.
fn infix_to_postfix(entries: VecDeque<InfixEntry>) -> (out: VecDeque<PostfixEntry>)
    requires
        parens_balanced(entries@),
    ensures
        infix_valid(entries@) ==> postfix_valid(out@),
        postfix_operands(out@) == infix_operands(entries@),
        out@ == shunting_yard(entries@),
{
    let r = ReversePolishExpr::from_infix(InfixExpr(entries));
    r.0
}

/// Error of asking for an expression where an assignment stands.
#[derive(Debug, Clone, Copy, PartialEq, Eq, Structural)]
pub struct NotAnExpression;

impl PostfixNotation {
    /// Converts from infix to postfix notation, keeping any assignment as it is.
    pub fn from_infix(infix: InfixNotation) -> (r: PostfixNotation)
        requires
            parens_balanced(infix.spec_expr()@),
        ensures
            MaybeAssignment::same_shape(&infix, &r),
            infix_valid(infix.spec_expr()@) ==> postfix_valid(r.spec_expr()@),
            postfix_operands(r.spec_expr()@) == infix_operands(infix.spec_expr()@),
            r.spec_expr()@ == shunting_yard(infix.spec_expr()@),
    {
        infix.map_expr(infix_to_postfix)
    }

    /// Converts from postfix notation to tree.
    pub fn into_tree(self) -> (r: Tree)
        requires
            postfix_valid(self.spec_expr()@),
        ensures
            MaybeAssignment::same_shape(&self, &r),
            r.spec_expr() == tree_expr(self.spec_expr()@),
    {
        match self {
            MaybeAssignment::Expression(expression) => {
                MaybeAssignment::Expression(ReversePolishExpr(expression).into_tree())
            },
            MaybeAssignment::Assignment { assignee, operator, expression } => {
                MaybeAssignment::Assignment {
                    assignee,
                    operator,
                    expression: ReversePolishExpr(expression).into_tree(),
                }
            },
        }
    }

    /// Converts from postfix notation to expression tree; an assignment is no expression.
    pub fn into_expression(self) -> (r: Result<Expression, NotAnExpression>)
        requires
            postfix_valid(self.spec_expr()@),
        ensures
            self is Expression ==> r == Ok::<Expression, NotAnExpression>(
                tree_expr(self.spec_expr()@),
            ),
            self is Assignment ==> r == Err::<Expression, NotAnExpression>(NotAnExpression),
    {
        match self {
            MaybeAssignment::Expression(expression) => Ok(
                ReversePolishExpr(expression).into_tree(),
            ),
            _ => Err(NotAnExpression),
        }
    }
}

} // verus!
