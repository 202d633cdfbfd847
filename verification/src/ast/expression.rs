//! Expressions.

use vstd::prelude::*;

use crate::ast::Identifier;
use crate::ast::statement::Statement;
use crate::lexer::number::{Number, SpecNumber};
use crate::lexer::operator::{BinaryOp, UnaryOp};
use crate::path::RelativePath;

verus! {

/// An expression of the language.
#[derive(Debug, PartialEq, Eq)]
pub enum Expression {
    /// Block is a set of statements surrounded by opening and closing brace.
    Block(Block),
    If { condition: Box<Expression>, body: Block, else_body: Option<Block> },
    While { condition: Box<Expression>, body: Block },
    For { var: Identifier, expr: Box<Expression>, body: Block },
    Unary { op: UnaryOp, value: Box<Expression> },
    Binary { op: BinaryOp, left: Box<Expression>, right: Box<Expression> },
    FnCall { path: RelativePath, params: Vec<Expression> },
    Var(Identifier),
    Literal(Literal),
}

/// A literal value.
#[derive(Debug, Clone, PartialEq, Eq)]
pub enum Literal {
    Number(Number),
    String(String),
    Boolean(bool),
}

/// A literal as plain values.
pub enum LiteralView {
    Number(SpecNumber),
    String(Seq<char>),
    Boolean(bool),
}

impl View for Literal {
    type V = LiteralView;

    open spec fn view(&self) -> LiteralView {
        match self {
            Literal::Number(n) => LiteralView::Number(n@),
            Literal::String(s) => LiteralView::String(s@),
            Literal::Boolean(b) => LiteralView::Boolean(*b),
        }
    }
}

impl Literal {
    /// A copy of the literal.
    pub fn duplicate(&self) -> (r: Literal)
        ensures
            r@ == self@,
    {
        match self {
            Literal::Number(n) => Literal::Number(
                Number {
                    integer: n.integer.clone(),
                    fraction: match &n.fraction {
                        Some(f) => Some(f.clone()),
                        None => None,
                    },
                    base: n.base,
                },
            ),
            Literal::String(s) => Literal::String(s.clone()),
            Literal::Boolean(b) => Literal::Boolean(*b),
        }
    }
}

/// Block is an expression that consists of a number of statements and an optional final
/// expression.
#[derive(Debug, PartialEq, Eq)]
pub struct Block {
    pub statements: Vec<Statement>,
    pub expression: Option<Box<Expression>>,
}

impl Expression {
    /// Block expressions end with a right brace.
    pub open spec fn spec_is_block_expression(&self) -> bool {
        self is Block || self is If || self is While || self is For
    }

    /// Check if that expression is block expression.
    ///
    /// Block expressions end with a right brace and don't require to be followed by a semicolon
    /// to be accounted as expression statement.
    pub fn is_block_expression(&self) -> (r: bool)
        ensures
            r == self.spec_is_block_expression(),
    {
        match self {
            Expression::Block(_) | Expression::If { .. } | Expression::While { .. }
            | Expression::For { .. } => true,
            _ => false,
        }
    }
}

} // verus!
