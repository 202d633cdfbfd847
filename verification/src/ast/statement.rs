//! Statements.

use vstd::prelude::*;

use crate::ast::Identifier;
use crate::ast::expression::Expression;
use crate::lexer::operator::AssignOp;

verus! {

/// A statement of a block.
#[derive(Debug, PartialEq, Eq)]
pub enum Statement {
    ExprStmt(Expression),
    LetStmt(LetStatement),
    Assignment { assignee: Identifier, operator: AssignOp, expression: Expression },
    Return(Expression),
    Break,
}

/// `let VAR: TYPE = VALUE;`
#[derive(Debug, PartialEq, Eq)]
pub struct LetStatement {
    pub name: Identifier,
    pub type_: Option<Identifier>,
    pub value: Option<Box<Expression>>,
}

} // verus!
