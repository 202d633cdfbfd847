//! High-level intermediate representation.
//!
//! AST to HIR translation includes type checking and desugaring.

pub mod types;
pub mod scope;
pub mod builder;
pub mod body;
pub mod view;

use vstd::prelude::*;

use crate::ast::expression::Literal;
use self::scope::VarId;
use self::types::{TypeId, TypeTable};

pub use self::builder::{HirBuilder, TranslationError};

verus! {

/// The translated program: its types and its functions.
#[derive(Debug)]
pub struct Hir {
    pub type_table: TypeTable,
    pub functions: Vec<Function>,
}

impl Hir {
    /// The function with the given id, if there is one.
    pub fn get_function(&self, id: FunctionId) -> (r: Option<&Function>)
        ensures
            (id.0 as int) < self.functions@.len() ==> r == Some(&self.functions@[id.0 as int]),
            (id.0 as int) >= self.functions@.len() ==> r is None,
    {
        let i = id.0 as usize;
        if i < self.functions.len() {
            Some(&self.functions[i])
        } else {
            None
        }
    }
}

/// Id of a function: its position among the functions of the program.
#[derive(Debug, Clone, Copy, PartialEq, Eq, Structural)]
pub struct FunctionId(pub u32);

/// A translated function.
#[derive(Debug, PartialEq, Eq)]
pub struct Function {
    pub signature: FunctionSignature,
    pub body: Block,
}

/// Types of a function's parameters, with the variables they are bound to, and of its result.
#[derive(Debug, PartialEq, Eq)]
pub struct FunctionSignature {
    pub params: Vec<(VarId, TypeId)>,
    pub return_type: Option<TypeId>,
}

/// A typed expression; `None` is the type of an expression without a value.
#[derive(Debug, PartialEq, Eq)]
pub struct Expression {
    pub type_: Option<TypeId>,
    pub kind: ExpressionKind,
}

/// What an expression is.
#[derive(Debug, PartialEq, Eq)]
pub enum ExpressionKind {
    Block(Block),
    If { condition: Box<Expression>, body: Block, else_body: Option<Block> },
    Loop(Block),
    Literal(Literal),
    FnCall(FunctionId, Vec<Expression>),
    Var(VarId),
}

/// A statement of a block.
#[derive(Debug, PartialEq, Eq)]
pub enum Statement {
    ExprStmt(Expression),
    LetStmt { var: VarId, type_: TypeId, value: Option<Box<Expression>> },
    Assignment { assignee: VarId, value: Expression },
    Return(Expression),
    Break,
}

/// Statements, then an optional expression: the block's value.
#[derive(Debug, PartialEq, Eq)]
pub struct Block(pub Vec<Statement>, pub Option<Box<Expression>>);

impl Block {
    /// Type of the block: the type of its final expression, none without one.
    pub open spec fn spec_type_id(&self) -> Option<TypeId> {
        match self.1 {
            Some(e) => e.type_,
            None => None,
        }
    }

    /// Type of the block: the type of its final expression, none without one.
    pub fn type_id(&self) -> (r: Option<TypeId>)
        ensures
            r == self.spec_type_id(),
    {
        match &self.1 {
            Some(e) => e.type_,
            None => None,
        }
    }
}

} // verus!
