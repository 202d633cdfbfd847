//! The translated program as plain values, for stating what translation gives.

use vstd::prelude::*;

use crate::ast::expression::LiteralView;
use crate::hir::builder::TranslationError;
use crate::hir::scope::VarId;
use crate::hir::types::{TypeError, TypeId};
use crate::hir::{Block, Expression, ExpressionKind, Function, FunctionId, Statement};

verus! {

/// A typed expression as plain values.
pub struct ExprView {
    pub type_: Option<TypeId>,
    pub kind: KindView,
}

/// What an expression is, as plain values.
pub enum KindView {
    Block(BlockView),
    If { condition: Box<ExprView>, body: BlockView, else_body: Option<BlockView> },
    Loop(BlockView),
    Literal(LiteralView),
    FnCall(FunctionId, Seq<ExprView>),
    Var(VarId),
}

/// A block as plain values.
pub struct BlockView {
    pub statements: Seq<StmtView>,
    pub expression: Option<Box<ExprView>>,
}

/// A statement as plain values.
pub enum StmtView {
    ExprStmt(ExprView),
    LetStmt { var: VarId, type_: TypeId, value: Option<Box<ExprView>> },
    Assignment { assignee: VarId, value: ExprView },
    Return(ExprView),
    Break,
}

/// A translated function as plain values.
pub struct FunctionView {
    pub params: Seq<(VarId, TypeId)>,
    pub return_type: Option<TypeId>,
    pub body: BlockView,
}

/// A translation error as plain values.
pub enum ErrorView {
    TypeInference,
    TypeMismatch { expected: Option<TypeId>, received: Option<TypeId> },
    VariableNotDeclared(Seq<char>),
    FunctionNotFound(Seq<Seq<char>>),
    InvalidBreak,
    TypeNotFound(Seq<char>),
    TypeAlreadyDefined(Seq<char>),
}

impl BlockView {
    /// Type of the block: the type of its final expression, none without one.
    pub open spec fn type_id(self) -> Option<TypeId> {
        match self.expression {
            Some(e) => e.type_,
            None => None,
        }
    }
}

/// An expression as plain values.
pub open spec fn expr_view(e: Expression) -> ExprView
    decreases e,
{
    ExprView {
        type_: e.type_,
        kind: match e.kind {
            ExpressionKind::Block(b) => KindView::Block(block_view(b)),
            ExpressionKind::If { condition, body, else_body } => KindView::If {
                condition: Box::new(expr_view(*condition)),
                body: block_view(body),
                else_body: match else_body {
                    Some(b) => Some(block_view(b)),
                    None => None,
                },
            },
            ExpressionKind::Loop(b) => KindView::Loop(block_view(b)),
            ExpressionKind::Literal(l) => KindView::Literal(l@),
            ExpressionKind::FnCall(id, args) => {
                proof {
                    assert(decreases_to!(args => args@));
                }
                KindView::FnCall(id, exprs_view(args@))
            },
            ExpressionKind::Var(v) => KindView::Var(v),
        },
    }
}

/// Expressions as plain values, in order.
pub open spec fn exprs_view(s: Seq<Expression>) -> Seq<ExprView>
    decreases s,
{
    if s.len() == 0 {
        Seq::empty()
    } else {
        exprs_view(s.subrange(0, s.len() - 1)).push(expr_view(s[s.len() - 1]))
    }
}

/// A block as plain values.
pub open spec fn block_view(b: Block) -> BlockView
    decreases b,
{
    proof {
        assert(decreases_to!(b.0 => b.0@));
    }
    BlockView {
        statements: stmts_view(b.0@),
        expression: match b.1 {
            Some(e) => Some(Box::new(expr_view(*e))),
            None => None,
        },
    }
}

/// Statements as plain values, in order.
pub open spec fn stmts_view(s: Seq<Statement>) -> Seq<StmtView>
    decreases s,
{
    if s.len() == 0 {
        Seq::empty()
    } else {
        stmts_view(s.subrange(0, s.len() - 1)).push(stmt_view(s[s.len() - 1]))
    }
}

/// A statement as plain values.
pub open spec fn stmt_view(s: Statement) -> StmtView
    decreases s,
{
    match s {
        Statement::ExprStmt(e) => StmtView::ExprStmt(expr_view(e)),
        Statement::LetStmt { var, type_, value } => StmtView::LetStmt {
            var,
            type_,
            value: match value {
                Some(v) => Some(Box::new(expr_view(*v))),
                None => None,
            },
        },
        Statement::Assignment { assignee, value } => StmtView::Assignment {
            assignee,
            value: expr_view(value),
        },
        Statement::Return(e) => StmtView::Return(expr_view(e)),
        Statement::Break => StmtView::Break,
    }
}

/// A translation error as plain values.
pub open spec fn error_view(e: TranslationError) -> ErrorView {
    match e {
        TranslationError::TypeInference => ErrorView::TypeInference,
        TranslationError::TypeMismatch { expected, received } => ErrorView::TypeMismatch {
            expected,
            received,
        },
        TranslationError::VariableNotDeclared(n) => ErrorView::VariableNotDeclared(n@),
        TranslationError::FunctionNotFound(p) => ErrorView::FunctionNotFound(p@),
        TranslationError::InvalidBreak => ErrorView::InvalidBreak,
        TranslationError::TypeError(TypeError::NotFound(n)) => ErrorView::TypeNotFound(n@),
        TranslationError::TypeError(TypeError::AlreadyDefined(n)) => ErrorView::TypeAlreadyDefined(
            n@,
        ),
    }
}

/// A translated function as plain values.
pub open spec fn function_view(f: Function) -> FunctionView {
    FunctionView {
        params: f.signature.params@,
        return_type: f.signature.return_type,
        body: block_view(f.body),
    }
}

/// The view of a translated function, or of the error.
pub open spec fn function_result_view(r: Result<Function, TranslationError>) -> Result<
    FunctionView,
    ErrorView,
> {
    match r {
        Ok(f) => Ok(function_view(f)),
        Err(x) => Err(error_view(x)),
    }
}

/// The view of a translated expression, or of the error.
pub open spec fn expr_result_view(r: Result<Expression, TranslationError>) -> Result<
    ExprView,
    ErrorView,
> {
    match r {
        Ok(e) => Ok(expr_view(e)),
        Err(x) => Err(error_view(x)),
    }
}

/// The view of a translated block, or of the error.
pub open spec fn block_result_view(r: Result<Block, TranslationError>) -> Result<
    BlockView,
    ErrorView,
> {
    match r {
        Ok(b) => Ok(block_view(b)),
        Err(x) => Err(error_view(x)),
    }
}

/// The view of a translated statement, or of the error.
pub open spec fn stmt_result_view(r: Result<Statement, TranslationError>) -> Result<
    StmtView,
    ErrorView,
> {
    match r {
        Ok(s) => Ok(stmt_view(s)),
        Err(x) => Err(error_view(x)),
    }
}

/// The view of statements with one put in front is that statement's view in front.
pub proof fn lemma_stmts_view_prepend(x: Statement, s: Seq<Statement>)
    ensures
        stmts_view(seq![x] + s) == seq![stmt_view(x)] + stmts_view(s),
    decreases s.len(),
{
    if s.len() > 0 {
        let t = s.subrange(0, s.len() - 1);
        lemma_stmts_view_prepend(x, t);
        assert((seq![x] + s).subrange(0, s.len() as int) =~= seq![x] + t);
        assert((seq![x] + s)[s.len() as int] == s[s.len() - 1]);
        assert(stmts_view(seq![x] + s) =~= seq![stmt_view(x)] + stmts_view(s));
    } else {
        let e = Seq::<Statement>::empty();
        assert(s =~= e);
        assert(seq![x] + s =~= seq![x]);
        assert(seq![x].subrange(0, 0) =~= e);
        assert(stmts_view(e) =~= Seq::<StmtView>::empty());
        assert(stmts_view(seq![x]) =~= seq![stmt_view(x)]);
        assert(stmts_view(seq![x] + s) =~= seq![stmt_view(x)] + stmts_view(s));
    }
}

} // verus!
