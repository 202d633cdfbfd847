//! Translation of function bodies.

use vstd::prelude::*;

use crate::ast::expression::{Block as AstBlock, Expression as AstExpression, Literal};
use crate::ast::Identifier;
use crate::ast::item::{Function as AstFunction, Parameter};
use crate::ast::statement::Statement as AstStatement;
use crate::hir::builder::{Env, HirBuilder, TranslationError, lookup_id};
use crate::hir::scope::{FrameView, Scope, VarId, lookup_frames};
use crate::hir::view::{lemma_stmts_view_prepend, FunctionView, function_result_view, 
    BlockView, ErrorView, ExprView, KindView, StmtView, block_result_view, block_view,
    error_view, expr_result_view, expr_view, exprs_view, stmt_result_view,
    stmt_view, stmts_view,
};
use crate::hir::types::{PrimitiveType, TypeId, type_of};
use crate::hir::{Block, Expression, ExpressionKind, Function, FunctionSignature, Statement};
use crate::lexer::number::Number;
use crate::path::{AbsolutePath, RelativePath, RelativePathStart, names};

verus! {

/// The expression is one that translation handles, written in `module`: no `for` loop, unary
/// or binary operation, string literal or compound assignment, and no path that leaves the
/// crate.
pub open spec fn expr_supported(e: AstExpression, module: Seq<Seq<char>>) -> bool
    decreases e,
{
    match e {
        AstExpression::Block(b) => block_supported(b, module),
        AstExpression::If { condition, body, else_body } => {
            &&& expr_supported(*condition, module)
            &&& block_supported(body, module)
            &&& match else_body {
                Some(b) => block_supported(b, module),
                None => true,
            }
        },
        AstExpression::While { condition, body } => expr_supported(*condition, module)
            && block_supported(body, module),
        AstExpression::For { .. } => false,
        AstExpression::Unary { .. } => false,
        AstExpression::Binary { .. } => false,
        AstExpression::FnCall { path, params } => {
            &&& RelativePath::spec_to_absolute(path.start, names(path.other@), module) is Some
            &&& forall|i: int| 0 <= i < params@.len() ==> expr_supported(#[trigger] params@[i], module)
        },
        AstExpression::Var(_) => true,
        AstExpression::Literal(l) => !(l is String),
    }
}

/// The block is one that translation handles, written in `module`.
pub open spec fn block_supported(b: AstBlock, module: Seq<Seq<char>>) -> bool
    decreases b,
{
    &&& forall|i: int|
        0 <= i < b.statements@.len() ==> stmt_supported(#[trigger] b.statements@[i], module)
    &&& match b.expression {
        Some(e) => expr_supported(*e, module),
        None => true,
    }
}

/// The statement is one that translation handles, written in `module`.
pub open spec fn stmt_supported(s: AstStatement, module: Seq<Seq<char>>) -> bool
    decreases s,
{
    match s {
        AstStatement::ExprStmt(e) => expr_supported(e, module),
        AstStatement::LetStmt(l) => match l.value {
            Some(v) => expr_supported(*v, module),
            None => true,
        },
        AstStatement::Assignment { operator, expression, .. } => operator.spec_binary_op() is None
            && expr_supported(expression, module),
        AstStatement::Return(e) => expr_supported(e, module),
        AstStatement::Break => true,
    }
}

/// Number of variable bindings in the expression.
pub open spec fn expr_lets(e: AstExpression) -> nat
    decreases e,
{
    match e {
        AstExpression::Block(b) => block_lets(b),
        AstExpression::If { condition, body, else_body } => expr_lets(*condition) + block_lets(body)
            + match else_body {
            Some(b) => block_lets(b),
            None => 0,
        },
        AstExpression::While { condition, body } => expr_lets(*condition) + block_lets(body),
        AstExpression::FnCall { params, .. } => exprs_lets(params@),
        _ => 0,
    }
}

/// Number of variable bindings in the expressions.
pub open spec fn exprs_lets(s: Seq<AstExpression>) -> nat
    decreases s,
{
    if s.len() == 0 {
        0
    } else {
        exprs_lets(s.drop_last()) + expr_lets(s.last())
    }
}

/// Number of variable bindings in the block.
pub open spec fn block_lets(b: AstBlock) -> nat
    decreases b,
{
    stmts_lets(b.statements@) + match b.expression {
        Some(e) => expr_lets(*e),
        None => 0,
    }
}

/// Number of variable bindings in the statements.
pub open spec fn stmts_lets(s: Seq<AstStatement>) -> nat
    decreases s,
{
    if s.len() == 0 {
        0
    } else {
        stmts_lets(s.drop_last()) + stmt_lets(s.last())
    }
}

/// Number of variable bindings in the statement.
pub open spec fn stmt_lets(s: AstStatement) -> nat
    decreases s,
{
    match s {
        AstStatement::ExprStmt(e) => expr_lets(e),
        AstStatement::LetStmt(l) => 1 + match l.value {
            Some(v) => expr_lets(*v),
            None => 0,
        },
        AstStatement::Assignment { expression, .. } => expr_lets(expression),
        AstStatement::Return(e) => expr_lets(e),
        AstStatement::Break => 0,
    }
}

/// The function is one that translation handles, written in `module`, and binds fewer
/// variables than ids can count.
pub open spec fn fn_supported(f: AstFunction, module: Seq<Seq<char>>) -> bool {
    &&& block_supported(f.body, module)
    &&& f.params@.len() + block_lets(f.body) < u32::MAX
}

/// Type of a literal.
pub open spec fn literal_type(l: Literal) -> TypeId {
    match l {
        Literal::Number(n) => match n.fraction {
            None => TypeId::Primitive(PrimitiveType::I32),
            Some(_) => TypeId::Primitive(PrimitiveType::F32),
        },
        Literal::String(_) => TypeId::Primitive(PrimitiveType::Bool),
        Literal::Boolean(_) => TypeId::Primitive(PrimitiveType::Bool),
    }
}

/// The frames of a child scope of `frames`: inside a loop if `is_loop` or if `frames` is.
pub open spec fn child_frames(frames: Seq<FrameView>, is_loop: bool) -> Seq<FrameView> {
    frames.push((Seq::empty(), is_loop || frames.last().1))
}

/// `frames` with `name` bound to `var` of type `type_` in the innermost frame.
pub open spec fn bind(frames: Seq<FrameView>, name: Seq<char>, var: VarId, type_: TypeId) -> Seq<
    FrameView,
> {
    frames.update(frames.len() - 1, (frames.last().0.push((name, (var, type_))), frames.last().1))
}

/// `done` followed by what `rest` holds, or the error of `rest`.
pub open spec fn after<V>(done: Seq<V>, rest: Result<Seq<V>, ErrorView>) -> Result<Seq<V>, ErrorView> {
    match rest {
        Ok(vs) => Ok(done + vs),
        Err(x) => Err(x),
    }
}

/// The type of a condition.
pub open spec fn bool_type() -> Option<TypeId> {
    Some(TypeId::Primitive(PrimitiveType::Bool))
}

/// The statement a `while` loop starts with: go on while the condition `c` holds, and leave the
/// loop when it does not.
pub open spec fn loop_exit(c: ExprView) -> StmtView {
    StmtView::ExprStmt(
        ExprView {
            type_: None,
            kind: KindView::If {
                condition: Box::new(c),
                body: BlockView { statements: seq![], expression: None },
                else_body: Some(BlockView { statements: seq![StmtView::Break], expression: None }),
            },
        },
    )
}

/// A call of the function at `path`, written in `module`, with the arguments `args`: the
/// function must be known to `p` and translated already.
pub open spec fn call_view(
    path: RelativePath,
    args: Seq<ExprView>,
    p: Env,
    module: Seq<Seq<char>>,
) -> Result<ExprView, ErrorView> {
    match RelativePath::spec_to_absolute(path.start, names(path.other@), module) {
        None => Err(ErrorView::FunctionNotFound(Seq::empty())),
        Some(abs) => match lookup_id(p.mapping, abs) {
            None => Err(ErrorView::FunctionNotFound(abs)),
            Some(id) => if (id.0 as int) < p.returns.len() {
                Ok(
                    ExprView {
                        type_: p.returns[id.0 as int],
                        kind: KindView::FnCall(id, args),
                    },
                )
            } else {
                Err(ErrorView::FunctionNotFound(abs))
            },
        },
    }
}

/// What translating `e` gives, in a scope with `frames` whose next id is `next`, for a function
/// written in `module` with the types and functions `p` knows: the expression or the first error,
/// and the next id afterwards. Constructs that `expr_supported` leaves out get no meaning here.
pub open spec fn tr_expr(
    e: AstExpression,
    frames: Seq<FrameView>,
    next: nat,
    p: Env,
    module: Seq<Seq<char>>,
) -> (Result<ExprView, ErrorView>, nat)
    decreases e, 1nat,
{
    match e {
        AstExpression::Block(b) => {
            let (r, n) = tr_block(b, frames, false, next, p, module);
            (
                match r {
                    Ok(bv) => Ok(ExprView { type_: bv.type_id(), kind: KindView::Block(bv) }),
                    Err(x) => Err(x),
                },
                n,
            )
        },
        AstExpression::If { .. } => tr_if(e, frames, next, p, module),
        AstExpression::While { .. } => tr_while(e, frames, next, p, module),
        AstExpression::FnCall { .. } => tr_call(e, frames, next, p, module),
        AstExpression::Var(x) => (
            match lookup_frames(frames, x@) {
                Some((v, t)) => Ok(ExprView { type_: Some(t), kind: KindView::Var(v) }),
                None => Err(ErrorView::VariableNotDeclared(x@)),
            },
            next,
        ),
        AstExpression::Literal(l) => (
            Ok(ExprView { type_: Some(literal_type(l)), kind: KindView::Literal(l@) }),
            next,
        ),
        _ => (Err(ErrorView::TypeInference), next),
    }
}

/// [tr_expr] of an `if`: the condition must be of type `bool`; the type is that of the body.
pub open spec fn tr_if(
    e: AstExpression,
    frames: Seq<FrameView>,
    next: nat,
    p: Env,
    module: Seq<Seq<char>>,
) -> (Result<ExprView, ErrorView>, nat)
    decreases e, 0nat,
{
    match e {
        AstExpression::If { condition, body, else_body } => {
            let (rc, n1) = tr_expr(*condition, frames, next, p, module);
            match rc {
                Err(x) => (Err(x), n1),
                Ok(c) => if c.type_ != bool_type() {
                    (Err(ErrorView::TypeMismatch { expected: bool_type(), received: c.type_ }), n1)
                } else {
                    let (rb, n2) = tr_block(body, frames, false, n1, p, module);
                    match rb {
                        Err(x) => (Err(x), n2),
                        Ok(bv) => match else_body {
                            None => (
                                Ok(
                                    ExprView {
                                        type_: bv.type_id(),
                                        kind: KindView::If {
                                            condition: Box::new(c),
                                            body: bv,
                                            else_body: None,
                                        },
                                    },
                                ),
                                n2,
                            ),
                            Some(other) => {
                                let (ro, n3) = tr_block(other, frames, false, n2, p, module);
                                match ro {
                                    Err(x) => (Err(x), n3),
                                    Ok(ov) => (
                                        Ok(
                                            ExprView {
                                                type_: bv.type_id(),
                                                kind: KindView::If {
                                                    condition: Box::new(c),
                                                    body: bv,
                                                    else_body: Some(ov),
                                                },
                                            },
                                        ),
                                        n3,
                                    ),
                                }
                            },
                        },
                    }
                },
            }
        },
        _ => (Err(ErrorView::TypeInference), next),
    }
}

/// [tr_expr] of a `while`: the condition must be of type `bool`; the loop has no value, and its
/// body starts by leaving it when the condition does not hold.
pub open spec fn tr_while(
    e: AstExpression,
    frames: Seq<FrameView>,
    next: nat,
    p: Env,
    module: Seq<Seq<char>>,
) -> (Result<ExprView, ErrorView>, nat)
    decreases e, 0nat,
{
    match e {
        AstExpression::While { condition, body } => {
            let (rc, n1) = tr_expr(*condition, frames, next, p, module);
            match rc {
                Err(x) => (Err(x), n1),
                Ok(c) => if c.type_ != bool_type() {
                    (Err(ErrorView::TypeMismatch { expected: bool_type(), received: c.type_ }), n1)
                } else {
                    let (rb, n2) = tr_block(body, frames, true, n1, p, module);
                    match rb {
                        Err(x) => (Err(x), n2),
                        Ok(bv) => (
                            Ok(
                                ExprView {
                                    type_: None,
                                    kind: KindView::Loop(
                                        BlockView {
                                            statements: seq![loop_exit(c)] + bv.statements,
                                            expression: bv.expression,
                                        },
                                    ),
                                },
                            ),
                            n2,
                        ),
                    }
                },
            }
        },
        _ => (Err(ErrorView::TypeInference), next),
    }
}

/// [tr_expr] of a call: the arguments in order, then the function the path names.
pub open spec fn tr_call(
    e: AstExpression,
    frames: Seq<FrameView>,
    next: nat,
    p: Env,
    module: Seq<Seq<char>>,
) -> (Result<ExprView, ErrorView>, nat)
    decreases e, 0nat,
{
    match e {
        AstExpression::FnCall { path, params } => {
            let (ra, n1) = tr_exprs(params@, frames, next, p, module);
            match ra {
                Err(x) => (Err(x), n1),
                Ok(args) => (call_view(path, args, p, module), n1),
            }
        },
        _ => (Err(ErrorView::TypeInference), next),
    }
}

/// What translating the expressions of `es` in order gives, stopping at the first error.
pub open spec fn tr_exprs(
    es: Seq<AstExpression>,
    frames: Seq<FrameView>,
    next: nat,
    p: Env,
    module: Seq<Seq<char>>,
) -> (Result<Seq<ExprView>, ErrorView>, nat)
    decreases es, 1nat,
{
    if es.len() == 0 {
        (Ok(Seq::empty()), next)
    } else {
        let (r0, n0) = tr_expr(es[0], frames, next, p, module);
        match r0 {
            Err(x) => (Err(x), n0),
            Ok(v) => {
                let (rs, n1) = tr_exprs(es.subrange(1, es.len() as int), frames, n0, p, module);
                (after(seq![v], rs), n1)
            },
        }
    }
}

/// What translating the block `b` gives in a child scope of `frames`, inside a loop if
/// `is_loop`: the block or the first error, and the next id afterwards.
pub open spec fn tr_block(
    b: AstBlock,
    frames: Seq<FrameView>,
    is_loop: bool,
    next: nat,
    p: Env,
    module: Seq<Seq<char>>,
) -> (Result<BlockView, ErrorView>, nat)
    decreases b, 1nat,
{
    let (rs, inner, n1) = tr_stmts(b.statements@, child_frames(frames, is_loop), next, p, module);
    match rs {
        Err(x) => (Err(x), n1),
        Ok(ss) => match b.expression {
            None => (Ok(BlockView { statements: ss, expression: None }), n1),
            Some(e) => {
                let (re, n2) = tr_expr(*e, inner, n1, p, module);
                match re {
                    Err(x) => (Err(x), n2),
                    Ok(ev) => (Ok(BlockView { statements: ss, expression: Some(Box::new(ev)) }), n2),
                }
            },
        },
    }
}

/// What translating the statements of `ss` in order gives, stopping at the first error, and the
/// frames and next id afterwards.
pub open spec fn tr_stmts(
    ss: Seq<AstStatement>,
    frames: Seq<FrameView>,
    next: nat,
    p: Env,
    module: Seq<Seq<char>>,
) -> (Result<Seq<StmtView>, ErrorView>, Seq<FrameView>, nat)
    decreases ss, 1nat,
{
    if ss.len() == 0 {
        (Ok(Seq::empty()), frames, next)
    } else {
        let (r0, f0, n0) = tr_stmt(ss[0], frames, next, p, module);
        match r0 {
            Err(x) => (Err(x), f0, n0),
            Ok(v) => {
                let (rs, f1, n1) = tr_stmts(ss.subrange(1, ss.len() as int), f0, n0, p, module);
                (after(seq![v], rs), f1, n1)
            },
        }
    }
}

/// What translating the statement `s` gives: the statement or the error, and the frames and next
/// id afterwards.
pub open spec fn tr_stmt(
    s: AstStatement,
    frames: Seq<FrameView>,
    next: nat,
    p: Env,
    module: Seq<Seq<char>>,
) -> (Result<StmtView, ErrorView>, Seq<FrameView>, nat)
    decreases s, 1nat,
{
    match s {
        AstStatement::ExprStmt(e) => {
            let (r, n) = tr_expr(e, frames, next, p, module);
            (
                match r {
                    Ok(v) => Ok(StmtView::ExprStmt(v)),
                    Err(x) => Err(x),
                },
                frames,
                n,
            )
        },
        AstStatement::LetStmt(_) => tr_let(s, frames, next, p, module),
        AstStatement::Assignment { assignee, expression, .. } => match lookup_frames(
            frames,
            assignee@,
        ) {
            None => (Err(ErrorView::VariableNotDeclared(assignee@)), frames, next),
            Some((v, _)) => {
                let (r, n) = tr_expr(expression, frames, next, p, module);
                (
                    match r {
                        Ok(ev) => Ok(StmtView::Assignment { assignee: v, value: ev }),
                        Err(x) => Err(x),
                    },
                    frames,
                    n,
                )
            },
        },
        AstStatement::Return(e) => {
            let (r, n) = tr_expr(e, frames, next, p, module);
            (
                match r {
                    Ok(v) => Ok(StmtView::Return(v)),
                    Err(x) => Err(x),
                },
                frames,
                n,
            )
        },
        AstStatement::Break => (
            if frames.last().1 {
                Ok(StmtView::Break)
            } else {
                Err(ErrorView::InvalidBreak)
            },
            frames,
            next,
        ),
    }
}

/// [tr_stmt] of a `let`: its type must be written and known; a value that cannot be translated
/// is dropped; the variable gets the next id once its value is translated.
pub open spec fn tr_let(
    s: AstStatement,
    frames: Seq<FrameView>,
    next: nat,
    p: Env,
    module: Seq<Seq<char>>,
) -> (Result<StmtView, ErrorView>, Seq<FrameView>, nat)
    decreases s, 0nat,
{
    match s {
        AstStatement::LetStmt(l) => match l.type_ {
            None => (Err(ErrorView::TypeInference), frames, next),
            Some(t) => match type_of(p.types, t@) {
                None => (Err(ErrorView::TypeNotFound(t@)), frames, next),
                Some(ty) => {
                    let (value, n1) = match l.value {
                        Some(v) => {
                            let (r, n) = tr_expr(*v, frames, next, p, module);
                            (
                                match r {
                                    Ok(ev) => Some(Box::new(ev)),
                                    Err(_) => None,
                                },
                                n,
                            )
                        },
                        None => (None, next),
                    };
                    let var = VarId(n1 as u32);
                    (
                        Ok(StmtView::LetStmt { var, type_: ty, value }),
                        bind(frames, l.name@, var, ty),
                        n1 + 1,
                    )
                },
            },
        },
        _ => (Err(ErrorView::TypeInference), frames, next),
    }
}

/// The types of the bound parameters `ps`.
pub open spec fn types_of(ps: Seq<(VarId, TypeId)>) -> Seq<TypeId> {
    ps.map_values(|v: (VarId, TypeId)| v.1)
}

/// The types of the parameters `ps`, in order, or the error for the first whose type is not
/// known to `p`.
pub open spec fn param_types(ps: Seq<Parameter>, p: Env) -> Result<Seq<TypeId>, ErrorView>
    decreases ps.len(),
{
    if ps.len() == 0 {
        Ok(Seq::empty())
    } else {
        match type_of(p.types, ps[0].type_@) {
            None => Err(ErrorView::TypeNotFound(ps[0].type_@)),
            Some(t) => after(seq![t], param_types(ps.subrange(1, ps.len() as int), p)),
        }
    }
}

/// The variables of the parameters `ps` of types `tys`: the i-th gets id i.
pub open spec fn param_vars(ps: Seq<Parameter>, tys: Seq<TypeId>) -> Seq<(Seq<char>, (VarId, TypeId))> {
    Seq::new(ps.len(), |i: int| (ps[i].name@, (VarId(i as u32), tys[i])))
}

/// The type a function returns, or the error if it is written and not known to `p`.
pub open spec fn return_type_of(ret: Option<Identifier>, p: Env) -> Result<
    Option<TypeId>,
    ErrorView,
> {
    match ret {
        None => Ok(None),
        Some(t) => match type_of(p.types, t@) {
            Some(ty) => Ok(Some(ty)),
            None => Err(ErrorView::TypeNotFound(t@)),
        },
    }
}

/// What translating `f`, written in `module`, gives with the types and functions `p` knows: the
/// parameters take the first ids in a scope of their own, the body is translated in a child of
/// it, and its type must be the return type.
pub open spec fn tr_function(f: AstFunction, p: Env, module: Seq<Seq<char>>) -> Result<
    FunctionView,
    ErrorView,
> {
    match param_types(f.params@, p) {
        Err(x) => Err(x),
        Ok(tys) => match return_type_of(f.return_type, p) {
            Err(x) => Err(x),
            Ok(ret) => match tr_block(
                f.body,
                seq![(param_vars(f.params@, tys), false)],
                false,
                f.params@.len(),
                p,
                module,
            ).0 {
                Err(x) => Err(x),
                Ok(bv) => if bv.type_id() != ret {
                    Err(ErrorView::TypeMismatch { expected: ret, received: bv.type_id() })
                } else {
                    Ok(
                        FunctionView {
                            params: Seq::new(f.params@.len(), |i: int| (VarId(i as u32), tys[i])),
                            return_type: ret,
                            body: bv,
                        },
                    )
                },
            },
        },
    }
}

/// Translates the body of one function, with the scope of its variables.
pub struct BodyBuilder<'b> {
    parent: &'b HirBuilder,
    module: AbsolutePath,
    scope: Scope,
}

impl<'b> BodyBuilder<'b> {
    /// Translates `function`, written in `module`, with the types and functions `parent` knows.
    pub fn translate(parent: &'b HirBuilder, module: AbsolutePath, function: &AstFunction) -> (r: Result<
        Function,
        TranslationError,
    >)
        requires
            fn_supported(*function, module@),
        ensures
            function_result_view(r) == tr_function(*function, parent.spec_env(), module@),
            r matches Ok(f) ==> f.body.spec_type_id() == f.signature.return_type,
            r matches Ok(f) ==> f.signature.params@.len() == function.params@.len(),
            r matches Ok(f) ==> forall|i: int|
                0 <= i < f.signature.params@.len() ==> Some(#[trigger] f.signature.params@[i].1)
                    == parent.spec_type_table().spec_get(function.params@[i].type_@),
            r matches Ok(f) ==> forall|i: int|
                0 <= i < f.signature.params@.len() ==> (#[trigger] f.signature.params@[i]).0 == VarId(i as u32),
            r matches Ok(f) ==> f.signature.return_type == match function.return_type {
                Some(t) => parent.spec_type_table().spec_get(t@),
                None => None,
            },
    {
        let mut builder = BodyBuilder { parent, module, scope: Scope::new() };
        builder.translate_function(function)
    }

    fn translate_function(&mut self, func: &AstFunction) -> (r: Result<Function, TranslationError>)
        requires
            old(self).scope.spec_frames() == seq![(Seq::<(Seq<char>, (VarId, TypeId))>::empty(), false)],
            old(self).scope.spec_next_id() == 0,
            fn_supported(*func, old(self).module@),
        ensures
            function_result_view(r) == tr_function(*func, old(self).parent.spec_env(), old(self).module@),
            r matches Ok(f) ==> f.body.spec_type_id() == f.signature.return_type,
            r matches Ok(f) ==> f.signature.params@.len() == func.params@.len(),
            r matches Ok(f) ==> forall|i: int|
                0 <= i < f.signature.params@.len() ==> Some(#[trigger] f.signature.params@[i].1)
                    == old(self).parent.spec_type_table().spec_get(func.params@[i].type_@),
            r matches Ok(f) ==> f.signature.return_type == match func.return_type {
                Some(t) => old(self).parent.spec_type_table().spec_get(t@),
                None => None,
            },
    {
        let ghost p = self.parent.spec_env();
        let ghost all = func.params@;
        let mut parameters: Vec<(VarId, TypeId)> = Vec::new();
        let mut i: usize = 0;
        proof {
            assert(all.subrange(0, all.len() as int) =~= all);
            assert(types_of(parameters@) =~= Seq::<TypeId>::empty());
            lemma_after_empty(param_types(all, p));
            assert(param_vars(all.take(0), types_of(parameters@)) =~= Seq::<(Seq<char>, (VarId, TypeId))>::empty());
        }
        while i < func.params.len()
            invariant
                i <= func.params@.len(),
                all == func.params@,
                parameters@.len() == i,
                self.scope.wf(),
                self.scope.spec_next_id() == i,
                self.parent == old(self).parent,
                self.module == old(self).module,
                p == old(self).parent.spec_env(),
                fn_supported(*func, self.module@),
                forall|j: int|
                    0 <= j < i ==> Some(#[trigger] parameters@[j].1) == self.parent.spec_type_table().spec_get(
                        func.params@[j].type_@,
                    ),
                forall|j: int| 0 <= j < i ==> (#[trigger] parameters@[j]).0 == VarId(j as u32),
                param_types(all, p) == after(
                    types_of(parameters@),
                    param_types(all.subrange(i as int, all.len() as int), p),
                ),
                self.scope.spec_frames() == seq![
                    (param_vars(all.take(i as int), types_of(parameters@)), false),
                ],
            decreases func.params@.len() - i,
        {
            let ghost rest = all.subrange(i as int, all.len() as int);
            let ghost tys = types_of(parameters@);
            proof {
                assert(rest[0] == all[i as int]);
                assert(rest.subrange(1, rest.len() as int) =~= all.subrange(i + 1, all.len() as int));
            }
            let param = &func.params[i];
            let type_id = match self.parent.type_table().get(&param.type_) {
                Ok(t) => t,
                Err(e) => {
                    return Err(TranslationError::TypeError(e));
                },
            };
            let var_id = self.scope.insert(param.name.duplicate(), type_id);
            parameters.push((var_id, type_id));
            proof {
                let tys2 = types_of(parameters@);
                assert(tys2 =~= tys.push(type_id));
                lemma_after_assoc(tys, type_id, param_types(all.subrange(i + 1, all.len() as int), p));
                assert(param_vars(all.take(i + 1), tys2) =~= param_vars(all.take(i as int), tys).push(
                    (param.name@, (var_id, type_id)),
                ));
            }
            i = i + 1;
        }
        let ghost tys = types_of(parameters@);
        proof {
            assert(all.subrange(i as int, all.len() as int) =~= Seq::<Parameter>::empty());
            assert(tys + Seq::<TypeId>::empty() =~= tys);
            assert(all.take(i as int) =~= all);
            assert(parameters@ =~= Seq::new(all.len(), |k: int| (VarId(k as u32), tys[k])));
        }
        let return_type = match &func.return_type {
            Some(type_) => match self.parent.type_table().get(type_) {
                Ok(t) => Some(t),
                Err(e) => {
                    return Err(TranslationError::TypeError(e));
                },
            },
            None => None,
        };
        let signature = FunctionSignature { params: parameters, return_type };
        let body = match self.translate_block(&func.body, false) {
            Ok(b) => b,
            Err(e) => {
                return Err(e);
            },
        };
        if body.type_id() != signature.return_type {
            return Err(
                TranslationError::TypeMismatch {
                    expected: signature.return_type,
                    received: body.type_id(),
                },
            );
        }
        Ok(Function { signature, body })
    }

    /// Translates a block in a child scope, inside a loop if `is_loop`; the scope is back as it
    /// was afterwards, but for the ids taken.
    fn translate_block(&mut self, block: &AstBlock, is_loop: bool) -> (r: Result<Block, TranslationError>)
        requires
            old(self).scope.wf(),
            block_supported(*block, old(self).module@),
            old(self).scope.spec_next_id() + block_lets(*block) < u32::MAX,
        ensures
            final(self).scope.wf(),
            final(self).scope.spec_frames() == old(self).scope.spec_frames(),
            old(self).scope.spec_next_id() <= final(self).scope.spec_next_id() <= old(self).scope.spec_next_id()
                + block_lets(*block),
            final(self).parent == old(self).parent,
            final(self).module == old(self).module,
            (block_result_view(r), final(self).scope.spec_next_id() as nat) == tr_block(
                *block,
                old(self).scope.spec_frames(),
                is_loop,
                old(self).scope.spec_next_id() as nat,
                old(self).parent.spec_env(),
                old(self).module@,
            ),
        decreases block, 1nat,
    {
        let ghost p = self.parent.spec_env();
        let ghost m = self.module@;
        let ghost outer = self.scope.spec_frames();
        let mut current = Scope::new();
        std::mem::swap(&mut current, &mut self.scope);
        self.scope = if is_loop {
            current.child_loop()
        } else {
            current.child()
        };
        let ghost inner = self.scope.spec_frames();
        proof {
            assert(inner == child_frames(outer, is_loop));
        }
        let mut statements: Vec<Statement> = Vec::new();
        let mut i: usize = 0;
        let ghost start_id = self.scope.spec_next_id();
        let ghost all = block.statements@;
        proof {
            assert(all.subrange(0, all.len() as int) =~= all);
            lemma_after_empty(tr_stmts(all, inner, start_id as nat, p, m).0);
        }
        while i < block.statements.len()
            invariant
                i <= block.statements@.len(),
                all == block.statements@,
                statements@.len() == i,
                self.scope.wf(),
                self.scope.spec_frames().len() == inner.len(),
                self.scope.spec_frames().drop_last() == outer,
                inner.len() == outer.len() + 1,
                block_supported(*block, self.module@),
                start_id <= self.scope.spec_next_id() <= start_id + stmts_lets(block.statements@.take(i as int)),
                start_id + block_lets(*block) < u32::MAX,
                start_id == old(self).scope.spec_next_id(),
                outer == old(self).scope.spec_frames(),
                outer.len() > 0,
                self.parent == old(self).parent,
                self.module == old(self).module,
                p == old(self).parent.spec_env(),
                m == old(self).module@,
                inner == child_frames(outer, is_loop),
                tr_stmts(all, inner, start_id as nat, p, m) == continue_stmts(
                    stmts_view(statements@),
                    tr_stmts(
                        all.subrange(i as int, all.len() as int),
                        self.scope.spec_frames(),
                        self.scope.spec_next_id() as nat,
                        p,
                        m,
                    ),
                ),
            decreases block.statements@.len() - i,
        {
            proof {
                lemma_stmts_lets_prefix(block.statements@, i as int + 1);
                assert(block.statements@.take(i + 1).drop_last() =~= block.statements@.take(i as int));
                assert(block.statements@.take(i + 1).last() == block.statements@[i as int]);
            }
            let ghost frames_before = self.scope.spec_frames();
            let ghost next_before = self.scope.spec_next_id() as nat;
            let ghost rest = all.subrange(i as int, all.len() as int);
            proof {
                assert(rest[0] == all[i as int]);
                assert(rest.subrange(1, rest.len() as int) =~= all.subrange(i + 1, all.len() as int));
            }
            match self.translate_stmt(&block.statements[i]) {
                Ok(stmt) => {
                    let ghost done = statements@;
                    statements.push(stmt);
                    proof {
                        assert(statements@.subrange(0, done.len() as int) =~= done);
                        assert(stmts_view(statements@) == stmts_view(done).push(stmt_view(stmt)));
                        lemma_after_assoc(
                            stmts_view(done),
                            stmt_view(stmt),
                            tr_stmts(
                                all.subrange(i + 1, all.len() as int),
                                self.scope.spec_frames(),
                                self.scope.spec_next_id() as nat,
                                p,
                                m,
                            ).0,
                        );
                    }
                },
                Err(e) => {
                    proof {
                        assert(tr_stmt(all[i as int], frames_before, next_before, p, m).0 == Err::<
                            StmtView,
                            ErrorView,
                        >(error_view(e)));
                        assert(tr_stmts(rest, frames_before, next_before, p, m).0 == Err::<
                            Seq<StmtView>,
                            ErrorView,
                        >(error_view(e)));
                        assert(tr_stmts(rest, frames_before, next_before, p, m).2
                            == self.scope.spec_next_id() as nat);
                        assert(tr_stmts(all, inner, start_id as nat, p, m).0 == Err::<
                            Seq<StmtView>,
                            ErrorView,
                        >(error_view(e)));
                        assert(tr_stmts(all, inner, start_id as nat, p, m).2
                            == self.scope.spec_next_id() as nat);
                    }
                    self.leave_child();
                    return Err(e);
                },
            }
            i = i + 1;
        }
        proof {
            assert(block.statements@.take(i as int) =~= block.statements@);
            assert(all.subrange(i as int, all.len() as int) =~= Seq::<AstStatement>::empty());
            assert(stmts_view(statements@) + Seq::<StmtView>::empty() =~= stmts_view(statements@));
        }
        let tail = match &block.expression {
            Some(expr) => match self.translate_expr(expr) {
                Ok(e) => Ok(Some(Box::new(e))),
                Err(e) => Err(e),
            },
            None => Ok(None),
        };
        self.leave_child();
        match tail {
            Ok(tail) => Ok(Block(statements, tail)),
            Err(e) => Err(e),
        }
    }

    /// Goes back to the parent scope.
    fn leave_child(&mut self)
        requires
            old(self).scope.wf(),
            old(self).scope.spec_frames().len() > 1,
        ensures
            final(self).scope.wf(),
            final(self).scope.spec_frames() == old(self).scope.spec_frames().drop_last(),
            final(self).scope.spec_next_id() == old(self).scope.spec_next_id(),
            final(self).parent == old(self).parent,
            final(self).module == old(self).module,
    {
        let mut current = Scope::new();
        std::mem::swap(&mut current, &mut self.scope);
        match current.parent() {
            Some(p) => {
                self.scope = p;
            },
            None => {},
        }
    }

    /// Translates a statement.
    fn translate_stmt(&mut self, stmt: &AstStatement) -> (r: Result<Statement, TranslationError>)
        requires
            old(self).scope.wf(),
            stmt_supported(*stmt, old(self).module@),
            old(self).scope.spec_next_id() + stmt_lets(*stmt) < u32::MAX,
        ensures
            final(self).scope.wf(),
            final(self).scope.spec_frames().len() == old(self).scope.spec_frames().len(),
            final(self).scope.spec_frames().drop_last() == old(self).scope.spec_frames().drop_last(),
            old(self).scope.spec_next_id() <= final(self).scope.spec_next_id() <= old(self).scope.spec_next_id()
                + stmt_lets(*stmt),
            final(self).parent == old(self).parent,
            final(self).module == old(self).module,
            (stmt_result_view(r), final(self).scope.spec_frames(), final(self).scope.spec_next_id() as nat)
                == tr_stmt(
                *stmt,
                old(self).scope.spec_frames(),
                old(self).scope.spec_next_id() as nat,
                old(self).parent.spec_env(),
                old(self).module@,
            ),
        decreases stmt, 1nat,
    {
        match stmt {
            AstStatement::ExprStmt(expr) => match self.translate_expr(expr) {
                Ok(e) => Ok(Statement::ExprStmt(e)),
                Err(e) => Err(e),
            },
            AstStatement::LetStmt(_) => self.translate_let(stmt),
            AstStatement::Assignment { assignee, operator: _, expression } => {
                let var = match self.scope.lookup(assignee) {
                    Some((var, _)) => var,
                    None => {
                        return Err(TranslationError::VariableNotDeclared(assignee.duplicate()));
                    },
                };
                match self.translate_expr(expression) {
                    Ok(value) => Ok(Statement::Assignment { assignee: var, value }),
                    Err(e) => Err(e),
                }
            },
            AstStatement::Return(expr) => match self.translate_expr(expr) {
                Ok(e) => Ok(Statement::Return(e)),
                Err(e) => Err(e),
            },
            AstStatement::Break => {
                if self.scope.is_loop() {
                    Ok(Statement::Break)
                } else {
                    Err(TranslationError::InvalidBreak)
                }
            },
        }
    }

    /// Translates `let`: the type must be written and known; a value that cannot be translated is
    /// dropped; the variable is bound once its value is translated.
    fn translate_let(&mut self, stmt: &AstStatement) -> (r: Result<Statement, TranslationError>)
        requires
            old(self).scope.wf(),
            stmt_supported(*stmt, old(self).module@),
            old(self).scope.spec_next_id() + stmt_lets(*stmt) < u32::MAX,
            stmt is LetStmt,
        ensures
            final(self).scope.wf(),
            final(self).scope.spec_frames().len() == old(self).scope.spec_frames().len(),
            final(self).scope.spec_frames().drop_last() == old(self).scope.spec_frames().drop_last(),
            old(self).scope.spec_next_id() <= final(self).scope.spec_next_id() <= old(self).scope.spec_next_id()
                + stmt_lets(*stmt),
            final(self).parent == old(self).parent,
            final(self).module == old(self).module,
            (stmt_result_view(r), final(self).scope.spec_frames(), final(self).scope.spec_next_id() as nat)
                == tr_let(
                *stmt,
                old(self).scope.spec_frames(),
                old(self).scope.spec_next_id() as nat,
                old(self).parent.spec_env(),
                old(self).module@,
            ),
        decreases stmt, 0nat,
    {
        let l = match stmt {
            AstStatement::LetStmt(l) => l,
            _ => {
                proof {
                    assert(false);
                }
                return Err(TranslationError::TypeInference);
            },
        };
        let type_ = match &l.type_ {
            Some(t) => t,
            None => {
                return Err(TranslationError::TypeInference);
            },
        };
        let type_ = match self.parent.type_table().get(type_) {
            Ok(t) => t,
            Err(e) => {
                return Err(TranslationError::TypeError(e));
            },
        };
        let value = match &l.value {
            Some(v) => match self.translate_expr(v) {
                Ok(e) => Some(Box::new(e)),
                Err(_) => None,
            },
            None => None,
        };
        let var = self.scope.insert(l.name.duplicate(), type_);
        Ok(Statement::LetStmt { var, type_, value })
    }

    /// Translates an expression and gives it its type.
    ///
    /// Conditions of `if` and `while` must be of type `bool`. A `while` loop becomes a loop whose
    /// body starts by leaving it when the condition does not hold, so that it runs while it does. A call to a function that is not
    /// known, or not translated yet, is an error.
    fn translate_expr(&mut self, expr: &AstExpression) -> (r: Result<Expression, TranslationError>)
        requires
            old(self).scope.wf(),
            expr_supported(*expr, old(self).module@),
            old(self).scope.spec_next_id() + expr_lets(*expr) < u32::MAX,
        ensures
            final(self).scope.wf(),
            final(self).scope.spec_frames() == old(self).scope.spec_frames(),
            old(self).scope.spec_next_id() <= final(self).scope.spec_next_id() <= old(self).scope.spec_next_id()
                + expr_lets(*expr),
            final(self).parent == old(self).parent,
            final(self).module == old(self).module,
            (expr_result_view(r), final(self).scope.spec_next_id() as nat) == tr_expr(
                *expr,
                old(self).scope.spec_frames(),
                old(self).scope.spec_next_id() as nat,
                old(self).parent.spec_env(),
                old(self).module@,
            ),
        decreases expr, 1nat,
    {
        match expr {
            AstExpression::Block(block) => match self.translate_block(block, false) {
                Ok(block) => Ok(Expression { type_: block.type_id(), kind: ExpressionKind::Block(block) }),
                Err(e) => Err(e),
            },
            AstExpression::If { .. } => self.translate_if(expr),
            AstExpression::While { .. } => self.translate_while(expr),
            AstExpression::FnCall { .. } => self.translate_call(expr),
            AstExpression::Var(var) => match self.scope.lookup(var) {
                Some((var, type_)) => Ok(
                    Expression { type_: Some(type_), kind: ExpressionKind::Var(var) },
                ),
                None => Err(TranslationError::VariableNotDeclared(var.duplicate())),
            },
            AstExpression::Literal(lit) => {
                let type_ = match lit {
                    Literal::Number(n) => match &n.fraction {
                        None => TypeId::Primitive(PrimitiveType::I32),
                        Some(_) => TypeId::Primitive(PrimitiveType::F32),
                    },
                    Literal::String(_) => {
                        // string literals are excluded by `expr_supported`
                        proof {
                            assert(false);
                        }
                        TypeId::Primitive(PrimitiveType::Bool)
                    },
                    Literal::Boolean(_) => TypeId::Primitive(PrimitiveType::Bool),
                };
                Ok(Expression { type_: Some(type_), kind: ExpressionKind::Literal(lit.duplicate()) })
            },
            AstExpression::For { .. } | AstExpression::Unary { .. } | AstExpression::Binary { .. } => {
                // `for` loops, unary and binary operations are excluded by `expr_supported`
                proof {
                    assert(false);
                }
                Err(TranslationError::TypeInference)
            },
        }
    }

    /// Translates `if`: the condition must be of type `bool`; the type is that of the body.
    fn translate_if(&mut self, expr: &AstExpression) -> (r: Result<Expression, TranslationError>)
        requires
            old(self).scope.wf(),
            expr_supported(*expr, old(self).module@),
            old(self).scope.spec_next_id() + expr_lets(*expr) < u32::MAX,
            expr is If,
        ensures
            final(self).scope.wf(),
            final(self).scope.spec_frames() == old(self).scope.spec_frames(),
            old(self).scope.spec_next_id() <= final(self).scope.spec_next_id() <= old(self).scope.spec_next_id()
                + expr_lets(*expr),
            final(self).parent == old(self).parent,
            final(self).module == old(self).module,
            (expr_result_view(r), final(self).scope.spec_next_id() as nat) == tr_if(
                *expr,
                old(self).scope.spec_frames(),
                old(self).scope.spec_next_id() as nat,
                old(self).parent.spec_env(),
                old(self).module@,
            ),
        decreases expr, 0nat,
    {
        let (condition, body, else_body) = match expr {
            AstExpression::If { condition, body, else_body } => (condition, body, else_body),
            _ => {
                proof {
                    assert(false);
                }
                return Err(TranslationError::TypeInference);
            },
        };
        let condition = match self.translate_expr(condition) {
            Ok(c) => c,
            Err(e) => {
                return Err(e);
            },
        };
        if condition.type_ != Some(TypeId::Primitive(PrimitiveType::Bool)) {
            return Err(
                TranslationError::TypeMismatch {
                    expected: Some(TypeId::Primitive(PrimitiveType::Bool)),
                    received: condition.type_,
                },
            );
        }
        let body = match self.translate_block(body, false) {
            Ok(b) => b,
            Err(e) => {
                return Err(e);
            },
        };
        let else_body = match else_body {
            Some(b) => match self.translate_block(b, false) {
                Ok(b) => Some(b),
                Err(e) => {
                    return Err(e);
                },
            },
            None => None,
        };
        Ok(
            Expression {
                type_: body.type_id(),
                kind: ExpressionKind::If { condition: Box::new(condition), body, else_body },
            },
        )
    }

    /// Translates `while` into a loop whose body starts by leaving it when the condition does not
    /// hold; the condition must be of type `bool`.
    fn translate_while(&mut self, expr: &AstExpression) -> (r: Result<Expression, TranslationError>)
        requires
            old(self).scope.wf(),
            expr_supported(*expr, old(self).module@),
            old(self).scope.spec_next_id() + expr_lets(*expr) < u32::MAX,
            expr is While,
        ensures
            final(self).scope.wf(),
            final(self).scope.spec_frames() == old(self).scope.spec_frames(),
            old(self).scope.spec_next_id() <= final(self).scope.spec_next_id() <= old(self).scope.spec_next_id()
                + expr_lets(*expr),
            final(self).parent == old(self).parent,
            final(self).module == old(self).module,
            (expr_result_view(r), final(self).scope.spec_next_id() as nat) == tr_while(
                *expr,
                old(self).scope.spec_frames(),
                old(self).scope.spec_next_id() as nat,
                old(self).parent.spec_env(),
                old(self).module@,
            ),
        decreases expr, 0nat,
    {
        let (condition, body) = match expr {
            AstExpression::While { condition, body } => (condition, body),
            _ => {
                proof {
                    assert(false);
                }
                return Err(TranslationError::TypeInference);
            },
        };
        let condition = match self.translate_expr(condition) {
            Ok(c) => c,
            Err(e) => {
                return Err(e);
            },
        };
        if condition.type_ != Some(TypeId::Primitive(PrimitiveType::Bool)) {
            return Err(
                TranslationError::TypeMismatch {
                    expected: Some(TypeId::Primitive(PrimitiveType::Bool)),
                    received: condition.type_,
                },
            );
        }
        let mut body = match self.translate_block(body, true) {
            Ok(b) => b,
            Err(e) => {
                return Err(e);
            },
        };
        let ghost condition_view = expr_view(condition);
        let leave = Block(vec![Statement::Break], None);
        let stay = Block(Vec::new(), None);
        proof {
            assert(stmts_view(stay.0@) =~= Seq::<StmtView>::empty());
            assert(leave.0@ =~= seq![Statement::Break]);
            assert(leave.0@.len() == 1 && leave.0@[0] == Statement::Break);
            assert(leave.0@.subrange(0, 0) =~= Seq::<Statement>::empty());
            assert(stmts_view(Seq::<Statement>::empty()) =~= Seq::<StmtView>::empty());
            assert(stmts_view(leave.0@) == stmts_view(leave.0@.subrange(0, 0)).push(
                stmt_view(leave.0@[0]),
            ));
            assert(stmts_view(leave.0@) =~= seq![StmtView::Break]);
        }
        let exit = Statement::ExprStmt(
            Expression {
                type_: None,
                kind: ExpressionKind::If {
                    condition: Box::new(condition),
                    body: stay,
                    else_body: Some(leave),
                },
            },
        );
        let ghost rest = body.0@;
        proof {
            lemma_stmts_view_prepend(exit, rest);
            assert(stmt_view(exit) == loop_exit(condition_view));
        }
        let ghost before = body;
        body.0.insert(0, exit);
        proof {
            assert(body.0@ =~= seq![exit] + rest);
            assert(body.1 == before.1);
            assert(block_view(body) == BlockView {
                statements: seq![loop_exit(condition_view)] + block_view(before).statements,
                expression: block_view(before).expression,
            });
        }
        Ok(Expression { type_: None, kind: ExpressionKind::Loop(body) })
    }

    /// Translates a call: the arguments in order, then the function the path names, which must be
    /// known and translated already.
    fn translate_call(&mut self, expr: &AstExpression) -> (r: Result<Expression, TranslationError>)
        requires
            old(self).scope.wf(),
            expr_supported(*expr, old(self).module@),
            old(self).scope.spec_next_id() + expr_lets(*expr) < u32::MAX,
            expr is FnCall,
        ensures
            final(self).scope.wf(),
            final(self).scope.spec_frames() == old(self).scope.spec_frames(),
            old(self).scope.spec_next_id() <= final(self).scope.spec_next_id() <= old(self).scope.spec_next_id()
                + expr_lets(*expr),
            final(self).parent == old(self).parent,
            final(self).module == old(self).module,
            (expr_result_view(r), final(self).scope.spec_next_id() as nat) == tr_call(
                *expr,
                old(self).scope.spec_frames(),
                old(self).scope.spec_next_id() as nat,
                old(self).parent.spec_env(),
                old(self).module@,
            ),
        decreases expr, 0nat,
    {
        let (path, ast_params) = match expr {
            AstExpression::FnCall { path, params } => (path, params),
            _ => {
                proof {
                    assert(false);
                }
                return Err(TranslationError::TypeInference);
            },
        };
        let ghost p = self.parent.spec_env();
        let ghost m = self.module@;
        let ghost frames = self.scope.spec_frames();
        let mut params: Vec<Expression> = Vec::new();
        let ghost all = ast_params@;
        let ghost start = self.scope.spec_next_id() as nat;
        proof {
            assert(all.subrange(0, all.len() as int) =~= all);
            lemma_after_empty(tr_exprs(all, frames, start, p, m).0);
        }
        let mut i: usize = 0;
        while i < ast_params.len()
            invariant
                i <= ast_params@.len(),
                all == ast_params@,
                params@.len() == i,
                self.scope.wf(),
                self.scope.spec_frames() == old(self).scope.spec_frames(),
                frames == old(self).scope.spec_frames(),
                old(self).scope.spec_next_id() <= self.scope.spec_next_id() <= old(self).scope.spec_next_id()
                    + exprs_lets(ast_params@.take(i as int)),
                old(self).scope.spec_next_id() + exprs_lets(ast_params@) < u32::MAX,
                *expr == (AstExpression::FnCall { path: *path, params: *ast_params }),
                forall|j: int| 0 <= j < ast_params@.len() ==> expr_supported(#[trigger] ast_params@[j], self.module@),
                self.parent == old(self).parent,
                self.module == old(self).module,
                p == old(self).parent.spec_env(),
                m == old(self).module@,
                start == old(self).scope.spec_next_id() as nat,
                tr_exprs(all, frames, start, p, m) == continue_exprs(
                    exprs_view(params@),
                    tr_exprs(
                        all.subrange(i as int, all.len() as int),
                        frames,
                        self.scope.spec_next_id() as nat,
                        p,
                        m,
                    ),
                ),
            decreases ast_params@.len() - i,
        {
            proof {
                lemma_exprs_lets_prefix(ast_params@, i as int + 1);
                assert(ast_params@.take(i + 1).drop_last() =~= ast_params@.take(i as int));
                assert(ast_params@.take(i + 1).last() == ast_params@[i as int]);
                vstd::std_specs::vec::axiom_vec_index_decreases(*ast_params, i as int);
                assert(decreases_to!(*expr => (*expr)->params));
                assert(decreases_to!(*expr => ast_params@[i as int]));
            }
            let ghost rest = all.subrange(i as int, all.len() as int);
            proof {
                assert(rest[0] == all[i as int]);
                assert(rest.subrange(1, rest.len() as int) =~= all.subrange(i + 1, all.len() as int));
            }
            let ghost nb = self.scope.spec_next_id() as nat;
            let e = match self.translate_expr(&ast_params[i]) {
                Ok(e) => e,
                Err(x) => {
                    proof {
                        assert(tr_expr(all[i as int], frames, nb, p, m).0 == Err::<ExprView, ErrorView>(
                            error_view(x),
                        ));
                        assert(tr_exprs(rest, frames, nb, p, m) == (
                            Err::<Seq<ExprView>, ErrorView>(error_view(x)),
                            self.scope.spec_next_id() as nat,
                        ));
                        assert(tr_exprs(all, frames, start, p, m) == (
                            Err::<Seq<ExprView>, ErrorView>(error_view(x)),
                            self.scope.spec_next_id() as nat,
                        ));
                    }
                    return Err(x);
                },
            };
            let ghost done = params@;
            params.push(e);
            proof {
                assert(params@.subrange(0, done.len() as int) =~= done);
                assert(exprs_view(params@) == exprs_view(done).push(expr_view(e)));
                lemma_after_assoc(
                    exprs_view(done),
                    expr_view(e),
                    tr_exprs(
                        all.subrange(i + 1, all.len() as int),
                        frames,
                        self.scope.spec_next_id() as nat,
                        p,
                        m,
                    ).0,
                );
            }
            i = i + 1;
        }
        proof {
            assert(ast_params@.take(i as int) =~= ast_params@);
            assert(all.subrange(i as int, all.len() as int) =~= Seq::<AstExpression>::empty());
            assert(exprs_view(params@) + Seq::<ExprView>::empty() =~= exprs_view(params@));
        }
        let absolute = match path.to_absolute(&self.module) {
            Some(p) => p,
            None => {
                // a path that leaves the crate is excluded by `expr_supported`
                proof {
                    assert(false);
                }
                return Err(TranslationError::FunctionNotFound(AbsolutePath(Vec::new())));
            },
        };
        let id = match self.parent.lookup_function(&absolute) {
            Some(id) => id,
            None => {
                return Err(TranslationError::FunctionNotFound(absolute));
            },
        };
        let type_ = match self.parent.function(id) {
            Some(f) => f.signature.return_type,
            None => {
                return Err(TranslationError::FunctionNotFound(absolute));
            },
        };
        Ok(Expression { type_, kind: ExpressionKind::FnCall(id, params) })
    }
}

/// Translation types what it produces: a block has the type of its final expression; an `if`
/// has a condition of type `bool` and the type of its body; a loop has no value and starts by
/// leaving when a condition of type `bool` holds.
pub proof fn law_translation_types(
    e: AstExpression,
    frames: Seq<FrameView>,
    next: nat,
    p: Env,
    module: Seq<Seq<char>>,
)
    ensures
        tr_expr(e, frames, next, p, module).0 matches Ok(v) ==> match v.kind {
            KindView::Block(b) => v.type_ == b.type_id(),
            KindView::If { condition, body, .. } => condition.type_ == bool_type() && v.type_
                == body.type_id(),
            KindView::Loop(b) => v.type_ is None && b.statements.len() > 0 && exists|c: ExprView|
                c.type_ == bool_type() && b.statements[0] == #[trigger] loop_exit(c),
            _ => true,
        },
{
    match e {
        AstExpression::While { condition, body } => {
            let (rc, n1) = tr_expr(*condition, frames, next, p, module);
            if let Ok(c) = rc {
                if c.type_ == bool_type() {
                    let (rb, n2) = tr_block(body, frames, true, n1, p, module);
                    if let Ok(bv) = rb {
                        let stmts = seq![loop_exit(c)] + bv.statements;
                        assert(stmts[0] == loop_exit(c));
                    }
                }
            }
        },
        _ => {},
    }
}

/// A literal translates to itself with its type: a number with a fraction part is an `f32`, one
/// without an `i32`, `true` and `false` are `bool`; no variable id is taken.
pub proof fn law_literal_types(l: Literal, frames: Seq<FrameView>, next: nat, p: Env, module: Seq<Seq<char>>)
    ensures
        tr_expr(AstExpression::Literal(l), frames, next, p, module).1 == next,
        tr_expr(AstExpression::Literal(l), frames, next, p, module).0 matches Ok(v) && v.kind == KindView::Literal(
            l@,
        ),
        (l matches Literal::Number(n) && n.fraction is Some) ==> tr_expr(
            AstExpression::Literal(l),
            frames,
            next,
            p,
            module,
        ).0->Ok_0.type_ == Some(TypeId::Primitive(PrimitiveType::F32)),
        (l matches Literal::Number(n) && n.fraction is None) ==> tr_expr(
            AstExpression::Literal(l),
            frames,
            next,
            p,
            module,
        ).0->Ok_0.type_ == Some(TypeId::Primitive(PrimitiveType::I32)),
        l is Boolean ==> tr_expr(AstExpression::Literal(l), frames, next, p, module).0->Ok_0.type_ == Some(
            TypeId::Primitive(PrimitiveType::Bool),
        ),
{
}

/// A variable translates to the id and type it was bound to: right after binding `x` with id `v`
/// and type `t` in the innermost scope, `x` translates to `v` of type `t`; a name bound nowhere
/// is reported as not declared.
pub proof fn law_variable_translation(
    x: Identifier,
    v: VarId,
    t: TypeId,
    frames: Seq<FrameView>,
    next: nat,
    p: Env,
    module: Seq<Seq<char>>,
)
    requires
        frames.len() > 0,
    ensures
        ({
            let g = frames.update(frames.len() - 1, (frames.last().0.push((x@, (v, t))), frames.last().1));
            tr_expr(AstExpression::Var(x), g, next, p, module) == (
                Ok::<ExprView, ErrorView>(ExprView { type_: Some(t), kind: KindView::Var(v) }),
                next,
            )
        }),
        lookup_frames(frames, x@) is None ==> tr_expr(AstExpression::Var(x), frames, next, p, module) == (
            Err::<ExprView, ErrorView>(ErrorView::VariableNotDeclared(x@)),
            next,
        ),
{
    crate::hir::scope::law_insert_then_lookup(frames, x@, (v, t));
}

/// A call with no arguments resolves its path from the module it is written in: `f()` names the
/// function `f` of that module and `crate::g::f()` the function `g::f` under the crate root,
/// whatever module it is written in; the call has the type the function returns.
pub proof fn law_call_resolution(
    path: RelativePath,
    params: Vec<AstExpression>,
    frames: Seq<FrameView>,
    next: nat,
    p: Env,
    module: Seq<Seq<char>>,
    id: crate::hir::FunctionId,
)
    requires
        params@.len() == 0,
    ensures
        ({
            let r = tr_expr(AstExpression::FnCall { path, params }, frames, next, p, module);
            &&& r.1 == next
            &&& (path.start matches RelativePathStart::Identifier(f) && path.other@.len() == 0 && lookup_id(
                p.mapping,
                module.push(f@),
            ) == Some(id) && id.0 < p.returns.len()) ==> r.0 == Ok::<ExprView, ErrorView>(
                ExprView { type_: p.returns[id.0 as int], kind: KindView::FnCall(id, Seq::empty()) },
            )
            &&& (path.start is Crate && module.len() > 0 && lookup_id(p.mapping, seq![module[0]] + names(path.other@))
                == Some(id) && id.0 < p.returns.len()) ==> r.0 == Ok::<ExprView, ErrorView>(
                ExprView { type_: p.returns[id.0 as int], kind: KindView::FnCall(id, Seq::empty()) },
            )
        }),
{
    let (ra, n1) = tr_exprs(params@, frames, next, p, module);
    assert(ra == Ok::<Seq<ExprView>, ErrorView>(Seq::empty()));
    if let RelativePathStart::Identifier(f) = path.start {
        if path.other@.len() == 0 {
            assert(names(path.other@) =~= Seq::<Seq<char>>::empty());
            assert(module.push(f@) + names(path.other@) =~= module.push(f@));
        }
    }
}

/// A translated function's body has the type the function returns, and its parameters the types
/// written for them; the parameters get the ids from 0 on, in order, whatever was translated
/// before, since every function starts from a new scope.
pub proof fn law_function_types(f: AstFunction, p: Env, module: Seq<Seq<char>>)
    ensures
        tr_function(f, p, module) matches Ok(fv) ==> {
            &&& fv.body.type_id() == fv.return_type
            &&& fv.params.len() == f.params@.len()
            &&& forall|i: int| 0 <= i < fv.params.len() ==> (#[trigger] fv.params[i]).0 == VarId(i as u32)
            &&& forall|i: int|
                0 <= i < fv.params.len() ==> Some(#[trigger] fv.params[i].1) == type_of(p.types, 
                    f.params@[i].type_@,
                )
            &&& fv.return_type == match f.return_type {
                Some(t) => type_of(p.types, t@),
                None => None,
            }
        },
{
    lemma_param_types(f.params@, p);
}

/// The types [param_types] gives are those the table has for each parameter.
pub proof fn lemma_param_types(ps: Seq<Parameter>, p: Env)
    ensures
        param_types(ps, p) matches Ok(tys) ==> tys.len() == ps.len() && forall|i: int|
            0 <= i < ps.len() ==> Some(#[trigger] tys[i]) == type_of(p.types, ps[i].type_@),
    decreases ps.len(),
{
    if ps.len() > 0 {
        let rest = ps.subrange(1, ps.len() as int);
        lemma_param_types(rest, p);
        if let Some(t) = type_of(p.types, ps[0].type_@) {
            if let Ok(tys) = param_types(rest, p) {
                let all = seq![t] + tys;
                assert forall|i: int| 0 <= i < ps.len() implies Some(#[trigger] all[i])
                    == type_of(p.types, ps[i].type_@) by {
                    if i > 0 {
                        assert(all[i] == tys[i - 1]);
                        assert(rest[i - 1] == ps[i]);
                    }
                }
            }
        }
    }
}

/// What is left to translate, after the expressions `done`.
pub open spec fn continue_exprs(done: Seq<ExprView>, rest: (Result<Seq<ExprView>, ErrorView>, nat)) -> (
    Result<Seq<ExprView>, ErrorView>,
    nat,
) {
    (after(done, rest.0), rest.1)
}

/// What is left to translate, after the statements `done`.
pub open spec fn continue_stmts(
    done: Seq<StmtView>,
    rest: (Result<Seq<StmtView>, ErrorView>, Seq<FrameView>, nat),
) -> (Result<Seq<StmtView>, ErrorView>, Seq<FrameView>, nat) {
    (after(done, rest.0), rest.1, rest.2)
}

/// Nothing done before leaves what is left as it is.
pub proof fn lemma_after_empty<V>(r: Result<Seq<V>, ErrorView>)
    ensures
        after(Seq::<V>::empty(), r) == r,
{
    match r {
        Ok(vs) => {
            assert(Seq::<V>::empty() + vs =~= vs);
        },
        Err(_) => {},
    }
}

/// One more item done is that item in front of what is left.
pub proof fn lemma_after_assoc<V>(done: Seq<V>, v: V, r: Result<Seq<V>, ErrorView>)
    ensures
        after(done, after(seq![v], r)) == after(done.push(v), r),
{
    match r {
        Ok(vs) => {
            assert(done + (seq![v] + vs) =~= done.push(v) + vs);
        },
        Err(_) => {},
    }
}

/// A beginning of the statements binds no more variables than all of them.
pub proof fn lemma_stmts_lets_prefix(s: Seq<AstStatement>, k: int)
    requires
        0 <= k <= s.len(),
    ensures
        stmts_lets(s.take(k)) <= stmts_lets(s),
    decreases s.len() - k,
{
    if k < s.len() {
        lemma_stmts_lets_prefix(s, k + 1);
        assert(s.take(k + 1).drop_last() =~= s.take(k));
    } else {
        assert(s.take(k) =~= s);
    }
}

/// A beginning of the expressions binds no more variables than all of them.
pub proof fn lemma_exprs_lets_prefix(s: Seq<AstExpression>, k: int)
    requires
        0 <= k <= s.len(),
    ensures
        exprs_lets(s.take(k)) <= exprs_lets(s),
    decreases s.len() - k,
{
    if k < s.len() {
        lemma_exprs_lets_prefix(s, k + 1);
        assert(s.take(k + 1).drop_last() =~= s.take(k));
    } else {
        assert(s.take(k) =~= s);
    }
}

} // verus!
