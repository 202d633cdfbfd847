//! Operator expressions in different forms.
//!
//! An infix expression is parsed and validated, then the shunting yard algorithm maps it from
//! infix notation to reverse polish notation with respect to operator precedence. Reverse polish
//! notation is then mapped into an abstract syntax tree.
//!
//! Assignments are parsed and checked by this module. They are passed from infix notation all the
//! way to the tree via the [MaybeAssignment] type.

pub mod infix;
pub mod postfix;

use vstd::prelude::*;

use crate::ast::Identifier;
use crate::ast::expression::Expression;
use crate::lexer::operator::AssignOp;

verus! {

/// A tree of expressions that may be preceded by assignment.
pub type Tree = MaybeAssignment<Expression>;

/// A generic type that may be either expression or assignment of an expression.
#[derive(Debug, PartialEq, Eq)]
pub enum MaybeAssignment<Expr> {
    Assignment { assignee: Identifier, operator: AssignOp, expression: Expr },
    Expression(Expr),
}

impl<Expr> MaybeAssignment<Expr> {
    /// The expression part of either variant.
    pub open spec fn spec_expr(&self) -> Expr {
        match self {
            MaybeAssignment::Assignment { expression, .. } => *expression,
            MaybeAssignment::Expression(e) => *e,
        }
    }

    /// This value with its expression part replaced by `e`: the variant, assignee and operator
    /// are kept.
    pub open spec fn with_expr<N>(&self, e: N) -> MaybeAssignment<N> {
        match self {
            MaybeAssignment::Assignment { assignee, operator, .. } => MaybeAssignment::Assignment {
                assignee: *assignee,
                operator: *operator,
                expression: e,
            },
            MaybeAssignment::Expression(_) => MaybeAssignment::Expression(e),
        }
    }

    /// Replacing the expression part by itself gives the value back, and replacing it twice is
    /// replacing it by the second: so [MaybeAssignment::map_expr] with a closure that gives its
    /// argument back gives the value back, and mapping with `f` and then `g` is mapping once with
    /// `g` applied to what `f` gave.
    pub proof fn law_map_identity_composition<N, M>(&self, a: N, b: M)
        ensures
            self.with_expr(self.spec_expr()) == *self,
            self.with_expr(a).with_expr(b) == self.with_expr(b),
            self.with_expr(a).spec_expr() == a,
    {
    }

    /// `b` has the same variant as `a`, with the same assignee and operator.
    pub open spec fn same_shape<N>(a: &MaybeAssignment<Expr>, b: &MaybeAssignment<N>) -> bool {
        match (a, b) {
            (
                MaybeAssignment::Assignment { assignee: x, operator: o, .. },
                MaybeAssignment::Assignment { assignee: y, operator: p, .. },
            ) => x == y && o == p,
            (MaybeAssignment::Expression(_), MaybeAssignment::Expression(_)) => true,
            _ => false,
        }
    }

    /// The variant, assignee and operator of a value, with its expression part, determine it; so
    /// what [MaybeAssignment::map_expr] gives is this value with only the expression part
    /// changed, mapping with a closure that gives its argument back gives this value again, and
    /// mapping twice keeps the variant, assignee and operator of the first value.
    pub proof fn law_shape_determines<N, M>(
        &self,
        b: &MaybeAssignment<N>,
        c: &MaybeAssignment<N>,
        d: &MaybeAssignment<M>,
    )
        ensures
            Self::same_shape(self, self),
            Self::same_shape(self, b) && Self::same_shape(self, c) && b.spec_expr() == c.spec_expr() ==> *b == *c,
            Self::same_shape(self, b) && MaybeAssignment::<N>::same_shape(b, d) ==> Self::same_shape(self, d),
    {
    }

    /// Modifies expression part of any variant and produces new value.
    ///
    /// Assignee and operator are unmodified.
    pub fn map_expr<F, N>(self, func: F) -> (r: MaybeAssignment<N>)
        where
            F: FnOnce(Expr) -> N,
        requires
            func.requires((self.spec_expr(),)),
        ensures
            func.ensures((self.spec_expr(),), r.spec_expr()),
            Self::same_shape(&self, &r),
            r == self.with_expr(r.spec_expr()),
    {
        match self {
            MaybeAssignment::Assignment { assignee, operator, expression } => {
                MaybeAssignment::Assignment { assignee, operator, expression: func(expression) }
            },
            MaybeAssignment::Expression(expr) => MaybeAssignment::Expression(func(expr)),
        }
    }
}

} // verus!
