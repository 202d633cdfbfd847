//! Operators: unary, binary and assignment.

use vstd::prelude::*;
use crate::hir::types::{PrimitiveType, TypeId};
use crate::lexer::punctuation::Punctuation;

verus! {

/// An operator with one operand.
#[derive(Debug, Clone, Copy, PartialEq, Eq, Structural)]
pub enum UnaryOp {
    Add,
    Sub,
    Not,
}

/// An operator with two operands.
#[derive(Debug, Clone, Copy, PartialEq, Eq, Structural)]
pub enum BinaryOp {
    Add,
    Sub,
    Mul,
    Div,
    Mod,
    Rsh,
    Lsh,
    BinAnd,
    BinOr,
    BinXor,
    And,
    Or,
    Eq,
    Neq,
    More,
    Less,
    MoreEq,
    LessEq,
}

/// An operator with two operands: assignee and value.
#[derive(Debug, Clone, Copy, PartialEq, Eq, Structural)]
pub enum AssignOp {
    Assign,
    AddAssign,
    SubAssign,
    MulAssign,
    DivAssign,
}

impl UnaryOp {
    /// The punctuation that denotes the operator.
    pub open spec fn spec_punctuation(self) -> Punctuation {
        match self {
            UnaryOp::Add => Punctuation::Plus,
            UnaryOp::Sub => Punctuation::Minus,
            UnaryOp::Not => Punctuation::Bang,
        }
    }

    /// The operator denoted by the punctuation, if any.
    pub fn try_from(p: Punctuation) -> (r: Result<UnaryOp, ()>)
        ensures
            r matches Ok(op) ==> op.spec_punctuation() == p,
            r is Err ==> forall|op: UnaryOp| op.spec_punctuation() != p,
    {
        match p {
            Punctuation::Plus => Ok(UnaryOp::Add),
            Punctuation::Minus => Ok(UnaryOp::Sub),
            Punctuation::Bang => Ok(UnaryOp::Not),
            _ => Err(()),
        }
    }

    /// Text of the operator.
    pub fn to_string(&self) -> (r: String)
        ensures
            r@ == self.spec_punctuation().spec_text(),
    {
        match self {
            UnaryOp::Add => Punctuation::Plus.to_string(),
            UnaryOp::Sub => Punctuation::Minus.to_string(),
            UnaryOp::Not => Punctuation::Bang.to_string(),
        }
    }

    /// Type of the operand.
    pub fn in_type(&self) -> (r: TypeId)
        ensures
            r == (match self {
                UnaryOp::Not => TypeId::Primitive(PrimitiveType::Bool),
                _ => TypeId::Primitive(PrimitiveType::I32),
            }),
    {
        match self {
            UnaryOp::Add => TypeId::i32_type(),
            UnaryOp::Sub => TypeId::i32_type(),
            UnaryOp::Not => TypeId::bool_type(),
        }
    }

    /// Type of the result.
    pub fn out_type(&self) -> (r: TypeId)
        ensures
            r == (match self {
                UnaryOp::Not => TypeId::Primitive(PrimitiveType::Bool),
                _ => TypeId::Primitive(PrimitiveType::I32),
            }),
    {
        match self {
            UnaryOp::Add => TypeId::i32_type(),
            UnaryOp::Sub => TypeId::i32_type(),
            UnaryOp::Not => TypeId::bool_type(),
        }
    }
}

impl BinaryOp {
    /// The punctuation that denotes the operator.
    pub open spec fn spec_punctuation(self) -> Punctuation {
        match self {
            BinaryOp::Add => Punctuation::Plus,
            BinaryOp::Sub => Punctuation::Minus,
            BinaryOp::Mul => Punctuation::Mul,
            BinaryOp::Div => Punctuation::Div,
            BinaryOp::Mod => Punctuation::Rem,
            BinaryOp::Rsh => Punctuation::Rsh,
            BinaryOp::Lsh => Punctuation::Lsh,
            BinaryOp::BinAnd => Punctuation::BinAnd,
            BinaryOp::BinOr => Punctuation::BinOr,
            BinaryOp::BinXor => Punctuation::BinXor,
            BinaryOp::And => Punctuation::And,
            BinaryOp::Or => Punctuation::Or,
            BinaryOp::Eq => Punctuation::Equal,
            BinaryOp::Neq => Punctuation::NotEqual,
            BinaryOp::More => Punctuation::More,
            BinaryOp::Less => Punctuation::Less,
            BinaryOp::MoreEq => Punctuation::MoreEqual,
            BinaryOp::LessEq => Punctuation::LessEqual,
        }
    }

    /// Bit shifts and bitwise operators, whose operand types are not decided yet.
    pub open spec fn is_bitwise(self) -> bool {
        self is Rsh || self is Lsh || self is BinAnd || self is BinOr || self is BinXor
    }

    /// Comparison operators.
    pub open spec fn is_comparison(self) -> bool {
        self is Eq || self is Neq || self is More || self is Less || self is MoreEq || self is LessEq
    }

    /// Logical operators.
    pub open spec fn is_logical(self) -> bool {
        self is And || self is Or
    }

    /// Binding strength of the operator: operators of greater priority bind first.
    pub open spec fn spec_priority(self) -> nat {
        match self {
            BinaryOp::Mul | BinaryOp::Div | BinaryOp::Mod => 128,
            BinaryOp::Add | BinaryOp::Sub => 96,
            BinaryOp::Rsh | BinaryOp::Lsh => 64,
            BinaryOp::BinAnd => 52,
            BinaryOp::BinXor => 51,
            BinaryOp::BinOr => 50,
            BinaryOp::And => 31,
            BinaryOp::Or => 30,
            _ => 16,
        }
    }

    /// The operator denoted by the punctuation, if any.
    pub fn try_from(p: Punctuation) -> (r: Result<BinaryOp, ()>)
        ensures
            r matches Ok(op) ==> op.spec_punctuation() == p,
            r is Err ==> forall|op: BinaryOp| op.spec_punctuation() != p,
    {
        match p {
            Punctuation::Plus => Ok(BinaryOp::Add),
            Punctuation::Minus => Ok(BinaryOp::Sub),
            Punctuation::Mul => Ok(BinaryOp::Mul),
            Punctuation::Div => Ok(BinaryOp::Div),
            Punctuation::Rem => Ok(BinaryOp::Mod),
            Punctuation::Rsh => Ok(BinaryOp::Rsh),
            Punctuation::Lsh => Ok(BinaryOp::Lsh),
            Punctuation::BinAnd => Ok(BinaryOp::BinAnd),
            Punctuation::BinOr => Ok(BinaryOp::BinOr),
            Punctuation::BinXor => Ok(BinaryOp::BinXor),
            Punctuation::And => Ok(BinaryOp::And),
            Punctuation::Or => Ok(BinaryOp::Or),
            Punctuation::Equal => Ok(BinaryOp::Eq),
            Punctuation::NotEqual => Ok(BinaryOp::Neq),
            Punctuation::More => Ok(BinaryOp::More),
            Punctuation::Less => Ok(BinaryOp::Less),
            Punctuation::MoreEqual => Ok(BinaryOp::MoreEq),
            Punctuation::LessEqual => Ok(BinaryOp::LessEq),
            _ => Err(()),
        }
    }

    /// Text of the operator.
    pub fn to_string(&self) -> (r: String)
        ensures
            r@ == self.spec_punctuation().spec_text(),
    {
        let p = match self {
            BinaryOp::Add => Punctuation::Plus,
            BinaryOp::Sub => Punctuation::Minus,
            BinaryOp::Mul => Punctuation::Mul,
            BinaryOp::Div => Punctuation::Div,
            BinaryOp::Mod => Punctuation::Rem,
            BinaryOp::Rsh => Punctuation::Rsh,
            BinaryOp::Lsh => Punctuation::Lsh,
            BinaryOp::BinAnd => Punctuation::BinAnd,
            BinaryOp::BinOr => Punctuation::BinOr,
            BinaryOp::BinXor => Punctuation::BinXor,
            BinaryOp::And => Punctuation::And,
            BinaryOp::Or => Punctuation::Or,
            BinaryOp::Eq => Punctuation::Equal,
            BinaryOp::Neq => Punctuation::NotEqual,
            BinaryOp::More => Punctuation::More,
            BinaryOp::Less => Punctuation::Less,
            BinaryOp::MoreEq => Punctuation::MoreEqual,
            BinaryOp::LessEq => Punctuation::LessEqual,
        };
        p.to_string()
    }

    /// Type of both operands. Bitwise operators have no operand type yet.
    pub fn in_type(&self) -> (r: TypeId)
        requires
            !self.is_bitwise(),
        ensures
            r == (if self.is_logical() {
                TypeId::Primitive(PrimitiveType::Bool)
            } else {
                TypeId::Primitive(PrimitiveType::I32)
            }),
    {
        match self {
            BinaryOp::And => TypeId::bool_type(),
            BinaryOp::Or => TypeId::bool_type(),
            _ => TypeId::i32_type(),
        }
    }

    /// Type of the result. Bitwise operators have no result type yet.
    pub fn out_type(&self) -> (r: TypeId)
        requires
            !self.is_bitwise(),
        ensures
            r == (if self.is_logical() || self.is_comparison() {
                TypeId::Primitive(PrimitiveType::Bool)
            } else {
                TypeId::Primitive(PrimitiveType::I32)
            }),
    {
        match self {
            BinaryOp::Add | BinaryOp::Sub | BinaryOp::Mul | BinaryOp::Div | BinaryOp::Mod => {
                TypeId::i32_type()
            },
            _ => TypeId::bool_type(),
        }
    }

    /// Binding strength of the operator.
    pub fn priority(&self) -> (r: usize)
        ensures
            r == self.spec_priority(),
    {
        match self {
            BinaryOp::Mul | BinaryOp::Div | BinaryOp::Mod => 128,
            BinaryOp::Add | BinaryOp::Sub => 96,
            BinaryOp::Rsh | BinaryOp::Lsh => 64,
            BinaryOp::BinAnd => 52,
            BinaryOp::BinXor => 51,
            BinaryOp::BinOr => 50,
            BinaryOp::And => 31,
            BinaryOp::Or => 30,
            BinaryOp::Eq | BinaryOp::Neq | BinaryOp::More | BinaryOp::Less | BinaryOp::MoreEq
            | BinaryOp::LessEq => 16,
        }
    }
}

impl AssignOp {
    /// The punctuation that denotes the operator.
    pub open spec fn spec_punctuation(self) -> Punctuation {
        match self {
            AssignOp::Assign => Punctuation::Assign,
            AssignOp::AddAssign => Punctuation::AssignPlus,
            AssignOp::SubAssign => Punctuation::AssignMinus,
            AssignOp::MulAssign => Punctuation::AssignMul,
            AssignOp::DivAssign => Punctuation::AssignDiv,
        }
    }

    /// The binary operator that a compound assignment applies.
    pub open spec fn spec_binary_op(self) -> Option<BinaryOp> {
        match self {
            AssignOp::Assign => None,
            AssignOp::AddAssign => Some(BinaryOp::Add),
            AssignOp::SubAssign => Some(BinaryOp::Sub),
            AssignOp::MulAssign => Some(BinaryOp::Mul),
            AssignOp::DivAssign => Some(BinaryOp::Div),
        }
    }

    /// The operator denoted by the punctuation, if any.
    pub fn try_from(p: Punctuation) -> (r: Result<AssignOp, ()>)
        ensures
            r matches Ok(op) ==> op.spec_punctuation() == p,
            r is Err ==> forall|op: AssignOp| op.spec_punctuation() != p,
    {
        match p {
            Punctuation::Assign => Ok(AssignOp::Assign),
            Punctuation::AssignPlus => Ok(AssignOp::AddAssign),
            Punctuation::AssignMinus => Ok(AssignOp::SubAssign),
            Punctuation::AssignMul => Ok(AssignOp::MulAssign),
            Punctuation::AssignDiv => Ok(AssignOp::DivAssign),
            _ => Err(()),
        }
    }

    /// Text of the operator.
    pub fn to_string(&self) -> (r: String)
        ensures
            r@ == self.spec_punctuation().spec_text(),
    {
        match self {
            AssignOp::Assign => Punctuation::Assign.to_string(),
            AssignOp::AddAssign => Punctuation::AssignPlus.to_string(),
            AssignOp::SubAssign => Punctuation::AssignMinus.to_string(),
            AssignOp::MulAssign => Punctuation::AssignMul.to_string(),
            AssignOp::DivAssign => Punctuation::AssignDiv.to_string(),
        }
    }

    /// The binary operator that a compound assignment applies, `None` for plain assignment.
    pub fn to_respective_binary_op(&self) -> (r: Option<BinaryOp>)
        ensures
            r == self.spec_binary_op(),
    {
        match self {
            AssignOp::Assign => None,
            AssignOp::AddAssign => Some(BinaryOp::Add),
            AssignOp::SubAssign => Some(BinaryOp::Sub),
            AssignOp::MulAssign => Some(BinaryOp::Mul),
            AssignOp::DivAssign => Some(BinaryOp::Div),
        }
    }
}

/// A compound assignment `op=` is written as its binary operator followed by `=`, and plain
/// assignment is `=` alone.
pub proof fn assignment_text_is_binary_text_and_equals(op: AssignOp)
    ensures
        match op.spec_binary_op() {
            Some(b) => op.spec_punctuation().spec_text() =~= b.spec_punctuation().spec_text().push('='),
            None => op.spec_punctuation().spec_text() =~= seq!['='],
        },
{
}

/// Comparisons and logical operators give a boolean; arithmetic gives an integer.
pub proof fn binary_result_types(op: BinaryOp)
    requires
        !op.is_bitwise(),
    ensures
        (op.is_comparison() || op.is_logical()) <==> !(op is Add || op is Sub || op is Mul || op is Div
            || op is Mod),
{
}

/// Multiplicative operators bind tighter than additive ones, additive ones tighter than
/// comparisons, bitwise operators tighter than logical ones, and logical operators tighter than
/// comparisons.
pub proof fn priority_order(a: BinaryOp, b: BinaryOp)
    ensures
        (a is Mul || a is Div || a is Mod) && (b is Add || b is Sub) ==> a.spec_priority()
            > b.spec_priority(),
        (a is Add || a is Sub) && b.is_comparison() ==> a.spec_priority() > b.spec_priority(),
        a.is_comparison() && b.is_logical() ==> a.spec_priority() < b.spec_priority(),
        b.is_logical() && a.is_bitwise() ==> a.spec_priority() > b.spec_priority(),
{
}

/// The binding strength of the binary operators, from the strongest: `*` `/` `%` alike, then
/// `+` `-` alike, then `>>` `<<` alike, then `&`, then `^`, then `|`, then `&&`, then `||`, and
/// last the comparisons `==` `!=` `>` `<` `>=` `<=` alike. In particular `&&` binds tighter than
/// `||`.
pub proof fn law_priority_levels()
    ensures
        BinaryOp::Div.spec_priority() == BinaryOp::Mul.spec_priority(),
        BinaryOp::Mod.spec_priority() == BinaryOp::Mul.spec_priority(),
        BinaryOp::Mul.spec_priority() > BinaryOp::Add.spec_priority(),
        BinaryOp::Sub.spec_priority() == BinaryOp::Add.spec_priority(),
        BinaryOp::Add.spec_priority() > BinaryOp::Rsh.spec_priority(),
        BinaryOp::Lsh.spec_priority() == BinaryOp::Rsh.spec_priority(),
        BinaryOp::Rsh.spec_priority() > BinaryOp::BinAnd.spec_priority(),
        BinaryOp::BinAnd.spec_priority() > BinaryOp::BinXor.spec_priority(),
        BinaryOp::BinXor.spec_priority() > BinaryOp::BinOr.spec_priority(),
        BinaryOp::BinOr.spec_priority() > BinaryOp::And.spec_priority(),
        BinaryOp::And.spec_priority() > BinaryOp::Or.spec_priority(),
        BinaryOp::Or.spec_priority() > BinaryOp::Eq.spec_priority(),
        BinaryOp::Neq.spec_priority() == BinaryOp::Eq.spec_priority(),
        BinaryOp::More.spec_priority() == BinaryOp::Eq.spec_priority(),
        BinaryOp::Less.spec_priority() == BinaryOp::Eq.spec_priority(),
        BinaryOp::MoreEq.spec_priority() == BinaryOp::Eq.spec_priority(),
        BinaryOp::LessEq.spec_priority() == BinaryOp::Eq.spec_priority(),
{
}

/// How each operator is written: the binary operators `+ - * / % >> << & | ^ && || == != > < >=
/// <=`, the unary ones `+ - !`, and the assignments `= += -= *= /=`.
pub proof fn law_operator_spellings()
    ensures
        BinaryOp::Add.spec_punctuation().spec_text() == seq!['+'],
        BinaryOp::Sub.spec_punctuation().spec_text() == seq!['-'],
        BinaryOp::Mul.spec_punctuation().spec_text() == seq!['*'],
        BinaryOp::Div.spec_punctuation().spec_text() == seq!['/'],
        BinaryOp::Mod.spec_punctuation().spec_text() == seq!['%'],
        BinaryOp::Rsh.spec_punctuation().spec_text() == seq!['>', '>'],
        BinaryOp::Lsh.spec_punctuation().spec_text() == seq!['<', '<'],
        BinaryOp::BinAnd.spec_punctuation().spec_text() == seq!['&'],
        BinaryOp::BinOr.spec_punctuation().spec_text() == seq!['|'],
        BinaryOp::BinXor.spec_punctuation().spec_text() == seq!['^'],
        BinaryOp::And.spec_punctuation().spec_text() == seq!['&', '&'],
        BinaryOp::Or.spec_punctuation().spec_text() == seq!['|', '|'],
        BinaryOp::Eq.spec_punctuation().spec_text() == seq!['=', '='],
        BinaryOp::Neq.spec_punctuation().spec_text() == seq!['!', '='],
        BinaryOp::More.spec_punctuation().spec_text() == seq!['>'],
        BinaryOp::Less.spec_punctuation().spec_text() == seq!['<'],
        BinaryOp::MoreEq.spec_punctuation().spec_text() == seq!['>', '='],
        BinaryOp::LessEq.spec_punctuation().spec_text() == seq!['<', '='],
        UnaryOp::Add.spec_punctuation().spec_text() == seq!['+'],
        UnaryOp::Sub.spec_punctuation().spec_text() == seq!['-'],
        UnaryOp::Not.spec_punctuation().spec_text() == seq!['!'],
        AssignOp::Assign.spec_punctuation().spec_text() == seq!['='],
        AssignOp::AddAssign.spec_punctuation().spec_text() == seq!['+', '='],
        AssignOp::SubAssign.spec_punctuation().spec_text() == seq!['-', '='],
        AssignOp::MulAssign.spec_punctuation().spec_text() == seq!['*', '='],
        AssignOp::DivAssign.spec_punctuation().spec_text() == seq!['/', '='],
{
}

} // verus!
