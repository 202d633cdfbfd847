//! Items: the static components of a package.

use vstd::prelude::*;

use crate::ast::{Identifier, Visibility};
use crate::ast::expression::Block;
use crate::input_stream::{Location, SourceId};

verus! {

/// Where a piece of source code is.
#[derive(Debug, Clone, Copy, PartialEq, Eq)]
pub struct Span {
    pub source: Option<SourceId>,
    pub start: Location,
    pub end: Location,
}

/// An Item is a static component of the package.
#[derive(Debug, PartialEq, Eq)]
pub struct Item {
    pub kind: ItemKind,
    pub span: Span,
    pub visibility: Visibility,
}

/// What kind of item it is.
#[derive(Debug, PartialEq, Eq)]
pub enum ItemKind {
    Module(Module),
    Struct(Struct),
    Function(Function),
}

/// Module is a container for zero or more items.
///
/// Module may be either inline or loadable from separate file.
#[derive(Debug, Clone, PartialEq, Eq)]
pub enum Module {
    Inline(Identifier),
    Loadable(Identifier),
}

/// A type that is composed of other types.
#[derive(Debug, Clone, PartialEq, Eq)]
pub struct Struct {
    pub name: Identifier,
    pub fields: Vec<Field>,
}

/// A named field of a structure.
#[derive(Debug, Clone, PartialEq, Eq)]
pub struct Field {
    pub name: Identifier,
    pub type_: Identifier,
}

/// A function is a set of statements to perform a specific task.
///
/// `fn NAME(NAME: TYPE, ...) -> RETURN_TYPE`
#[derive(Debug, PartialEq, Eq)]
pub struct Function {
    pub name: Identifier,
    pub params: Vec<Parameter>,
    pub return_type: Option<Identifier>,
    pub body: Block,
}

/// A parameter represents a value that the function expects you to pass when you call it.
///
/// `NAME: TYPE`
#[derive(Debug, Clone, PartialEq, Eq)]
pub struct Parameter {
    pub name: Identifier,
    pub type_: Identifier,
}

impl Item {
    /// The name the item is declared under.
    pub open spec fn spec_name(&self) -> Identifier {
        match &self.kind {
            ItemKind::Module(Module::Inline(ident)) => *ident,
            ItemKind::Module(Module::Loadable(ident)) => *ident,
            ItemKind::Struct(s) => s.name,
            ItemKind::Function(f) => f.name,
        }
    }

    /// The name the item is declared under.
    pub fn name(&self) -> (r: &Identifier)
        ensures
            *r == self.spec_name(),
    {
        match &self.kind {
            ItemKind::Module(Module::Inline(ident)) => ident,
            ItemKind::Module(Module::Loadable(ident)) => ident,
            ItemKind::Struct(s) => &s.name,
            ItemKind::Function(f) => &f.name,
        }
    }

    /// An item of the given kind, place and visibility.
    pub fn new(kind: ItemKind, span: Span, visibility: Visibility) -> (r: Item)
        ensures
            r.kind == kind,
            r.span == span,
            r.visibility == visibility,
    {
        Item { kind, span, visibility }
    }
}

} // verus!
