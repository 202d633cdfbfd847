use compiler::ast::Identifier;
use compiler::hir::builder::{HirBuilder, TranslationError};
use compiler::hir::scope::{Scope, VarId};
use compiler::hir::types::{PrimitiveType, TypeError, TypeId, TypeTable};
use compiler::hir::{Block, ExpressionKind, FunctionId, Statement};
use compiler::parser::FileParser;

fn ident(s: &str) -> Identifier {
    Identifier(String::from(s))
}

fn translate(src: &str) -> Result<compiler::hir::Hir, Vec<TranslationError>> {
    let parser = FileParser::new_test(src);
    let (result, _) = parser.parse();
    let parsed = result.ok().expect("parsing failed");
    let mut builder = HirBuilder::new();
    builder.populate(parsed.item_table);
    builder.build()
}

#[test]
fn scope_lookup_follows_nesting() {
    let mut scope = Scope::new();
    let a = scope.insert(ident("a"), TypeId::Primitive(PrimitiveType::I32));
    assert_eq!(VarId(0), a);
    let mut child = scope.child();
    assert!(!child.is_loop());
    assert_eq!(Some((a, TypeId::Primitive(PrimitiveType::I32))), child.lookup(&ident("a")));
    let b = child.insert(ident("b"), TypeId::Primitive(PrimitiveType::Bool));
    assert_eq!(VarId(1), b);
    let shadow = child.insert(ident("a"), TypeId::Primitive(PrimitiveType::Bool));
    assert_eq!(Some((shadow, TypeId::Primitive(PrimitiveType::Bool))), child.lookup(&ident("a")));
    let mut parent = child.parent().expect("a child has a parent");
    assert_eq!(None, parent.lookup(&ident("b")));
    assert_eq!(Some((a, TypeId::Primitive(PrimitiveType::I32))), parent.lookup(&ident("a")));
    assert!(Scope::new().parent().is_none());
    assert_eq!(VarId(3), parent.insert(ident("d"), TypeId::Primitive(PrimitiveType::U8)));
    let looping = parent.child_loop();
    assert!(looping.is_loop());
    let mut inner = looping.child();
    assert!(inner.is_loop());
    assert_eq!(VarId(4), inner.insert(ident("c"), TypeId::Compound(0)));
}

#[test]
fn scope_ids_are_not_reused_after_a_child() {
    let scope = Scope::new();
    let mut child = scope.child();
    assert_eq!(VarId(0), child.insert(ident("x"), TypeId::Primitive(PrimitiveType::I32)));
    let mut parent = child.parent().expect("a child has a parent");
    assert_eq!(VarId(1), parent.insert(ident("y"), TypeId::Primitive(PrimitiveType::I32)));
}

#[test]
fn type_table_names_and_fields() {
    let mut table = TypeTable::new();
    assert_eq!(Ok(TypeId::Primitive(PrimitiveType::U8)), table.get(&ident("u8")));
    assert_eq!(Err(TypeError::NotFound(ident("P"))), table.get(&ident("P")));
    let p = table.define_name(ident("P"));
    assert_eq!(TypeId::Compound(0), p);
    assert_eq!(Ok(p), table.get(&ident("P")));
    assert_eq!(Ok(()), table.add_field(p, ident("x"), ident("f32")));
    assert_eq!(Err(TypeError::NotFound(ident("Q"))), table.add_field(p, ident("y"), ident("Q")));
    let shadow = table.define_name(ident("i32"));
    assert_eq!(Ok(shadow), table.get(&ident("i32")));
}

#[test]
fn translate_function_with_typed_body() {
    let hir = translate("fn one() -> i32 { let x: i32 = 1; x } fn main() { while true { } }").expect("translation failed");
    let one = hir.get_function(FunctionId(0)).expect("translated");
    assert_eq!(Some(TypeId::Primitive(PrimitiveType::I32)), one.signature.return_type);
    assert_eq!(Some(TypeId::Primitive(PrimitiveType::I32)), one.body.type_id());
    assert_eq!(1, one.body.0.len());
    let main = hir.get_function(FunctionId(1)).expect("translated");
    assert_eq!(None, main.body.type_id());
    assert!(main.body.0.is_empty());
    match &main.body.1 {
        Some(e) => match &e.kind {
            ExpressionKind::Loop(body) => {
                assert!(matches!(body.0[0], Statement::ExprStmt(_)));
                assert_eq!(None, e.type_);
            }
            other => panic!("unexpected {:?}", other),
        },
        other => panic!("unexpected {:?}", other),
    }
    assert!(hir.get_function(FunctionId(2)).is_none());
}

#[test]
fn while_loop_runs_while_condition_holds() {
    let hir = translate("fn main() { let go: bool = true; while go { go = false; } }").expect("translation failed");
    let main = hir.get_function(FunctionId(0)).expect("translated");
    let looped = match &main.body.1 {
        Some(e) => match &e.kind {
            ExpressionKind::Loop(body) => body,
            other => panic!("unexpected {:?}", other),
        },
        other => panic!("unexpected {:?}", other),
    };
    assert_eq!(2, looped.0.len());
    match &looped.0[0] {
        Statement::ExprStmt(guard) => match &guard.kind {
            ExpressionKind::If { condition, body, else_body } => {
                assert_eq!(ExpressionKind::Var(VarId(0)), condition.kind);
                assert_eq!(&Block(Vec::new(), None), body);
                assert_eq!(&Some(Block(vec![Statement::Break], None)), else_body);
            }
            other => panic!("unexpected {:?}", other),
        },
        other => panic!("unexpected {:?}", other),
    }
}

#[test]
fn translation_errors() {
    assert_eq!(
        Err(vec![TranslationError::TypeMismatch {
            expected: Some(TypeId::Primitive(PrimitiveType::I32)),
            received: Some(TypeId::Primitive(PrimitiveType::Bool)),
        }]),
        translate("fn f() -> i32 { true }").map(|_| ())
    );
    assert_eq!(
        Err(vec![TranslationError::VariableNotDeclared(ident("y"))]),
        translate("fn f() { y }").map(|_| ())
    );
    assert_eq!(Err(vec![TranslationError::InvalidBreak]), translate("fn f() { break; }").map(|_| ()));
    assert_eq!(Err(vec![TranslationError::TypeInference]), translate("fn f() { let x = 1; }").map(|_| ()));
    assert_eq!(
        Err(vec![TranslationError::TypeMismatch {
            expected: Some(TypeId::Primitive(PrimitiveType::Bool)),
            received: Some(TypeId::Primitive(PrimitiveType::I32)),
        }]),
        translate("fn f() { if 1 { } }").map(|_| ())
    );
    assert_eq!(
        Err(vec![TranslationError::TypeError(TypeError::NotFound(ident("Q")))]),
        translate("struct S { q: Q }").map(|_| ())
    );
}

#[test]
fn calls_resolve_to_earlier_functions() {
    let hir = translate("fn a() -> bool { true } fn b() -> bool { a() }").expect("translation failed");
    let b = hir.get_function(FunctionId(1)).expect("translated");
    assert_eq!(Some(TypeId::Primitive(PrimitiveType::Bool)), b.body.type_id());
    assert!(translate("fn b() { c() }").is_err());
}

#[test]
fn let_keeps_binding_when_value_fails() {
    let hir = translate("fn f() -> i32 { let x: i32 = y; x }").expect("translation failed");
    let f = hir.get_function(FunctionId(0)).expect("translated");
    match &f.body.0[0] {
        Statement::LetStmt { var, type_, value } => {
            assert_eq!(VarId(0), *var);
            assert_eq!(TypeId::Primitive(PrimitiveType::I32), *type_);
            assert!(value.is_none());
        }
        _ => panic!("expected a let statement"),
    }
    assert_eq!(Some(TypeId::Primitive(PrimitiveType::I32)), f.body.type_id());
}

#[test]
fn parameters_take_first_ids_and_errors_come_in_order() {
    let hir = translate("fn f(a: i32, b: bool) -> bool { let c: i32 = a; b }").expect("translation failed");
    let f = hir.get_function(FunctionId(0)).expect("translated");
    assert_eq!(
        vec![(VarId(0), TypeId::Primitive(PrimitiveType::I32)), (VarId(1), TypeId::Primitive(PrimitiveType::Bool))],
        f.signature.params
    );
    match &f.body.0[0] {
        Statement::LetStmt { var, .. } => assert_eq!(VarId(2), *var),
        _ => panic!("expected a let statement"),
    }
    assert_eq!(
        Err(vec![
            TranslationError::TypeError(TypeError::NotFound(ident("Q"))),
            TranslationError::VariableNotDeclared(ident("z")),
        ]),
        translate("fn f() { z } struct S { q: Q }").map(|_| ())
    );
}

#[test]
fn insert_keeps_other_names_and_loop_flag() {
    let scope = Scope::new();
    let mut looping = scope.child_loop();
    let x = looping.insert(ident("x"), TypeId::Primitive(PrimitiveType::I32));
    let before = looping.lookup(&ident("x"));
    assert!(looping.is_loop());
    looping.insert(ident("y"), TypeId::Primitive(PrimitiveType::Bool));
    assert!(looping.is_loop());
    assert_eq!(before, looping.lookup(&ident("x")));
    assert_eq!(Some((x, TypeId::Primitive(PrimitiveType::I32))), looping.lookup(&ident("x")));
    assert_eq!(None, looping.lookup(&ident("z")));
}
