use compiler::ast::Identifier;
use compiler::ast::expression::{Expression, Literal};
use compiler::ast::item::{Field, ItemKind, Module, Struct};
use compiler::ast::statement::Statement;
use compiler::context::Context;
use compiler::input_stream::SourceId;
use compiler::lexer::number::{Base, Number};
use compiler::lexer::operator::{AssignOp, BinaryOp, UnaryOp};
use compiler::parser::operator_expression::MaybeAssignment;
use compiler::parser::operator_expression::infix::{InfixEntry, InfixExpr, InfixNotation};
use compiler::parser::operator_expression::postfix::{PostfixEntry, ReversePolishExpr};
use compiler::parser::operator_expression::infix::InfixEntry::{
    BinaryOperator, LeftParenthesis, Operand, RightParenthesis, UnaryOperator,
};
use compiler::parser::{finish, CompilerError, FileParser, Parser, ParserError, PendingFile};
use compiler::path::AbsolutePath;

fn make_num(n: &'static str) -> Expression {
    Expression::Literal(Literal::Number(Number {
        integer: n.to_string(),
        fraction: None,
        base: Base::Decimal,
    }))
}

fn ident(s: &str) -> Identifier {
    Identifier(String::from(s))
}

#[test]
fn item_parse_empty_struct() {
    let mut parser = FileParser::new_test("struct name {}");

    let _ = parser.lexer.next();
    let expected = Struct {
        name: Identifier(String::from("name")),
        fields: Vec::new(),
    };
    let produced = parser.parse_struct().unwrap();
    assert_eq!(expected, produced);
}

#[test]
fn item_parse_struct_with_comma() {
    let mut parser = FileParser::new_test("struct name { field1: type1, field2: type2, }");

    let _ = parser.lexer.next();
    let expected = Struct {
        name: Identifier(String::from("name")),
        fields: vec![
            Field {
                name: Identifier(String::from("field1")),
                type_: Identifier(String::from("type1")),
            },
            Field {
                name: Identifier(String::from("field2")),
                type_: Identifier(String::from("type2")),
            },
        ],
    };
    let produced = parser.parse_struct().unwrap();
    assert_eq!(expected, produced);
}

#[test]
fn item_parse_struct_without_comma() {
    let mut parser = FileParser::new_test("struct name { field1: type1, field2: type2 }");

    let _ = parser.lexer.next();
    let expected = Struct {
        name: Identifier(String::from("name")),
        fields: vec![
            Field {
                name: Identifier(String::from("field1")),
                type_: Identifier(String::from("type1")),
            },
            Field {
                name: Identifier(String::from("field2")),
                type_: Identifier(String::from("type2")),
            },
        ],
    };
    let produced = parser.parse_struct().unwrap();
    assert_eq!(expected, produced);
}

#[test]
fn struct_parse_empty_struct() {
    let mut parser = FileParser::new_test("struct name {}");

    let _ = parser.lexer.next();
    let expected = Struct {
        name: Identifier(String::from("name")),
        fields: Vec::new(),
    };
    let produced = parser.parse_struct().unwrap();
    assert_eq!(expected, produced);
}

#[test]
fn struct_parse_struct_with_comma() {
    let mut parser = FileParser::new_test("struct name { field1: type1, field2: type2, }");

    let _ = parser.lexer.next();
    let expected = Struct {
        name: Identifier(String::from("name")),
        fields: vec![
            Field { name: Identifier(String::from("field1")), type_: Identifier(String::from("type1")) },
            Field { name: Identifier(String::from("field2")), type_: Identifier(String::from("type2")) },
        ],
    };
    let produced = parser.parse_struct().unwrap();
    assert_eq!(expected, produced);
}

#[test]
fn struct_parse_struct_without_comma() {
    let mut parser = FileParser::new_test("struct name { field1: type1, field2: type2 }");

    let _ = parser.lexer.next();
    let expected = Struct {
        name: Identifier(String::from("name")),
        fields: vec![
            Field { name: Identifier(String::from("field1")), type_: Identifier(String::from("type1")) },
            Field { name: Identifier(String::from("field2")), type_: Identifier(String::from("type2")) },
        ],
    };
    let produced = parser.parse_struct().unwrap();
    assert_eq!(expected, produced);
}

#[test]
fn unary() {
    let mut parser = FileParser::new_test("-x");
    let parsed = parser.parse_infix().expect("parsing failed");
    let expected = InfixNotation::Expression(
        vec![
            UnaryOperator(UnaryOp::Sub),
            Operand(Expression::Var(Identifier(String::from("x")))),
        ]
        .into(),
    );
    assert!(
        expected == parsed,
        "infix expression parsed incorrectly. Expected:\n{:#?}\nParsed:\n{:#?}",
        expected,
        parsed
    );
}

#[test]
fn binary() {
    let mut parser = FileParser::new_test("4 >= x");
    let parsed = parser.parse_infix().expect("parsing failed");
    let expected = InfixNotation::Expression(
        vec![
            Operand(make_num("4")),
            BinaryOperator(BinaryOp::MoreEq),
            Operand(Expression::Var(Identifier(String::from("x")))),
        ]
        .into(),
    );
    assert!(
        expected == parsed,
        "infix expression parsed incorrectly. Expected:\n{:#?}\nParsed:\n{:#?}",
        expected,
        parsed
    );
}

#[test]
fn simple_compound() {
    let mut parser = FileParser::new_test("1 + -2");
    let parsed = parser.parse_infix().expect("parsing failed");
    let expected = InfixNotation::Expression(
        vec![
            Operand(make_num("1")),
            BinaryOperator(BinaryOp::Add),
            UnaryOperator(UnaryOp::Sub),
            Operand(make_num("2")),
        ]
        .into(),
    );
    assert!(
        expected == parsed,
        "infix expression parsed incorrectly. Expected:\n{:#?}\nParsed:\n{:#?}",
        expected,
        parsed
    );
}

#[test]
fn complex_compound() {
    let mut parser = FileParser::new_test("1 + -2 - (3 * 4) / -5");
    let parsed = parser.parse_infix().expect("parsing failed");
    let expected = InfixNotation::Expression(
        vec![
            Operand(make_num("1")),
            BinaryOperator(BinaryOp::Add),
            UnaryOperator(UnaryOp::Sub),
            Operand(make_num("2")),
            BinaryOperator(BinaryOp::Sub),
            LeftParenthesis,
            Operand(make_num("3")),
            BinaryOperator(BinaryOp::Mul),
            Operand(make_num("4")),
            RightParenthesis,
            BinaryOperator(BinaryOp::Div),
            UnaryOperator(UnaryOp::Sub),
            Operand(make_num("5")),
        ]
        .into(),
    );
    assert!(
        expected == parsed,
        "infix expression parsed incorrectly. Expected:\n{:#?}\nParsed:\n{:#?}",
        expected,
        parsed
    );
}

#[test]
fn infix_assignment() {
    let mut parser = FileParser::new_test("x += 1;");
    let parsed = parser.parse_infix().expect("parsing failed");
    assert_eq!(
        MaybeAssignment::Assignment {
            assignee: ident("x"),
            operator: AssignOp::AddAssign,
            expression: vec![InfixEntry::Operand(make_num("1"))].into(),
        },
        parsed
    );
}

#[test]
fn infix_unbalanced_parentheses() {
    let mut parser = FileParser::new_test("(1 + 2");
    assert_eq!(Err(ParserError::UnclosedParenthesis), parser.parse_infix());
    let mut parser = FileParser::new_test("( = 1)");
    assert_eq!(Err(ParserError::UnclosedParenthesis), parser.parse_infix());
    assert_eq!(0, parser.lexer.context.error_reporter.errors().len());
}

#[test]
fn expression_precedence() {
    let mut parser = FileParser::new_test("1 + 2 * 3");
    let expected = Expression::Binary {
        op: BinaryOp::Add,
        left: Box::new(make_num("1")),
        right: Box::new(Expression::Binary {
            op: BinaryOp::Mul,
            left: Box::new(make_num("2")),
            right: Box::new(make_num("3")),
        }),
    };
    assert_eq!(Ok(expected), parser.parse_expr());
}

#[test]
fn assignment_in_expression_position_is_reported() {
    let mut parser = FileParser::new_test("x = 1;");
    assert_eq!(Err(ParserError::ParserError), parser.parse_expr());
    let errors = parser.lexer.context.error_reporter.errors();
    assert_eq!(1, errors.len());
    assert_eq!("assignment in expression position", errors[0].message);
}

#[test]
fn operand_errors_are_reported() {
    let mut parser = FileParser::new_test(";");
    assert_eq!(Err(ParserError::ParserError), parser.parse_operand());
    assert_eq!("punctuation `Semicolon` is not allowed", parser.lexer.context.error_reporter.errors()[0].message);

    let mut parser = FileParser::new_test("else");
    assert_eq!(Err(ParserError::ParserError), parser.parse_operand());
    assert_eq!(
        "keyword `else` is not allowed in operator expression",
        parser.lexer.context.error_reporter.errors()[0].message
    );

    let mut parser = FileParser::new_test("");
    assert_eq!(Err(ParserError::ParserError), parser.parse_operand());
    assert_eq!("unexpected EOF", parser.lexer.context.error_reporter.errors()[0].message);
}

#[test]
fn call_with_paths() {
    let mut parser = FileParser::new_test("super::super::f(1, x)");
    match parser.parse_operand() {
        Ok(Expression::FnCall { path, params }) => {
            assert_eq!("super::super::f", path.to_string());
            assert_eq!(vec![make_num("1"), Expression::Var(ident("x"))], params);
        }
        other => panic!("unexpected {:?}", other),
    }
    let mut parser = FileParser::new_test("a::crate::b()");
    assert_eq!(Err(ParserError::ParserError), parser.parse_operand());
    let mut parser = FileParser::new_test("a::b");
    assert_eq!(Err(ParserError::ParserError), parser.parse_operand());
}

#[test]
fn block_with_statements_and_value() {
    let mut parser = FileParser::new_test("let x: i32 = 1; x = 2; if x { } x }");
    let block = parser.parse_block().expect("parsing failed");
    assert_eq!(3, block.statements.len());
    assert_eq!(Some(Box::new(Expression::Var(ident("x")))), block.expression);
}

#[test]
fn top_module_declares_items() {
    let parser = FileParser::new_test("mod a { fn f() { } } mod b; struct S { }");
    let (result, context) = parser.parse();
    let parsed = result.ok().expect("parsing failed");
    assert_eq!(0, context.error_reporter.errors().len());
    let paths: Vec<String> = parsed.item_table.iter().iter().map(|(p, _)| p.to_string()).collect();
    assert_eq!(vec!["crate::a::f", "crate::a", "crate::b", "crate::S", "crate"], paths);
    let mut b = AbsolutePath::new(ident("crate"));
    b.push(ident("b"));
    assert_eq!(vec![PendingFile::General(b)], parsed.pending);
}

#[test]
fn missing_item_is_reported() {
    let parser = FileParser::new_test("let x = 1;");
    let (result, context) = parser.parse();
    assert!(matches!(result, Err((ParserError::ParserError, _))));
    assert_eq!("expected an item", context.error_reporter.errors()[0].message);
}

#[test]
fn duplicate_items_are_kept_apart() {
    let parser = FileParser::new_test("struct S { } fn S() { }");
    let (result, _) = parser.parse();
    let parsed = result.ok().expect("parsing failed");
    assert_eq!(2, parsed.item_table.iter().len());
    assert_eq!(1, parsed.item_table.duplicated().len());
    assert!(matches!(parsed.item_table.duplicated()[0].1.kind, ItemKind::Function(_)));
}

#[test]
fn package_parse_in_steps() {
    let mut parser = Parser::new(String::from("main.rs"), Context::new_test());
    let mut table = compiler::item_table::ItemTable::new();
    let mut errors = Vec::new();
    let root = match parser.next_file() {
        Some(PendingFile::Specific { scope, path }) => {
            assert_eq!("main.rs", path);
            scope
        }
        other => panic!("unexpected {:?}", other),
    };
    let parsed = parser.parse_file_by_path(root, "mod m; fn main() { }", SourceId(0));
    parser.record(&mut table, &mut errors, parsed);
    let module = match parser.next_file() {
        Some(PendingFile::General(path)) => path,
        other => panic!("unexpected {:?}", other),
    };
    assert_eq!("_TEST::m", module.to_string());
    let parsed = parser.parse_file(module, "fn g( { }", SourceId(1));
    assert!(matches!(parsed, Err(CompilerError::Parse(_))));
    parser.record(&mut table, &mut errors, parsed);
    assert!(parser.next_file().is_none());
    assert!(finish(table, errors).is_err());
}

#[test]
fn parse_return_type_mismatch() {
    let parser = FileParser::new_test("fn f() ; ");
    let (result, context) = parser.parse();
    assert!(matches!(result, Err((ParserError::UnexpectedToken(_), _))));
    assert_eq!("expected `->` or `{`, found `;`", context.error_reporter.errors()[0].message);
}

#[test]
fn unused_module_keeps_root() {
    let parser = FileParser::new_test("");
    let (result, _) = parser.parse();
    let parsed = result.ok().expect("parsing failed");
    let entries = parsed.item_table.iter();
    assert_eq!(1, entries.len());
    assert_eq!(ItemKind::Module(Module::Inline(ident("crate"))), entries[0].1.kind);
}

#[test]
fn equal_priorities_group_to_the_left() {
    let mut parser = FileParser::new_test("a - b - c");
    let var = |s: &str| Expression::Var(ident(s));
    let expected = Expression::Binary {
        op: BinaryOp::Sub,
        left: Box::new(Expression::Binary {
            op: BinaryOp::Sub,
            left: Box::new(var("a")),
            right: Box::new(var("b")),
        }),
        right: Box::new(var("c")),
    };
    assert_eq!(Ok(expected), parser.parse_expr());
}

#[test]
fn prefix_operator_binds_tightest() {
    let mut parser = FileParser::new_test("-x + y");
    let expected = Expression::Binary {
        op: BinaryOp::Add,
        left: Box::new(Expression::Unary { op: UnaryOp::Sub, value: Box::new(Expression::Var(ident("x"))) }),
        right: Box::new(Expression::Var(ident("y"))),
    };
    assert_eq!(Ok(expected), parser.parse_expr());
    let mut grouped = FileParser::new_test("-(x + y)");
    let expected = Expression::Unary {
        op: UnaryOp::Sub,
        value: Box::new(Expression::Binary {
            op: BinaryOp::Add,
            left: Box::new(Expression::Var(ident("x"))),
            right: Box::new(Expression::Var(ident("y"))),
        }),
    };
    assert_eq!(Ok(expected), grouped.parse_expr());
    let postfix = ReversePolishExpr::from_infix(InfixExpr(
        vec![UnaryOperator(UnaryOp::Sub), Operand(make_num("1")), BinaryOperator(BinaryOp::Add), Operand(make_num("2"))]
            .into(),
    ));
    let expected: Vec<PostfixEntry> = vec![
        PostfixEntry::Operand(make_num("1")),
        PostfixEntry::UnaryOperator(UnaryOp::Sub),
        PostfixEntry::Operand(make_num("2")),
        PostfixEntry::BinaryOperator(BinaryOp::Add),
    ];
    assert_eq!(expected, Vec::from(postfix.0));
}

#[test]
fn function_with_parameters_return_type_and_body() {
    let mut parser = FileParser::new_test("f(a: i32, b: bool,) -> i32 { let c: i32 = a + 1; return c; }");
    let f = parser.parse_fn().expect("parsing failed");
    assert_eq!(ident("f"), f.name);
    assert_eq!(2, f.params.len());
    assert_eq!(ident("b"), f.params[1].name);
    assert_eq!(ident("bool"), f.params[1].type_);
    assert_eq!(Some(ident("i32")), f.return_type);
    assert_eq!(2, f.body.statements.len());
    assert!(f.body.expression.is_none());
}

#[test]
fn conditional_and_loops_read_their_blocks() {
    let mut parser = FileParser::new_test("x < 2 { 1 } else { break; }");
    match parser.parse_if().expect("parsing failed") {
        Expression::If { body, else_body, .. } => {
            assert_eq!(Some(Box::new(make_num("1"))), body.expression);
            assert_eq!(1, else_body.expect("an else block").statements.len());
        }
        other => panic!("unexpected {:?}", other),
    }
    let mut parser = FileParser::new_test("go { go = false; }");
    assert!(matches!(parser.parse_while(), Ok(Expression::While { .. })));
    let mut parser = FileParser::new_test("i in 10 { }");
    match parser.parse_for().expect("parsing failed") {
        Expression::For { var, expr, body } => {
            assert_eq!(ident("i"), var);
            assert_eq!(Box::new(make_num("10")), expr);
            assert!(body.statements.is_empty());
        }
        other => panic!("unexpected {:?}", other),
    }
}

#[test]
fn call_arguments_are_parsed_in_order() {
    let mut parser = FileParser::new_test("g(1, x + 2)");
    match parser.parse_operand().expect("parsing failed") {
        Expression::FnCall { params, .. } => {
            assert_eq!(2, params.len());
            assert_eq!(make_num("1"), params[0]);
        }
        other => panic!("unexpected {:?}", other),
    }
}

#[test]
fn shunting_yard_takes_any_balanced_sequence() {
    let infix = InfixExpr(
        vec![
            LeftParenthesis,
            Operand(make_num("1")),
            BinaryOperator(BinaryOp::Add),
            RightParenthesis,
        ]
        .into(),
    );
    let postfix = ReversePolishExpr::from_infix(infix);
    let expected: Vec<PostfixEntry> =
        vec![PostfixEntry::Operand(make_num("1")), PostfixEntry::BinaryOperator(BinaryOp::Add)];
    assert_eq!(expected, Vec::from(postfix.0));
}

#[test]
fn infix_parsing() {
    let mut parser = FileParser::new_test("1 + 2 - (3 * 4) / -5");
    let parsed = parser.parse_infix().expect("parsing failed");
    let expected = InfixNotation::Expression(
        vec![
            Operand(make_num("1")),
            BinaryOperator(BinaryOp::Add),
            Operand(make_num("2")),
            BinaryOperator(BinaryOp::Sub),
            LeftParenthesis,
            Operand(make_num("3")),
            BinaryOperator(BinaryOp::Mul),
            Operand(make_num("4")),
            RightParenthesis,
            BinaryOperator(BinaryOp::Div),
            UnaryOperator(UnaryOp::Sub),
            Operand(make_num("5")),
        ]
        .into(),
    );
    assert!(
        expected == parsed,
        "infix expression parsed incorrectly. Expected: {:#?}\nParsed: {:#?}",
        expected,
        parsed
    );
}

#[test]
fn block_reads_assignment_statements() {
    let mut parser = FileParser::new_test("x = 1; y += x; }");
    let block = parser.parse_block().expect("parsing failed");
    assert_eq!(
        vec![
            Statement::Assignment {
                assignee: ident("x"),
                operator: AssignOp::Assign,
                expression: make_num("1"),
            },
            Statement::Assignment {
                assignee: ident("y"),
                operator: AssignOp::AddAssign,
                expression: Expression::Var(ident("x")),
            },
        ],
        block.statements
    );
    assert!(block.expression.is_none());
}

#[test]
fn operand_reads_conditionals_and_loops() {
    let mut parser = FileParser::new_test("if x { 1 } else { 2 }");
    match parser.parse_operand().expect("parsing failed") {
        Expression::If { condition, body, else_body } => {
            assert_eq!(Box::new(Expression::Var(ident("x"))), condition);
            assert_eq!(Some(Box::new(make_num("1"))), body.expression);
            assert_eq!(Some(Box::new(make_num("2"))), else_body.expect("an else block").expression);
        }
        other => panic!("unexpected {:?}", other),
    }
    let mut parser = FileParser::new_test("while go { go = false; }");
    match parser.parse_operand().expect("parsing failed") {
        Expression::While { condition, body } => {
            assert_eq!(Box::new(Expression::Var(ident("go"))), condition);
            assert_eq!(1, body.statements.len());
        }
        other => panic!("unexpected {:?}", other),
    }
    let mut parser = FileParser::new_test("for i in 3 { i }");
    match parser.parse_operand().expect("parsing failed") {
        Expression::For { var, expr, body } => {
            assert_eq!(ident("i"), var);
            assert_eq!(Box::new(make_num("3")), expr);
            assert_eq!(Some(Box::new(Expression::Var(ident("i")))), body.expression);
        }
        other => panic!("unexpected {:?}", other),
    }
}

#[test]
fn lone_super_or_crate_is_refused() {
    let mut parser = FileParser::new_test("super + 1");
    assert_eq!(Err(ParserError::ParserError), parser.parse_operand());
    assert_eq!(
        "a path may only be used as a variable or be called",
        parser.lexer.context.error_reporter.errors()[0].message
    );
    let mut parser = FileParser::new_test("crate(1)");
    match parser.parse_operand().expect("parsing failed") {
        Expression::FnCall { path, params } => {
            assert_eq!("crate", path.to_string());
            assert_eq!(vec![make_num("1")], params);
        }
        other => panic!("unexpected {:?}", other),
    }
}

#[test]
fn items_are_declared_with_what_their_tokens_give() {
    let parser = FileParser::new_test("struct S { a: i32, b: bool } fn f(x: u8) -> u8 { x }");
    let (result, _) = parser.parse();
    let parsed = result.ok().expect("parsing failed");
    let items = parsed.item_table.iter();
    match &items[0].1.kind {
        ItemKind::Struct(s) => {
            assert_eq!(ident("S"), s.name);
            assert_eq!(2, s.fields.len());
            assert_eq!(ident("a"), s.fields[0].name);
            assert_eq!(ident("bool"), s.fields[1].type_);
        }
        other => panic!("unexpected {:?}", other),
    }
    match &items[1].1.kind {
        ItemKind::Function(f) => {
            assert_eq!(ident("f"), f.name);
            assert_eq!(1, f.params.len());
            assert_eq!(Some(ident("u8")), f.return_type);
            assert_eq!(Some(Box::new(Expression::Var(ident("x")))), f.body.expression);
        }
        other => panic!("unexpected {:?}", other),
    }
}

#[test]
fn map_expr_keeps_assignee_and_operator() {
    let assignment: MaybeAssignment<i32> =
        MaybeAssignment::Assignment { assignee: ident("x"), operator: AssignOp::SubAssign, expression: 2 };
    assert_eq!(
        MaybeAssignment::Assignment { assignee: ident("x"), operator: AssignOp::SubAssign, expression: 3 },
        assignment.map_expr(|e| e + 1)
    );
    let expression: MaybeAssignment<i32> = MaybeAssignment::Expression(5);
    assert_eq!(MaybeAssignment::Expression(5), expression.map_expr(|e| e));
}

#[test]
fn paths_of_names_are_called_or_refused() {
    let mut parser = FileParser::new_test("a::b::c(1)");
    match parser.parse_operand().expect("parsing failed") {
        Expression::FnCall { path, params } => {
            assert_eq!("a::b::c", path.to_string());
            assert_eq!(vec![make_num("1")], params);
        }
        other => panic!("unexpected {:?}", other),
    }
    let mut parser = FileParser::new_test("crate::f()");
    match parser.parse_operand().expect("parsing failed") {
        Expression::FnCall { path, params } => {
            assert_eq!("crate::f", path.to_string());
            assert!(params.is_empty());
        }
        other => panic!("unexpected {:?}", other),
    }
    let mut parser = FileParser::new_test("a::b + 1");
    assert_eq!(Err(ParserError::ParserError), parser.parse_operand());
    assert_eq!(
        "a path may only be used as a variable or be called",
        parser.lexer.context.error_reporter.errors()[0].message
    );
}

#[test]
fn map_expr_composes() {
    let first: MaybeAssignment<i32> =
        MaybeAssignment::Assignment { assignee: ident("x"), operator: AssignOp::MulAssign, expression: 2 };
    let second: MaybeAssignment<i32> =
        MaybeAssignment::Assignment { assignee: ident("x"), operator: AssignOp::MulAssign, expression: 2 };
    assert_eq!(first.map_expr(|e| e + 1).map_expr(|e| e * 10), second.map_expr(|e| (e + 1) * 10));
}

#[test]
fn file_declares_items_and_leaves_module_files() {
    let mut parser = Parser::new(String::from("main.rs"), Context::new_test());
    let root = AbsolutePath::new(ident("crate"));
    let parsed = parser
        .parse_file_by_path(root, "mod a; struct S { } pub mod b; fn f() { }", SourceId(0))
        .ok()
        .expect("parsing failed");
    let mut a = AbsolutePath::new(ident("crate"));
    a.push(ident("a"));
    let mut b = AbsolutePath::new(ident("crate"));
    b.push(ident("b"));
    assert_eq!(vec![PendingFile::General(a), PendingFile::General(b)], parsed.pending);
    let paths: Vec<String> = parsed.item_table.iter().iter().map(|(p, _)| p.to_string()).collect();
    assert_eq!(vec!["crate::a", "crate::S", "crate::b", "crate::f", "crate"], paths);
}

#[test]
fn block_reads_call_statements_and_value() {
    let mut parser = FileParser::new_test("f(x); return g(1); a::h() }");
    let block = parser.parse_block().expect("parsing failed");
    assert_eq!(2, block.statements.len());
    match &block.statements[0] {
        Statement::ExprStmt(Expression::FnCall { path, params }) => {
            assert_eq!("f", path.to_string());
            assert_eq!(&vec![Expression::Var(ident("x"))], params);
        }
        other => panic!("unexpected {:?}", other),
    }
    match &block.statements[1] {
        Statement::Return(Expression::FnCall { path, params }) => {
            assert_eq!("g", path.to_string());
            assert_eq!(&vec![make_num("1")], params);
        }
        other => panic!("unexpected {:?}", other),
    }
    match block.expression.as_deref() {
        Some(Expression::FnCall { path, params }) => {
            assert_eq!("a::h", path.to_string());
            assert!(params.is_empty());
        }
        other => panic!("unexpected {:?}", other),
    }
}

#[test]
fn block_reads_loops_and_conditionals_as_statements() {
    let mut parser = FileParser::new_test("while x < 3 { x += 1; } if y { 1 } else { 2 }; { z; } for i in 0 { } w }");
    let block = parser.parse_block().expect("parsing failed");
    assert_eq!(4, block.statements.len());
    match &block.statements[0] {
        Statement::ExprStmt(Expression::While { body, .. }) => {
            assert_eq!(1, body.statements.len());
            assert!(matches!(body.statements[0], Statement::Assignment { .. }));
        }
        other => panic!("unexpected {:?}", other),
    }
    match &block.statements[1] {
        Statement::ExprStmt(Expression::If { else_body, .. }) => assert!(else_body.is_some()),
        other => panic!("unexpected {:?}", other),
    }
    match &block.statements[2] {
        Statement::ExprStmt(Expression::Block(inner)) => assert_eq!(1, inner.statements.len()),
        other => panic!("unexpected {:?}", other),
    }
    match &block.statements[3] {
        Statement::ExprStmt(Expression::For { var, .. }) => assert_eq!(ident("i"), *var),
        other => panic!("unexpected {:?}", other),
    }
    assert_eq!(Some(&Expression::Var(ident("w"))), block.expression.as_deref());
}

#[test]
fn block_value_can_be_a_conditional() {
    let mut parser = FileParser::new_test("let a = 1; if a { 2 } else { 3 } }");
    let block = parser.parse_block().expect("parsing failed");
    assert_eq!(1, block.statements.len());
    assert!(matches!(block.expression.as_deref(), Some(Expression::If { .. })));
}

#[test]
fn block_reads_calls_with_call_arguments() {
    let mut parser = FileParser::new_test("f(g(x), 1); let y = h(k()); y }");
    let block = parser.parse_block().expect("parsing failed");
    assert_eq!(2, block.statements.len());
    match &block.statements[0] {
        Statement::ExprStmt(Expression::FnCall { path, params }) => {
            assert_eq!("f", path.to_string());
            assert_eq!(2, params.len());
            match &params[0] {
                Expression::FnCall { path, params } => {
                    assert_eq!("g", path.to_string());
                    assert_eq!(&vec![Expression::Var(ident("x"))], params);
                }
                other => panic!("unexpected {:?}", other),
            }
            assert_eq!(make_num("1"), params[1]);
        }
        other => panic!("unexpected {:?}", other),
    }
    match &block.statements[1] {
        Statement::LetStmt(s) => match s.value.as_deref() {
            Some(Expression::FnCall { path, params }) => {
                assert_eq!("h", path.to_string());
                assert!(matches!(&params[0], Expression::FnCall { .. }));
            }
            other => panic!("unexpected {:?}", other),
        },
        other => panic!("unexpected {:?}", other),
    }
}

#[test]
fn conditions_and_iterables_may_be_calls() {
    let mut parser = FileParser::new_test("while f(x) { } for i in g(h(1)) { } if k() { 1 } else { 2 } }");
    let block = parser.parse_block().expect("parsing failed");
    assert_eq!(2, block.statements.len());
    match &block.statements[0] {
        Statement::ExprStmt(Expression::While { condition, .. }) => {
            assert!(matches!(condition.as_ref(), Expression::FnCall { .. }))
        }
        other => panic!("unexpected {:?}", other),
    }
    match &block.statements[1] {
        Statement::ExprStmt(Expression::For { expr, .. }) => match expr.as_ref() {
            Expression::FnCall { params, .. } => assert!(matches!(&params[0], Expression::FnCall { .. })),
            other => panic!("unexpected {:?}", other),
        },
        other => panic!("unexpected {:?}", other),
    }
    assert!(matches!(block.expression.as_deref(), Some(Expression::If { .. })));
}
