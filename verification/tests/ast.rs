use compiler::ast::{Identifier, IdentifierParseError, Visibility};
use compiler::ast::Visibility::{Private, Public};
use compiler::ast::pretty_print::print_table;
use compiler::item_table::ItemTable;
use compiler::parser::FileParser;

#[test]
fn item_visibility_ordering() {
    let expected = vec![Public, Public, Private, Private];
    let mut init = vec![Private, Public, Private, Public];
    init.sort();
    assert_eq!(expected, init);
}

#[test]
fn mod_visibility_ordering() {
    let expected = vec![Public, Public, Private, Private];
    let mut init = vec![Private, Public, Private, Public];
    init.sort();
    assert_eq!(expected, init);
}

#[test]
fn visibility_is_private_by_default() {
    assert_eq!(Visibility::Private, Visibility::default());
}

#[test]
fn identifier_from_str() {
    assert_eq!(Ok(Identifier(String::from("main_2"))), Identifier::from_str("main_2"));
    assert_eq!(Ok(Identifier(String::from("_x"))), Identifier::from_str("_x"));
    assert_eq!(Err(IdentifierParseError::Empty), Identifier::from_str(""));
    assert_eq!(Err(IdentifierParseError::StartsWithDigit), Identifier::from_str("1x"));
    assert_eq!(Err(IdentifierParseError::InvalidCharacter), Identifier::from_str("a-b"));
    assert_eq!(Err(IdentifierParseError::InvalidCharacter), Identifier::from_str("мир"));
}

#[test]
fn print_empty_table() {
    assert_eq!("", print_table(&ItemTable::new()));
}

#[test]
fn print_parsed_items() {
    let parser = FileParser::new_test("pub struct P { x: i32 } fn f(a: i32) -> i32 { a }");
    let (result, _) = parser.parse();
    let parsed = result.ok().expect("parsing failed");
    let text = print_table(&parsed.item_table);
    let expected = "[crate::P]\nPUB STRUCT P @ 1:4/1:24\n    x: i32\n\n\
[crate::f]\nFN `f` @ 1:27/1:50\n    PARAMS\n        `a`: `i32`\n    RETURN `i32`\n    BODY\n        a\n\n\
[crate]\nPUB MOD crate; @ 1:1/1:50\n\n";
    assert_eq!(expected, text);
}
