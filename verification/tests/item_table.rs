use compiler::ast::Identifier;
use compiler::ast::Visibility;
use compiler::ast::item::{Item, ItemKind, Module, Span};
use compiler::input_stream::Location;
use compiler::item_table::ItemTable;
use compiler::path::AbsolutePath;

fn module(name: &str) -> Item {
    Item::new(
        ItemKind::Module(Module::Inline(Identifier(String::from(name)))),
        Span { source: None, start: Location::start(), end: Location::start() },
        Visibility::Public,
    )
}

fn root() -> AbsolutePath {
    AbsolutePath::new(Identifier(String::from("crate")))
}

#[test]
fn first_declaration_wins() {
    let mut table = ItemTable::new();
    table.declare(root(), module("m"));
    table.declare(root(), module("m"));
    table.declare(root(), module("n"));
    let paths: Vec<String> = table.iter().iter().map(|(p, _)| p.to_string()).collect();
    assert_eq!(vec!["crate::m", "crate::n"], paths);
    assert_eq!(1, table.duplicated().len());
    assert_eq!("crate::m", table.duplicated()[0].0.to_string());
    assert_eq!(2, table.items().len());
}

#[test]
fn anonymous_declaration_uses_the_scope() {
    let mut table = ItemTable::new();
    table.declare_anonymous(root(), module("crate"));
    assert_eq!("crate", table.iter()[0].0.to_string());
}

#[test]
fn extend_merges_tables() {
    let mut a = ItemTable::new();
    a.declare(root(), module("m"));
    let mut b = ItemTable::new();
    b.declare(root(), module("m"));
    b.declare(root(), module("k"));
    b.declare(root(), module("k"));
    a.extend(b);
    let paths: Vec<String> = a.iter().iter().map(|(p, _)| p.to_string()).collect();
    assert_eq!(vec!["crate::m", "crate::k"], paths);
    let dups: Vec<String> = a.duplicated().iter().map(|(p, _)| p.to_string()).collect();
    assert_eq!(vec!["crate::k", "crate::m"], dups);
    assert_eq!(2, a.into_entries().len());
}

#[test]
fn default_table_is_empty_and_entries_change_in_place() {
    let empty = ItemTable::default();
    assert_eq!(ItemTable::new(), empty);
    assert!(empty.iter().is_empty());
    assert!(empty.items().is_empty());
    let mut table = ItemTable::new();
    table.declare(root(), module("m"));
    for entry in table.iter_mut().iter_mut() {
        entry.1 = module("renamed");
    }
    assert_eq!(module("renamed"), table.iter()[0].1);
    assert!(table.duplicated().is_empty());
}

#[test]
fn module_file_follows_the_path_after_the_crate() {
    let mut path = root();
    path.push(Identifier(String::from("outer")));
    path.push(Identifier(String::from("inner")));
    assert_eq!(
        vec![String::from("outer"), String::from("inner")],
        compiler::path::module_file_segments(&path)
    );
    assert!(compiler::path::module_file_segments(&root()).is_empty());
}
