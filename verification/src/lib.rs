//! Front end of a compiler for a small Rust-like language: input stream, lexer, parser into an
//! abstract syntax tree, item table and translation into a typed high-level representation.

pub mod text;
pub mod input_stream;
pub mod lexer;
pub mod ast;
pub mod hir;
pub mod error;
pub mod context;
pub mod path;
pub mod parser;
pub mod item_table;
pub mod analysis;
