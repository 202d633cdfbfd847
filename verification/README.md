# compiler

Front end of a compiler for a small Rust-like language, verified with Verus: the input
stream, the lexer, the parser into an abstract syntax tree, the table of items, the printing of
items, and the translation into a typed high-level representation.

## Layout

- `src/text.rs`: characters, UTF-8 widths, decimal numerals.
- `src/input_stream.rs`: characters of a source text with their locations.
- `src/lexer/`: keywords, punctuation, operators, number literals, the token grammar as spec
  functions (`grammar.rs`) and the lexer that follows it (`reader.rs`, `util.rs`).
- `src/ast/`: the syntax tree and its printing.
- `src/parser/`: recursive descent parsing of files, infix and postfix forms of operator
  expressions, and the package parse, one file at a time.
- `src/item_table.rs`: items by path, the first declaration of a path winning.
- `src/hir/`: scopes, the type table and the translation of function bodies; `view.rs` gives
  the translated program as plain values, and `body.rs` states translation as spec functions
  (`tr_expr`, `tr_block`, `tr_stmt`, `tr_function`) that the executable code is proved to follow.
- `src/analysis/`: scopes of variables bound to type paths.
- `src/error/`, `src/context.rs`: reported problems and the compilation context.
- `app/main.rs`: the command line: reads files, drives the package parse, prints.
- `tests/`: tests run against the compiled library.

Every parsing function states that the lexer only moves forward, that a failure was reported
(unless a parenthesis does not match), and that it terminates. Each also states when it
succeeds and what it then gives, over token-level descriptions: operator expressions whose
operands are single tokens (`token_expression`) and assignments of them (`assignment_tokens`);
calls of paths standing alone, whose arguments may themselves be such calls
(`call_expression_at`, `path_call2_at`); statements and blocks (`block_tokens`); operands that
are blocks, `if`, `while` or `for`, whose conditions and iterables may be such calls, or calls of
paths (`path_call_at`); blocks whose statements or value may themselves be blocks, conditionals
and loops (`nested_block_tokens_at` in `parser/control.rs`, which function bodies follow);
structures, functions and the kind and contents of each item declared (`item_kind_of_rest`);
and files of items, each item recorded in the item table (`item_recorded`) and the file of each
`mod NAME;` left pending, in order (`Parser::file_read`, `files_added`).
What these descriptions leave out is parsed by the same code and not described: operator
expressions with an operand that is more than one token (a call or a block among other
operators), calls nested three deep, blocks, conditionals and loops nested two levels deep or
more, and items inside function bodies or inline modules at the level of the file.

Printing (`ast/pretty_print.rs`) states its output exactly, item by item and line by line.
Translation into the high-level representation states its result exactly: the typed tree or the
first error, with the ids given to variables; `HirBuilder::populate` states the type table, the
function mapping, the functions translated and the errors collected.
