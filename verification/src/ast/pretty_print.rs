//! Printing of the items of a table as indented text.

use vstd::prelude::*;

use crate::ast::Visibility;
use crate::ast::expression::{Block, Expression, Literal};
use crate::ast::item::{Field, Function, Item, ItemKind, Module, Parameter, Span, Struct};
use crate::ast::statement::Statement;
use crate::item_table::{EntryView, ItemTable, entries_view};
use crate::lexer::number::Number;
use crate::path::{AbsolutePath, RelativePath, names};
use crate::text::{push_char, push_str};

verus! {

/// One line: the indentation, the text and a line break.
pub open spec fn line(pad: Seq<char>, text: Seq<char>) -> Seq<char> {
    pad + text + seq!['\n']
}

/// The indentation one level deeper than `pad`.
pub open spec fn deeper(pad: Seq<char>) -> Seq<char> {
    pad + "    "@
}

/// `text` between backquotes.
pub open spec fn quoted(text: Seq<char>) -> Seq<char> {
    seq!['`'] + text + seq!['`']
}

/// How an expression is printed at indentation `pad`.
pub open spec fn expr_text(e: Expression, pad: Seq<char>) -> Seq<char>
    decreases e,
{
    match e {
        Expression::Block(b) => block_text(b, pad),
        Expression::If { condition, body, else_body } => line(pad, "IF"@) + expr_text(
            *condition,
            deeper(pad),
        ) + line(pad, "THEN"@) + block_text(body, pad) + match else_body {
            Some(other) => line(pad, "ELSE"@) + block_text(other, pad),
            None => Seq::empty(),
        },
        Expression::While { condition, body } => line(pad, "WHILE"@) + expr_text(
            *condition,
            deeper(pad),
        ) + line(pad, "BODY"@) + block_text(body, pad),
        Expression::For { var, expr, body } => line(pad, "FOR "@ + quoted(var@)) + line(pad, "IN"@)
            + expr_text(*expr, deeper(pad)) + line(pad, "BODY"@) + block_text(body, pad),
        Expression::Unary { op, value } => line(
            pad,
            "UNARY "@ + quoted(op.spec_punctuation().spec_text()),
        ) + expr_text(*value, deeper(pad)),
        Expression::Binary { op, left, right } => line(
            pad,
            "BINARY "@ + quoted(op.spec_punctuation().spec_text()),
        ) + line(deeper(pad), "LEFT"@) + expr_text(*left, deeper(deeper(pad))) + line(
            deeper(pad),
            "RIGHT"@,
        ) + expr_text(*right, deeper(deeper(pad))),
        Expression::FnCall { path, params } => {
            proof {
                assert(decreases_to!(params => params@));
            }
            line(
                pad,
                "FNCALL "@ + quoted(RelativePath::spec_display(path.start, names(path.other@))),
            ) + exprs_text(params@, deeper(pad))
        },
        Expression::Var(v) => line(pad, v@),
        Expression::Literal(Literal::Number(n)) => line(pad, quoted(Number::spec_text(n@))),
        Expression::Literal(Literal::String(t)) => line(pad, quoted(seq!['"'] + t@ + seq!['"'])),
        Expression::Literal(Literal::Boolean(b)) => line(
            pad,
            if b {
                "`true`"@
            } else {
                "`false`"@
            },
        ),
    }
}

/// A binary expression prints as its operator line, then `LEFT` one level deeper with the
/// printing of its left operand two levels deeper, then `RIGHT` with the printing of its right
/// operand: the left operand always comes first, under `LEFT`.
pub proof fn law_binary_layout(op: crate::lexer::operator::BinaryOp, l: Expression, r: Expression, pad: Seq<char>)
    ensures
        ({
            let t = expr_text(Expression::Binary { op, left: Box::new(l), right: Box::new(r) }, pad);
            let head = line(pad, "BINARY "@ + quoted(op.spec_punctuation().spec_text()));
            let lt = expr_text(l, deeper(deeper(pad)));
            let rt = expr_text(r, deeper(deeper(pad)));
            let k = head.len() + line(deeper(pad), "LEFT"@).len();
            &&& t.take(k as int) == head + line(deeper(pad), "LEFT"@)
            &&& t.subrange(k as int, (k + lt.len()) as int) == lt
            &&& t.subrange((k + lt.len()) as int, (k + lt.len() + line(deeper(pad), "RIGHT"@).len()) as int) == line(
                deeper(pad),
                "RIGHT"@,
            )
            &&& t.skip((k + lt.len() + line(deeper(pad), "RIGHT"@).len()) as int) == rt
        }),
{
    let t = expr_text(Expression::Binary { op, left: Box::new(l), right: Box::new(r) }, pad);
    let head = line(pad, "BINARY "@ + quoted(op.spec_punctuation().spec_text()));
    let ll = line(deeper(pad), "LEFT"@);
    let rl = line(deeper(pad), "RIGHT"@);
    let lt = expr_text(l, deeper(deeper(pad)));
    let rt = expr_text(r, deeper(deeper(pad)));
    assert(t == head + ll + lt + rl + rt);
    let k = head.len() + ll.len();
    assert(t.take(k as int) =~= head + ll);
    assert(t.subrange(k as int, (k + lt.len()) as int) =~= lt);
    assert(t.subrange((k + lt.len()) as int, (k + lt.len() + rl.len()) as int) =~= rl);
    assert(t.skip((k + lt.len() + rl.len()) as int) =~= rt);
}

/// A unary expression prints its operand one level deeper after its operator line; a loop and
/// a conditional print their condition before their body.
pub proof fn law_operand_layout(e: Expression, pad: Seq<char>)
    ensures
        e matches Expression::Unary { op, value } ==> expr_text(e, pad).skip(
            line(pad, "UNARY "@ + quoted(op.spec_punctuation().spec_text())).len() as int,
        ) == expr_text(*value, deeper(pad)),
        e matches Expression::While { condition, body } ==> expr_text(e, pad).subrange(
            line(pad, "WHILE"@).len() as int,
            (line(pad, "WHILE"@).len() + expr_text(*condition, deeper(pad)).len()) as int,
        ) == expr_text(*condition, deeper(pad)),
        e matches Expression::If { condition, .. } ==> expr_text(e, pad).subrange(
            line(pad, "IF"@).len() as int,
            (line(pad, "IF"@).len() + expr_text(*condition, deeper(pad)).len()) as int,
        ) == expr_text(*condition, deeper(pad)),
{
    match e {
        Expression::Unary { op, value } => {
            let h = line(pad, "UNARY "@ + quoted(op.spec_punctuation().spec_text()));
            assert((h + expr_text(*value, deeper(pad))).skip(h.len() as int) =~= expr_text(*value, deeper(pad)));
        },
        Expression::While { condition, body } => {
            let h = line(pad, "WHILE"@);
            let c = expr_text(*condition, deeper(pad));
            let rest = line(pad, "BODY"@) + block_text(body, pad);
            assert(expr_text(e, pad) == h + c + rest);
            assert((h + c + rest).subrange(h.len() as int, (h.len() + c.len()) as int) =~= c);
        },
        Expression::If { condition, body, else_body } => {
            let h = line(pad, "IF"@);
            let c = expr_text(*condition, deeper(pad));
            let rest = line(pad, "THEN"@) + block_text(body, pad) + match else_body {
                Some(other) => line(pad, "ELSE"@) + block_text(other, pad),
                None => Seq::empty(),
            };
            assert(expr_text(e, pad) =~= h + c + rest);
            assert((h + c + rest).subrange(h.len() as int, (h.len() + c.len()) as int) =~= c);
        },
        _ => {},
    }
}

/// A conditional prints its condition under `IF`, then `THEN` and its body, then, if it has
/// one, `ELSE` and the other block, nothing after the body otherwise.
pub proof fn law_conditional_layout(c: Expression, body: Block, other: Option<Block>, pad: Seq<char>)
    ensures
        ({
            let t = expr_text(Expression::If { condition: Box::new(c), body, else_body: other }, pad);
            let k = line(pad, "IF"@).len() + expr_text(c, deeper(pad)).len() + line(pad, "THEN"@).len();
            let bt = block_text(body, pad);
            &&& t.subrange((k - line(pad, "THEN"@).len()) as int, k as int) == line(pad, "THEN"@)
            &&& t.subrange(k as int, (k + bt.len()) as int) == bt
            &&& t.skip((k + bt.len()) as int) == match other {
                Some(o) => line(pad, "ELSE"@) + block_text(o, pad),
                None => Seq::<char>::empty(),
            }
        }),
{
    let h = line(pad, "IF"@);
    let ct = expr_text(c, deeper(pad));
    let th = line(pad, "THEN"@);
    let bt = block_text(body, pad);
    let tail = match other {
        Some(o) => line(pad, "ELSE"@) + block_text(o, pad),
        None => Seq::<char>::empty(),
    };
    let t = expr_text(Expression::If { condition: Box::new(c), body, else_body: other }, pad);
    assert(t =~= h + ct + th + bt + tail);
    let k = h.len() + ct.len() + th.len();
    assert(t.subrange((k - th.len()) as int, k as int) =~= th);
    assert(t.subrange(k as int, (k + bt.len()) as int) =~= bt);
    assert(t.skip((k + bt.len()) as int) =~= tail);
}

/// The expressions of `es` printed one after the other at indentation `pad`.
pub open spec fn exprs_text(es: Seq<Expression>, pad: Seq<char>) -> Seq<char>
    decreases es,
{
    if es.len() == 0 {
        Seq::empty()
    } else {
        exprs_text(es.subrange(0, es.len() - 1), pad) + expr_text(es[es.len() - 1], pad)
    }
}

/// How a block is printed at indentation `pad`: its statements, then its final expression, one
/// level deeper.
pub open spec fn block_text(b: Block, pad: Seq<char>) -> Seq<char>
    decreases b,
{
    proof {
        assert(decreases_to!(b.statements => b.statements@));
    }
    stmts_text(b.statements@, deeper(pad)) + match b.expression {
        Some(e) => expr_text(*e, deeper(pad)),
        None => Seq::empty(),
    }
}

/// The statements of `ss` printed one after the other at indentation `pad`.
pub open spec fn stmts_text(ss: Seq<Statement>, pad: Seq<char>) -> Seq<char>
    decreases ss,
{
    if ss.len() == 0 {
        Seq::empty()
    } else {
        stmts_text(ss.subrange(0, ss.len() - 1), pad) + stmt_text(ss[ss.len() - 1], pad)
    }
}

/// How a statement is printed at indentation `pad`.
pub open spec fn stmt_text(s: Statement, pad: Seq<char>) -> Seq<char>
    decreases s,
{
    match s {
        Statement::ExprStmt(e) => expr_text(e, pad),
        Statement::LetStmt(l) => line(
            pad,
            "LET "@ + quoted(l.name@) + match l.type_ {
                Some(t) => ": "@ + quoted(t@),
                None => Seq::empty(),
            },
        ) + match l.value {
            Some(v) => expr_text(*v, deeper(pad)),
            None => Seq::empty(),
        },
        Statement::Assignment { assignee, operator, expression } => line(pad, "ASSIGN"@) + line(
            deeper(pad),
            "ASSIGNEE "@ + quoted(assignee@),
        ) + line(deeper(pad), "OPERATOR "@ + quoted(operator.spec_punctuation().spec_text()))
            + line(pad, "VALUE"@) + expr_text(expression, deeper(pad)),
        Statement::Return(e) => line(pad, "RETURN"@) + expr_text(e, deeper(pad)),
        Statement::Break => line(pad, "BREAK"@),
    }
}

/// How the span of an item is shown: `@ START/END`.
pub open spec fn span_text(span: Span) -> Seq<char> {
    "@ "@ + span.start.spec_display() + seq!['/'] + span.end.spec_display()
}

/// The fields of a structure, one per line at indentation `pad`.
pub open spec fn fields_text(fs: Seq<Field>, pad: Seq<char>) -> Seq<char>
    decreases fs.len(),
{
    if fs.len() == 0 {
        Seq::empty()
    } else {
        fields_text(fs.subrange(0, fs.len() - 1), pad) + line(
            pad,
            fs[fs.len() - 1].name@ + ": "@ + fs[fs.len() - 1].type_@,
        )
    }
}

/// The parameters of a function, one per line at indentation `pad`.
pub open spec fn params_text(ps: Seq<Parameter>, pad: Seq<char>) -> Seq<char>
    decreases ps.len(),
{
    if ps.len() == 0 {
        Seq::empty()
    } else {
        params_text(ps.subrange(0, ps.len() - 1), pad) + line(
            pad,
            quoted(ps[ps.len() - 1].name@) + ": "@ + quoted(ps[ps.len() - 1].type_@),
        )
    }
}

/// How a structure is printed after its header line, with `span` the text of its span.
pub open spec fn struct_text(st: Struct, span: Seq<char>) -> Seq<char> {
    line(Seq::empty(), "STRUCT "@ + st.name@ + seq![' '] + span) + fields_text(
        st.fields@,
        deeper(Seq::empty()),
    )
}

/// How a function is printed after its header line, with `span` the text of its span.
pub open spec fn function_text(f: Function, span: Seq<char>) -> Seq<char> {
    let top = Seq::<char>::empty();
    line(top, "FN "@ + quoted(f.name@) + seq![' '] + span) + (if f.params@.len() > 0 {
        line(deeper(top), "PARAMS"@) + params_text(f.params@, deeper(deeper(top)))
    } else {
        Seq::empty()
    }) + match f.return_type {
        Some(r) => line(deeper(top), "RETURN "@ + quoted(r@)),
        None => Seq::empty(),
    } + line(deeper(top), "BODY"@) + block_text(f.body, deeper(top))
}

/// What follows the header line of an item of kind `kind` declared at `span`.
pub open spec fn kind_text(kind: ItemKind, span: Span) -> Seq<char> {
    match kind {
        ItemKind::Module(m) => "MOD "@ + match m {
            Module::Inline(name) => name@,
            Module::Loadable(name) => name@,
        } + "; "@ + span_text(span) + seq!['\n'],
        ItemKind::Struct(st) => struct_text(st, span_text(span)),
        ItemKind::Function(f) => function_text(f, span_text(span)),
    }
}

/// How the item `item` declared under `path` is printed: a header line with the path in
/// brackets, the item, and an empty line.
pub open spec fn item_text(path: Seq<Seq<char>>, item: Item) -> Seq<char> {
    line(Seq::empty(), "["@ + AbsolutePath::spec_text(path) + seq![']']) + (if item.visibility
        == Visibility::Public {
        "PUB "@
    } else {
        Seq::empty()
    }) + kind_text(item.kind, item.span) + seq!['\n']
}

/// The items of `entries` printed one after the other.
pub open spec fn table_text(entries: Seq<EntryView>) -> Seq<char>
    decreases entries.len(),
{
    if entries.len() == 0 {
        Seq::empty()
    } else {
        table_text(entries.subrange(0, entries.len() - 1)) + item_text(
            entries[entries.len() - 1].0,
            entries[entries.len() - 1].1,
        )
    }
}

/// The text of every item declared in the table, in the order they were declared.
///
/// Each item starts with its path in brackets and ends with an empty line; what an item holds is
/// indented by four spaces per level.
pub fn print_table(table: &ItemTable) -> (r: String)
    ensures
        r@ == table_text(table.spec_declared()),
{
    let mut printer = Printer { out: String::new(), pad: String::new() };
    let entries = table.iter();
    let ghost declared = table.spec_declared();
    let mut i: usize = 0;
    while i < entries.len()
        invariant
            i <= entries@.len(),
            entries_view(entries@) == declared,
            printer.pad@.len() == 0,
            printer.out@ == table_text(declared.subrange(0, i as int)),
        decreases entries@.len() - i,
    {
        printer.print_item(&entries[i].0, &entries[i].1);
        proof {
            let sub = declared.subrange(0, i + 1);
            assert(sub.subrange(0, i as int) =~= declared.subrange(0, i as int));
            assert(sub[i as int] == (entries@[i as int].0@, entries@[i as int].1));
        }
        i = i + 1;
    }
    proof {
        assert(declared.subrange(0, i as int) =~= declared);
    }
    printer.out
}

/// Writes lines of text with the current indentation.
struct Printer {
    out: String,
    /// The indentation of the current level.
    pad: String,
}

impl Printer {
    /// Writes the indentation, `text` and a line break.
    fn println(&mut self, text: &str)
        ensures
            final(self).out@ == old(self).out@ + line(old(self).pad@, text@),
            final(self).pad@ == old(self).pad@,
    {
        push_str(&mut self.out, self.pad.as_str());
        push_str(&mut self.out, text);
        push_char(&mut self.out, '\n');
        proof {
            assert(self.out@ =~= old(self).out@ + line(old(self).pad@, text@));
        }
    }

    /// Writes a line break.
    fn newline(&mut self)
        ensures
            final(self).out@ == old(self).out@.push('\n'),
            final(self).pad@ == old(self).pad@,
    {
        push_char(&mut self.out, '\n');
    }

    /// Writes `text` as it is.
    fn write(&mut self, text: &str)
        ensures
            final(self).out@ == old(self).out@ + text@,
            final(self).pad@ == old(self).pad@,
    {
        push_str(&mut self.out, text);
    }

    /// Goes one level deeper, and gives the indentation to come back to.
    fn indent(&mut self) -> (saved: String)
        ensures
            saved@ == old(self).pad@,
            final(self).pad@ == deeper(old(self).pad@),
            final(self).out@ == old(self).out@,
    {
        let saved = self.pad.clone();
        push_str(&mut self.pad, "    ");
        saved
    }

    /// Comes back to the indentation `saved`.
    fn dedent(&mut self, saved: String)
        ensures
            final(self).pad@ == saved@,
            final(self).out@ == old(self).out@,
    {
        self.pad = saved;
    }

    /// Writes an item: its path, visibility, kind, name and span, then what it holds.
    fn print_item(&mut self, path: &AbsolutePath, item: &Item)
        requires
            old(self).pad@.len() == 0,
        ensures
            final(self).out@ == old(self).out@ + item_text(path@, *item),
            final(self).pad@ == old(self).pad@,
    {
        let ghost start = self.out@;
        let mut header = "[".to_owned();
        let p = path.to_string();
        push_str(&mut header, p.as_str());
        push_char(&mut header, ']');
        self.println(header.as_str());
        if item.visibility == Visibility::Public {
            self.write("PUB ");
        }
        let ghost before_kind = self.out@;
        let mut span = "@ ".to_owned();
        let start_text = item.span.start.to_string();
        push_str(&mut span, start_text.as_str());
        push_char(&mut span, '/');
        let end_text = item.span.end.to_string();
        push_str(&mut span, end_text.as_str());
        proof {
            assert(span@ =~= span_text(item.span));
        }
        match &item.kind {
            ItemKind::Module(module) => {
                let name = match module {
                    Module::Inline(name) => name,
                    Module::Loadable(name) => name,
                };
                let mut text = "MOD ".to_owned();
                push_str(&mut text, name.as_str());
                push_str(&mut text, "; ");
                push_str(&mut text, span.as_str());
                push_char(&mut text, '\n');
                self.write(text.as_str());
                proof {
                    assert(self.out@ =~= before_kind + kind_text(item.kind, item.span));
                }
            },
            ItemKind::Struct(s) => {
                self.print_struct(s, span.as_str());
            },
            ItemKind::Function(func) => {
                self.print_function(func, span.as_str());
            },
        }
        let ghost after_kind = self.out@;
        self.newline();
        proof {
            assert(self.pad@ =~= Seq::<char>::empty());
            assert(before_kind =~= start + line(
                Seq::empty(),
                "["@ + AbsolutePath::spec_text(path@) + seq![']'],
            ) + (if item.visibility == Visibility::Public {
                "PUB "@
            } else {
                Seq::empty()
            }));
            assert(self.out@ =~= after_kind + seq!['\n']);
            assert(self.out@ =~= start + item_text(path@, *item));
        }
    }

    /// Writes a structure and its fields.
    fn print_struct(&mut self, s: &Struct, span: &str)
        requires
            old(self).pad@.len() == 0,
        ensures
            final(self).out@ == old(self).out@ + struct_text(*s, span@),
            final(self).pad@ == old(self).pad@,
    {
        let ghost start = self.out@;
        let ghost top = self.pad@;
        proof {
            assert(top =~= Seq::<char>::empty());
        }
        let mut text = "STRUCT ".to_owned();
        push_str(&mut text, s.name.as_str());
        push_char(&mut text, ' ');
        push_str(&mut text, span);
        self.println(text.as_str());
        let saved = self.indent();
        let ghost head = self.out@;
        let mut i: usize = 0;
        while i < s.fields.len()
            invariant
                i <= s.fields@.len(),
                self.pad@ == deeper(top),
                self.out@ == head + fields_text(s.fields@.subrange(0, i as int), deeper(top)),
            decreases s.fields@.len() - i,
        {
            let mut text = s.fields[i].name.as_str().to_owned();
            push_str(&mut text, ": ");
            push_str(&mut text, s.fields[i].type_.as_str());
            self.println(text.as_str());
            proof {
                let sub = s.fields@.subrange(0, i + 1);
                assert(sub.subrange(0, i as int) =~= s.fields@.subrange(0, i as int));
                assert(self.out@ =~= head + fields_text(sub, deeper(top)));
            }
            i = i + 1;
        }
        self.dedent(saved);
        proof {
            assert(s.fields@.subrange(0, i as int) =~= s.fields@);
            assert(self.out@ =~= start + struct_text(*s, span@));
        }
    }

    /// Writes the parameters of a function, one level deeper.
    fn print_params(&mut self, params: &Vec<Parameter>)
        ensures
            final(self).out@ == old(self).out@ + params_text(params@, deeper(old(self).pad@)),
            final(self).pad@ == old(self).pad@,
    {
        let ghost pad = self.pad@;
        let inner = self.indent();
        let ghost head = self.out@;
        let mut i: usize = 0;
        while i < params.len()
            invariant
                i <= params@.len(),
                self.pad@ == deeper(pad),
                self.out@ == head + params_text(params@.subrange(0, i as int), deeper(pad)),
            decreases params@.len() - i,
        {
            let mut text = "`".to_owned();
            push_str(&mut text, params[i].name.as_str());
            push_str(&mut text, "`: `");
            push_str(&mut text, params[i].type_.as_str());
            push_char(&mut text, '`');
            proof {
                assert(text@ =~= quoted(params@[i as int].name@) + ": "@ + quoted(
                    params@[i as int].type_@,
                )) by {
                    reveal_strlit("`");
                    reveal_strlit("`: `");
                    reveal_strlit(": ");
                }
            }
            self.println(text.as_str());
            proof {
                let sub = params@.subrange(0, i + 1);
                assert(sub.subrange(0, i as int) =~= params@.subrange(0, i as int));
                assert(self.out@ =~= head + params_text(sub, deeper(pad)));
            }
            i = i + 1;
        }
        self.dedent(inner);
        proof {
            assert(params@.subrange(0, i as int) =~= params@);
        }
    }

    /// Writes a function: its name, parameters, return type and body.
    fn print_function(&mut self, func: &Function, span: &str)
        requires
            old(self).pad@.len() == 0,
        ensures
            final(self).out@ == old(self).out@ + function_text(*func, span@),
            final(self).pad@ == old(self).pad@,
    {
        let ghost start = self.out@;
        let ghost top = self.pad@;
        proof {
            assert(top =~= Seq::<char>::empty());
        }
        let mut text = "FN `".to_owned();
        push_str(&mut text, func.name.as_str());
        push_str(&mut text, "` ");
        push_str(&mut text, span);
        proof {
            assert(text@ =~= "FN "@ + quoted(func.name@) + seq![' '] + span@) by {
                reveal_strlit("FN `");
                reveal_strlit("FN ");
                reveal_strlit("` ");
            }
        }
        self.println(text.as_str());
        let ghost after_header = self.out@;
        let saved = self.indent();
        if func.params.len() > 0 {
            self.println("PARAMS");
            self.print_params(&func.params);
        }
        let ghost after_params = self.out@;
        proof {
            assert(after_params =~= after_header + (if func.params@.len() > 0 {
                line(deeper(top), "PARAMS"@) + params_text(func.params@, deeper(deeper(top)))
            } else {
                Seq::empty()
            }));
        }
        match &func.return_type {
            Some(ret) => {
                let mut text = "RETURN `".to_owned();
                push_str(&mut text, ret.as_str());
                push_char(&mut text, '`');
                proof {
                    assert(text@ =~= "RETURN "@ + quoted(ret@)) by {
                        reveal_strlit("RETURN `");
                        reveal_strlit("RETURN ");
                    }
                }
                self.println(text.as_str());
            },
            None => {},
        }
        let ghost after_return = self.out@;
        proof {
            assert(after_return =~= after_params + match func.return_type {
                Some(r) => line(deeper(top), "RETURN "@ + quoted(r@)),
                None => Seq::empty(),
            });
        }
        self.println("BODY");
        self.print_block(&func.body);
        self.dedent(saved);
        proof {
            assert(self.out@ =~= after_return + line(deeper(top), "BODY"@) + block_text(
                func.body,
                deeper(top),
            ));
            assert(self.out@ =~= start + function_text(*func, span@));
        }
    }

    /// Writes a statement.
    fn print_stmt(&mut self, stmt: &Statement)
        ensures
            final(self).out@ == old(self).out@ + stmt_text(*stmt, old(self).pad@),
            final(self).pad@ == old(self).pad@,
        decreases stmt,
    {
        let ghost start = self.out@;
        let ghost pad = self.pad@;
        match stmt {
            Statement::ExprStmt(expr) => {
                self.print_expr(expr);
            },
            Statement::LetStmt(l) => {
                let mut text = "LET `".to_owned();
                push_str(&mut text, l.name.as_str());
                push_char(&mut text, '`');
                match &l.type_ {
                    Some(t) => {
                        push_str(&mut text, ": `");
                        push_str(&mut text, t.as_str());
                        push_char(&mut text, '`');
                    },
                    None => {},
                }
                proof {
                    assert(text@ =~= "LET "@ + quoted(l.name@) + match l.type_ {
                        Some(t) => ": "@ + quoted(t@),
                        None => Seq::empty(),
                    }) by {
                        reveal_strlit("LET `");
                        reveal_strlit("LET ");
                        reveal_strlit(": `");
                        reveal_strlit(": ");
                    }
                }
                self.println(text.as_str());
                let ghost head = self.out@;
                match &l.value {
                    Some(value) => {
                        let saved = self.indent();
                        self.print_expr(value);
                        self.dedent(saved);
                    },
                    None => {},
                }
                proof {
                    assert(self.out@ =~= start + stmt_text(*stmt, pad));
                }
            },
            Statement::Assignment { assignee, operator, expression } => {
                self.println("ASSIGN");
                let saved = self.indent();
                let mut text = "ASSIGNEE `".to_owned();
                push_str(&mut text, assignee.as_str());
                push_char(&mut text, '`');
                proof {
                    assert(text@ =~= "ASSIGNEE "@ + quoted(assignee@)) by {
                        reveal_strlit("ASSIGNEE `");
                        reveal_strlit("ASSIGNEE ");
                    }
                }
                self.println(text.as_str());
                let mut text = "OPERATOR `".to_owned();
                let op = operator.to_string();
                push_str(&mut text, op.as_str());
                push_char(&mut text, '`');
                proof {
                    assert(text@ =~= "OPERATOR "@ + quoted(operator.spec_punctuation().spec_text())) by {
                        reveal_strlit("OPERATOR `");
                        reveal_strlit("OPERATOR ");
                    }
                }
                self.println(text.as_str());
                self.dedent(saved);
                let ghost head = self.out@;
                self.println("VALUE");
                let saved = self.indent();
                self.print_expr(expression);
                self.dedent(saved);
                proof {
                    assert(self.out@ =~= head + line(pad, "VALUE"@) + expr_text(*expression, deeper(pad)));
                    assert(self.out@ =~= start + stmt_text(*stmt, pad));
                }
            },
            Statement::Return(expr) => {
                self.println("RETURN");
                let saved = self.indent();
                self.print_expr(expr);
                self.dedent(saved);
                proof {
                    assert(self.out@ =~= start + stmt_text(*stmt, pad));
                }
            },
            Statement::Break => {
                self.println("BREAK");
            },
        }
    }

    /// Writes an expression: a leaf on one line, anything else on a first line that names it,
    /// followed by its parts one level deeper.
    fn print_expr(&mut self, expr: &Expression)
        ensures
            final(self).out@ == old(self).out@ + expr_text(*expr, old(self).pad@),
            final(self).pad@ == old(self).pad@,
        decreases expr,
    {
        let ghost start = self.out@;
        let ghost pad = self.pad@;
        match expr {
            Expression::Block(block) => {
                self.print_block(block);
            },
            Expression::If { condition, body, else_body } => {
                self.println("IF");
                let saved = self.indent();
                self.print_expr(condition);
                self.dedent(saved);
                self.println("THEN");
                self.print_block(body);
                let ghost head = self.out@;
                proof {
                    assert(head =~= start + line(pad, "IF"@) + expr_text(**condition, deeper(pad))
                        + line(pad, "THEN"@) + block_text(*body, pad));
                }
                match else_body {
                    Some(else_body) => {
                        self.println("ELSE");
                        self.print_block(else_body);
                    },
                    None => {},
                }
                proof {
                    assert(self.out@ =~= start + expr_text(*expr, pad));
                }
            },
            Expression::While { condition, body } => {
                self.println("WHILE");
                let saved = self.indent();
                self.print_expr(condition);
                self.dedent(saved);
                self.println("BODY");
                self.print_block(body);
                proof {
                    assert(self.out@ =~= start + expr_text(*expr, pad));
                }
            },
            Expression::For { var, expr: iterated, body } => {
                let mut text = "FOR `".to_owned();
                push_str(&mut text, var.as_str());
                push_char(&mut text, '`');
                proof {
                    assert(text@ =~= "FOR "@ + quoted(var@)) by {
                        reveal_strlit("FOR `");
                        reveal_strlit("FOR ");
                    }
                }
                self.println(text.as_str());
                self.println("IN");
                let saved = self.indent();
                self.print_expr(iterated);
                self.dedent(saved);
                let ghost head = self.out@;
                self.println("BODY");
                self.print_block(body);
                proof {
                    assert(head =~= start + line(pad, "FOR "@ + quoted(var@)) + line(pad, "IN"@)
                        + expr_text(**iterated, deeper(pad)));
                    assert(self.out@ =~= start + expr_text(*expr, pad));
                }
            },
            Expression::Literal(Literal::Number(num)) => {
                let mut text = String::new();
                push_char(&mut text, '`');
                let n = num.to_string();
                push_str(&mut text, n.as_str());
                push_char(&mut text, '`');
                proof {
                    assert(text@ =~= quoted(Number::spec_text(num@)));
                }
                self.println(text.as_str());
            },
            Expression::Literal(Literal::String(s)) => {
                let mut text = String::new();
                push_char(&mut text, '`');
                push_char(&mut text, '"');
                push_str(&mut text, s.as_str());
                push_char(&mut text, '"');
                push_char(&mut text, '`');
                proof {
                    assert(text@ =~= quoted(seq!['"'] + s@ + seq!['"']));
                }
                self.println(text.as_str());
            },
            Expression::Literal(Literal::Boolean(true)) => {
                self.println("`true`");
            },
            Expression::Literal(Literal::Boolean(false)) => {
                self.println("`false`");
            },
            Expression::Var(var) => {
                self.println(var.as_str());
            },
            Expression::Unary { op, value } => {
                let mut text = "UNARY `".to_owned();
                let o = op.to_string();
                push_str(&mut text, o.as_str());
                push_char(&mut text, '`');
                proof {
                    assert(text@ =~= "UNARY "@ + quoted(op.spec_punctuation().spec_text())) by {
                        reveal_strlit("UNARY `");
                        reveal_strlit("UNARY ");
                    }
                }
                self.println(text.as_str());
                let saved = self.indent();
                self.print_expr(value);
                self.dedent(saved);
                proof {
                    assert(self.out@ =~= start + expr_text(*expr, pad));
                }
            },
            Expression::Binary { op, left, right } => {
                let mut text = "BINARY `".to_owned();
                let o = op.to_string();
                push_str(&mut text, o.as_str());
                push_char(&mut text, '`');
                proof {
                    assert(text@ =~= "BINARY "@ + quoted(op.spec_punctuation().spec_text())) by {
                        reveal_strlit("BINARY `");
                        reveal_strlit("BINARY ");
                    }
                }
                self.println(text.as_str());
                let saved = self.indent();
                self.println("LEFT");
                let inner = self.indent();
                self.print_expr(left);
                self.dedent(inner);
                let ghost head = self.out@;
                self.println("RIGHT");
                let inner = self.indent();
                self.print_expr(right);
                self.dedent(inner);
                self.dedent(saved);
                proof {
                    assert(head =~= start + line(pad, "BINARY "@ + quoted(op.spec_punctuation().spec_text()))
                        + line(deeper(pad), "LEFT"@) + expr_text(**left, deeper(deeper(pad))));
                    assert(self.out@ =~= start + expr_text(*expr, pad));
                }
            },
            Expression::FnCall { path, params } => {
                let mut text = "FNCALL `".to_owned();
                let p = path.to_string();
                push_str(&mut text, p.as_str());
                push_char(&mut text, '`');
                proof {
                    assert(text@ =~= "FNCALL "@ + quoted(
                        RelativePath::spec_display(path.start, names(path.other@)),
                    )) by {
                        reveal_strlit("FNCALL `");
                        reveal_strlit("FNCALL ");
                    }
                }
                self.println(text.as_str());
                let saved = self.indent();
                let ghost head = self.out@;
                let mut i: usize = 0;
                while i < params.len()
                    invariant
                        i <= params@.len(),
                        *expr == (Expression::FnCall { path: *path, params: *params }),
                        self.pad@ == deeper(pad),
                        self.out@ == head + exprs_text(params@.subrange(0, i as int), deeper(pad)),
                    decreases params@.len() - i,
                {
                    proof {
                        vstd::std_specs::vec::axiom_vec_index_decreases(*params, i as int);
                        assert(decreases_to!(*expr => (*expr)->params));
                    }
                    self.print_expr(&params[i]);
                    proof {
                        let sub = params@.subrange(0, i + 1);
                        assert(sub.subrange(0, i as int) =~= params@.subrange(0, i as int));
                        assert(self.out@ =~= head + exprs_text(sub, deeper(pad)));
                    }
                    i = i + 1;
                }
                self.dedent(saved);
                proof {
                    assert(params@.subrange(0, i as int) =~= params@);
                    assert(self.out@ =~= start + expr_text(*expr, pad));
                }
            },
        }
    }

    /// Writes the statements and final expression of a block, one level deeper.
    fn print_block(&mut self, block: &Block)
        ensures
            final(self).out@ == old(self).out@ + block_text(*block, old(self).pad@),
            final(self).pad@ == old(self).pad@,
        decreases block,
    {
        let ghost start = self.out@;
        let ghost pad = self.pad@;
        let saved = self.indent();
        let mut i: usize = 0;
        while i < block.statements.len()
            invariant
                i <= block.statements@.len(),
                self.pad@ == deeper(pad),
                self.out@ == start + stmts_text(block.statements@.subrange(0, i as int), deeper(pad)),
            decreases block.statements@.len() - i,
        {
            self.print_stmt(&block.statements[i]);
            proof {
                let sub = block.statements@.subrange(0, i + 1);
                assert(sub.subrange(0, i as int) =~= block.statements@.subrange(0, i as int));
                assert(self.out@ =~= start + stmts_text(sub, deeper(pad)));
            }
            i = i + 1;
        }
        proof {
            assert(block.statements@.subrange(0, i as int) =~= block.statements@);
        }
        let ghost head = self.out@;
        match &block.expression {
            Some(expr) => {
                self.print_expr(expr);
            },
            None => {},
        }
        self.dedent(saved);
        proof {
            assert(self.out@ =~= start + block_text(*block, pad));
        }
    }
}

} // verus!
