//! Parsing stage of the compilation.

pub mod operator_expression;
pub mod expression;
pub mod item;
pub mod statement;
pub mod control;

use vstd::prelude::*;

use crate::ast::Identifier;
use crate::ast::item::{Item, ItemKind, Span};
use crate::ast::Visibility;
use crate::context::Context;
use crate::error::Error;
use crate::input_stream::{InputStream, Location, SourceId};
use crate::item_table::{ItemTable, clashing_entries, fresh_entries};
use crate::error::ExpectedToken;
use crate::error::library::spec_token_mismatch;
use crate::lexer::keyword::Keyword;
use crate::lexer::operator::{AssignOp, BinaryOp, UnaryOp};
use crate::lexer::punctuation::Punctuation;
use crate::lexer::{Lexer, LexerError, SpecLexerError, SpecToken, Token};
use crate::path::AbsolutePath;

verus! {

broadcast use crate::lexer::Lexer::lemma_token_now;

/// Error that has occurred during parsing.
#[derive(Debug, PartialEq, Eq)]
pub enum ParserError {
    /// A token that does not fit; the problem was reported.
    UnexpectedToken(Token),
    /// Input ended too early.
    UnexpectedEof,
    /// An operator expression was expected.
    ExpectedExpression,
    /// An operator expression left a parenthesis open, or closed one it did not open.
    UnclosedParenthesis,
    /// A token could not be read; the problem was reported.
    LexerError(LexerError),
    /// Parsing failed; the problem was reported.
    ParserError,
}

/// A file that is still to be parsed.
#[derive(Debug, PartialEq, Eq)]
pub enum PendingFile {
    /// The file of a module, found at the default place for its path.
    General(AbsolutePath),
    /// A file at a given place, holding the module at `scope`.
    Specific { scope: AbsolutePath, path: String },
}

/// Result of the file parse.
pub struct ParsedFile {
    pub item_table: ItemTable,
    pub pending: Vec<PendingFile>,
}

/// Interface to parse a single file into an [ItemTable].
pub struct FileParser {
    pub item_table: ItemTable,
    pub lexer: Lexer,
    pub scope: AbsolutePath,
    pub pending: Vec<PendingFile>,
}

/// A sequence is a beginning of another.
pub open spec fn prefix_of<T>(a: Seq<T>, b: Seq<T>) -> bool {
    a.len() <= b.len() && b.subrange(0, a.len() as int) == a
}

pub proof fn lemma_prefix_of_trans<T>(a: Seq<T>, b: Seq<T>, c: Seq<T>)
    requires
        prefix_of(a, b),
        prefix_of(b, c),
    ensures
        prefix_of(a, c),
{
    assert(c.subrange(0, a.len() as int) =~= b.subrange(0, a.len() as int));
}

pub proof fn lemma_prefix_of_refl<T>(a: Seq<T>)
    ensures
        prefix_of(a, a),
{
    assert(a.subrange(0, a.len() as int) =~= a);
}

impl FileParser {
    /// Path of the module being parsed.
    pub open spec fn spec_scope(&self) -> Seq<Seq<char>> {
        self.scope@
    }

    /// Files found so far that are still to be parsed.
    pub open spec fn spec_pending(&self) -> Seq<PendingFile> {
        self.pending@
    }

    pub open spec fn wf(&self) -> bool {
        &&& self.lexer.wf()
        &&& self.item_table.wf()
    }

    /// Problems reported so far.
    pub open spec fn errors(&self) -> Seq<Error> {
        self.lexer.spec_errors()
    }

    /// `b` is `a` after reading on: the lexer continued, nothing was unread, the scope is back
    /// where it was, and pending files, declared items and duplicates were only added to.
    pub open spec fn advanced(a: &FileParser, b: &FileParser) -> bool {
        &&& b.wf()
        &&& Lexer::continues(&a.lexer, &b.lexer)
        &&& b.lexer.remaining() <= a.lexer.remaining()
        &&& b.spec_scope() == a.spec_scope()
        &&& prefix_of(a.spec_pending(), b.spec_pending())
        &&& prefix_of(a.item_table.spec_declared(), b.item_table.spec_declared())
        &&& prefix_of(a.item_table.spec_duplicated(), b.item_table.spec_duplicated())
    }

    /// A failure was reported, unless it is a parenthesis that does not match; and it is never
    /// a missing expression.
    pub open spec fn reported<T>(a: &FileParser, b: &FileParser, r: Result<T, ParserError>) -> bool {
        r matches Err(e) ==> (e is UnclosedParenthesis || b.errors().len() > a.errors().len())
            && !(e is ExpectedExpression)
    }

    /// A success read at least one token other than the end of input.
    pub open spec fn consumed<T>(a: &FileParser, b: &FileParser, r: Result<T, ParserError>) -> bool {
        r is Ok ==> b.lexer.remaining() < a.lexer.remaining()
    }

    pub proof fn lemma_advanced_refl(a: &FileParser)
        requires
            a.wf(),
        ensures
            FileParser::advanced(a, a),
    {
        Lexer::lemma_continues_refl(&a.lexer);
        lemma_prefix_of_refl(a.spec_pending());
        lemma_prefix_of_refl(a.item_table.spec_declared());
        lemma_prefix_of_refl(a.item_table.spec_duplicated());
    }

    pub broadcast proof fn lemma_advanced_trans(a: &FileParser, b: &FileParser, c: &FileParser)
        requires
            #[trigger] FileParser::advanced(a, b),
            #[trigger] FileParser::advanced(b, c),
        ensures
            FileParser::advanced(a, c),
    {
        Lexer::lemma_continues_trans(&a.lexer, &b.lexer, &c.lexer);
        lemma_prefix_of_trans(a.spec_pending(), b.spec_pending(), c.spec_pending());
        lemma_prefix_of_trans(
            a.item_table.spec_declared(),
            b.item_table.spec_declared(),
            c.item_table.spec_declared(),
        );
        lemma_prefix_of_trans(
            a.item_table.spec_duplicated(),
            b.item_table.spec_duplicated(),
            c.item_table.spec_duplicated(),
        );
    }

    /// A parser of the module at `scope`, reading with `lexer`.
    pub fn new(lexer: Lexer, scope: AbsolutePath) -> (r: FileParser)
        requires
            lexer.wf(),
        ensures
            r.wf(),
            r.lexer == lexer,
            r.spec_scope() == scope@,
            r.spec_pending().len() == 0,
            r.item_table.spec_declared().len() == 0,
            r.item_table.spec_duplicated().len() == 0,
    {
        FileParser { item_table: ItemTable::new(), lexer, scope, pending: Vec::new() }
    }

    /// A parser of `src` as the root module of crate `crate`, with the test context.
    pub fn new_test(src: &str) -> (r: FileParser)
        ensures
            r.wf(),
            r.lexer.spec_rest() == src@,
            r.lexer.spec_current() is None,
            r.errors().len() == 0,
            r.spec_scope() == seq![seq!['c', 'r', 'a', 't', 'e']],
            r.spec_pending().len() == 0,
            r.item_table.spec_declared().len() == 0,
            r.item_table.spec_duplicated().len() == 0,
    {
        let name = Identifier(crate::text::string_of(&['c', 'r', 'a', 't', 'e']));
        FileParser::new(Lexer::new_test(src), AbsolutePath::new(name))
    }

    /// Current location of the cursor.
    pub fn location(&self) -> (r: Location)
        requires
            self.wf(),
        ensures
            r.spec_index() == self.lexer.spec_input().spec_index(),
    {
        self.lexer.location()
    }

    /// Id of the file being parsed, if any.
    pub fn source(&self) -> (r: Option<SourceId>)
        ensures
            r == self.lexer.spec_input().spec_source(),
    {
        self.lexer.source()
    }

    /// Reports an error from `start` to the current location.
    pub fn report(&mut self, start: Location, message: String)
        requires
            old(self).wf(),
        ensures
            final(self).spec_pending() == old(self).spec_pending(),
            FileParser::advanced(old(self), final(self)),
            final(self).lexer.spec_rest() == old(self).lexer.spec_rest(),
            final(self).lexer.spec_current() == old(self).lexer.spec_current(),
            final(self).lexer.lookahead() == old(self).lexer.lookahead(),
            final(self).errors().len() == old(self).errors().len() + 1,
            final(self).errors().last().message@ == message@,
            FileParser::skipped(old(self), final(self), 0),
    {
        self.lexer.report_error(start, message);
        proof {
            lemma_prefix_of_refl(self.spec_pending());
            lemma_prefix_of_refl(self.item_table.spec_declared());
            lemma_prefix_of_refl(self.item_table.spec_duplicated());
        }
    }

    /// Parses the whole file as the module at the parser's scope.
    ///
    /// The module is declared, as a public inline module named after the last segment of the
    /// scope, under the scope itself. Files of modules declared by `mod NAME;` are handed back
    /// as pending, whether parsing succeeds or not, and so is the context with what was reported.
    /// A file whose tokens are items as [top_tokens](crate::parser::item::top_tokens) has them
    /// up to the end of input is parsed.
    pub fn parse(self) -> (r: (Result<ParsedFile, (ParserError, Vec<PendingFile>)>, Context))
        requires
            self.wf(),
            self.spec_scope().len() > 0,
        ensures
            r.1.metadata == self.lexer.spec_context().metadata,
            prefix_of(self.errors(), r.1.error_reporter.spec_errors()),
            match r.0 {
                Ok(parsed) => {
                    &&& parsed.item_table.wf()
                    &&& parsed.item_table.spec_lookup(self.spec_scope()) is Some
                    &&& prefix_of(self.item_table.spec_declared(), parsed.item_table.spec_declared())
                    &&& prefix_of(self.spec_pending(), parsed.pending@)
                },
                Err((e, pending)) => {
                    &&& prefix_of(self.spec_pending(), pending@)
                    &&& (e is UnclosedParenthesis || r.1.error_reporter.spec_errors().len()
                        > self.errors().len())
                },
            },
            (exists|lens: Seq<nat>| #[trigger] crate::parser::item::top_tokens(&self, lens)) ==> r.0 is Ok,
            forall|lens: Seq<nat>|
                #[trigger] crate::parser::item::top_tokens(&self, lens) ==> r.0 is Ok
                    && crate::parser::item::files_added(
                    self.spec_pending(),
                    r.0->Ok_0.pending@,
                    crate::parser::item::module_files(&self, self.spec_scope(), lens),
                ),
            forall|lens: Seq<nat>, i: int|
                crate::parser::item::top_tokens(&self, lens) && 0 <= i < lens.len() ==> r.0 is Ok
                    && #[trigger] crate::parser::item::item_recorded(
                    &self,
                    self.spec_scope(),
                    r.0->Ok_0.item_table,
                    crate::parser::expression::lens_sum(lens.take(i)),
                ),
    {
        let ghost init = self;
        let mut this = self;
        let start = this.location();
        let name = this.scope.last().duplicate();
        let res = this.parse_top_module(name);
        match res {
            Ok(module) => {
                let end = this.location();
                let item = Item::new(
                    ItemKind::Module(module),
                    Span { source: this.source(), start, end },
                    Visibility::Public,
                );
                let scope = this.scope.duplicate();
                let ghost t0 = this.item_table;
                this.item_table.declare_anonymous(scope, item);
                proof {
                    if t0.spec_lookup(this.spec_scope()) is Some {
                        assert(this.item_table.spec_declared() == t0.spec_declared());
                        lemma_prefix_of_refl(t0.spec_declared());
                    } else {
                        crate::item_table::lemma_lookup_push(
                            t0.spec_declared(),
                            (this.spec_scope(), item),
                            this.spec_scope(),
                        );
                        assert(t0.spec_declared().push((this.spec_scope(), item)).subrange(
                            0,
                            t0.spec_declared().len() as int,
                        ) =~= t0.spec_declared());
                    }
                    lemma_prefix_of_trans(
                        init.item_table.spec_declared(),
                        t0.spec_declared(),
                        this.item_table.spec_declared(),
                    );
                    let t1 = this.item_table;
                    if t0.spec_lookup(this.spec_scope()) is Some {
                        assert(t1.spec_duplicated().subrange(0, t0.spec_duplicated().len() as int)
                            =~= t0.spec_duplicated());
                    } else {
                        lemma_prefix_of_refl(t0.spec_duplicated());
                    }
                    assert forall|lens: Seq<nat>, i: int|
                        crate::parser::item::top_tokens(&init, lens) && 0 <= i < lens.len() implies #[trigger] crate::parser::item::item_recorded(
                        &init,
                        init.spec_scope(),
                        t1,
                        crate::parser::expression::lens_sum(lens.take(i)),
                    ) by {
                        crate::parser::item::lemma_recorded_grows(
                            &init,
                            init.spec_scope(),
                            t0,
                            t1,
                            crate::parser::expression::lens_sum(lens.take(i)),
                        );
                    }
                }
                let FileParser { item_table, lexer, scope: _, pending } = this;
                let context = lexer.into_context();
                (Ok(ParsedFile { item_table, pending }), context)
            },
            Err(e) => {
                let FileParser { item_table: _, lexer, scope: _, pending } = this;
                let context = lexer.into_context();
                (Err((e, pending)), context)
            },
        }
    }
}

/// Reading tokens, as the parsing functions see it.
impl FileParser {
    /// The `k`-th token from now, counting from zero.
    pub open spec fn tokens(&self, k: nat) -> Result<SpecToken, SpecLexerError> {
        self.lexer.tokens(k)
    }

    /// `b` reads `n` tokens further than `a`: what is `k` tokens ahead of `b` is `k + n` tokens
    /// ahead of `a`.
    pub open spec fn skipped(a: &FileParser, b: &FileParser, n: nat) -> bool {
        forall|k: nat| #[trigger] b.tokens(k) == a.tokens(k + n)
    }

    pub proof fn lemma_skipped_trans(a: &FileParser, b: &FileParser, c: &FileParser, m: nat, n: nat)
        requires
            FileParser::skipped(a, b, m),
            FileParser::skipped(b, c, n),
        ensures
            FileParser::skipped(a, c, m + n),
    {
        assert forall|k: nat| #[trigger] c.tokens(k) == a.tokens(k + (m + n)) by {
            assert(c.tokens(k) == b.tokens(k + n));
            assert(b.tokens((k + n) as nat) == a.tokens((k + n + m) as nat));
            assert((k + n + m) as nat == k + (m + n));
        }
    }

    /// `b` is `a` after the next token was looked at and, if `taken`, taken: nothing was reported,
    /// a token taken was read past, and a token not taken is still next.
    pub open spec fn looked(a: &FileParser, b: &FileParser, taken: bool) -> bool {
        &&& b.errors() == a.errors()
        &&& taken ==> b.lexer.remaining() < a.lexer.remaining()
        &&& !taken ==> b.lexer.lookahead().0 == a.lexer.lookahead().0
        &&& FileParser::skipped(a, b, if taken { 1 } else { 0 })
    }

    proof fn lemma_lexer_step(a: &FileParser, b: &FileParser)
        requires
            a.wf(),
            Lexer::continues(&a.lexer, &b.lexer),
            b.lexer.remaining() <= a.lexer.remaining(),
            b.item_table == a.item_table,
            b.scope == a.scope,
            b.pending == a.pending,
        ensures
            FileParser::advanced(a, b),
    {
        lemma_prefix_of_refl(a.spec_pending());
        lemma_prefix_of_refl(a.item_table.spec_declared());
        lemma_prefix_of_refl(a.item_table.spec_duplicated());
    }

    /// The path of the current scope.
    pub fn scope(&self) -> (r: AbsolutePath)
        ensures
            r@ == self.spec_scope(),
    {
        self.scope.duplicate()
    }

    /// Leaves `file` to be parsed later.
    pub fn push_pending(&mut self, file: PendingFile)
        requires
            old(self).wf(),
        ensures
            FileParser::advanced(old(self), final(self)),
            final(self).spec_pending() == old(self).spec_pending().push(file),
            final(self).lexer == old(self).lexer,
    {
        self.pending.push(file);
        proof {
            Lexer::lemma_continues_refl(&self.lexer);
            lemma_prefix_of_refl(self.item_table.spec_declared());
            lemma_prefix_of_refl(self.item_table.spec_duplicated());
            assert(self.spec_pending().subrange(0, old(self).spec_pending().len() as int)
                =~= old(self).spec_pending());
        }
    }

    /// Enters the module or function `name`: it becomes the last segment of the scope.
    pub fn enter(&mut self, name: Identifier)
        ensures
            final(self).spec_pending() == old(self).spec_pending(),
            final(self).spec_scope() == old(self).spec_scope().push(name@),
            final(self).lexer == old(self).lexer,
            final(self).item_table == old(self).item_table,
            final(self).spec_pending() == old(self).spec_pending(),
    {
        self.scope.push(name);
    }

    /// Leaves the module or function entered last.
    pub fn leave(&mut self)
        requires
            old(self).spec_scope().len() > 0,
        ensures
            final(self).spec_pending() == old(self).spec_pending(),
            final(self).spec_scope() == old(self).spec_scope().drop_last(),
            final(self).lexer == old(self).lexer,
            final(self).item_table == old(self).item_table,
            final(self).spec_pending() == old(self).spec_pending(),
    {
        let _ = self.scope.pop();
    }

    /// A parser in scope `a`'s scope extended by one segment, left again afterwards, advanced
    /// from `a`.
    pub proof fn lemma_subscope(a: &FileParser, a2: &FileParser, b2: &FileParser, b: &FileParser)
        requires
            a.wf(),
            a2.spec_scope() == a.spec_scope().push(b2.spec_scope().last()),
            a2.lexer == a.lexer,
            a2.item_table == a.item_table,
            a2.spec_pending() == a.spec_pending(),
            FileParser::advanced(a2, b2),
            b.spec_scope() == b2.spec_scope().drop_last(),
            b.lexer == b2.lexer,
            b.item_table == b2.item_table,
            b.spec_pending() == b2.spec_pending(),
        ensures
            FileParser::advanced(a, b),
            b.errors() == b2.errors(),
            a.errors() == a2.errors(),
    {
        assert(b.spec_scope() =~= a.spec_scope());
    }

    /// `b`'s table is `a`'s with `item` added under `key`: among the declared items if the key was
    /// free in `a`, among the duplicates otherwise.
    pub open spec fn declared_last(a: &FileParser, b: &FileParser, key: Seq<Seq<char>>, item: Item) -> bool {
        if a.item_table.spec_lookup(key) is Some {
            &&& b.item_table.spec_declared() == a.item_table.spec_declared()
            &&& b.item_table.spec_duplicated() == a.item_table.spec_duplicated().push((key, item))
        } else {
            &&& b.item_table.spec_declared() == a.item_table.spec_declared().push((key, item))
            &&& b.item_table.spec_duplicated() == a.item_table.spec_duplicated()
        }
    }

    /// Declares `item` under its name in the current scope.
    pub fn declare_item(&mut self, item: Item)
        requires
            old(self).wf(),
        ensures
            final(self).spec_pending() == old(self).spec_pending(),
            FileParser::advanced(old(self), final(self)),
            final(self).lexer == old(self).lexer,
            final(self).item_table.spec_lookup(old(self).spec_scope().push(item.spec_name()@)) is Some,
            FileParser::declared_last(old(self), final(self), old(self).spec_scope().push(item.spec_name()@), item),
    {
        let scope = self.scope.duplicate();
        let ghost t0 = self.item_table;
        let ghost key = self.spec_scope().push(item.spec_name()@);
        self.item_table.declare(scope, item);
        proof {
            lemma_prefix_of_refl(self.spec_pending());
            Lexer::lemma_continues_refl(&self.lexer);
            if t0.spec_lookup(key) is Some {
                lemma_prefix_of_refl(t0.spec_declared());
                assert(t0.spec_duplicated().push((key, item)).subrange(0, t0.spec_duplicated().len() as int) =~= t0.spec_duplicated());
            } else {
                lemma_prefix_of_refl(t0.spec_duplicated());
                assert(t0.spec_declared().push((key, item)).subrange(0, t0.spec_declared().len() as int) =~= t0.spec_declared());
                crate::item_table::lemma_lookup_push(t0.spec_declared(), (key, item), key);
            }
        }
    }

    /// Takes the next token.
    pub fn next_token(&mut self) -> (r: Result<Token, ParserError>)
        requires
            old(self).wf(),
        ensures
            final(self).spec_pending() == old(self).spec_pending(),
            old(self).tokens(0) == old(self).lexer.lookahead().0,
            FileParser::advanced(old(self), final(self)),
            FileParser::reported(old(self), final(self), r),
            final(self).lexer.spec_current() is None,
            match old(self).lexer.lookahead().0 {
                Ok(t) => r matches Ok(tok) && tok@ == t && final(self).errors() == old(self).errors()
                    && (t != SpecToken::Eof ==> final(self).lexer.remaining() < old(self).lexer.remaining()),
                Err(e) => r matches Err(ParserError::LexerError(x)) && x@ == e,
            },
            r is Ok ==> FileParser::skipped(old(self), final(self), 1),
    {
        let ghost a = *self;
        let r = self.lexer.next();
        proof {
            Lexer::lemma_took_remaining(&a.lexer, &self.lexer);
            Lexer::lemma_took_tokens(&a.lexer, &self.lexer);
            FileParser::lemma_lexer_step(&a, self);
        }
        match r {
            Ok(t) => Ok(t),
            Err(e) => Err(ParserError::LexerError(e)),
        }
    }

    /// Whether the next token is the punctuation `p`; nothing is taken.
    pub fn peek_punctuation(&mut self, p: Punctuation) -> (r: bool)
        requires
            old(self).wf(),
        ensures
            final(self).spec_pending() == old(self).spec_pending(),
            old(self).tokens(0) == old(self).lexer.lookahead().0,
            FileParser::advanced(old(self), final(self)),
            match old(self).lexer.lookahead().0 {
                Ok(t) => r == (t == SpecToken::Punctuation(p)) && FileParser::looked(
                    old(self),
                    final(self),
                    false,
                ),
                Err(_) => !r,
            },
    {
        let ghost a = *self;
        let r = self.lexer.peek_punctuation(p);
        proof {
            Lexer::lemma_peeked_remaining(&a.lexer, &self.lexer);
            if a.lexer.lookahead().0 is Ok {
                Lexer::lemma_peeked_tokens(&a.lexer, &self.lexer);
            }
            FileParser::lemma_lexer_step(&a, self);
        }
        r
    }

    /// Takes the next token, which was seen to be a token other than the end of input.
    pub fn skip(&mut self)
        requires
            old(self).wf(),
            old(self).lexer.lookahead().0 matches Ok(t) && t != SpecToken::Eof,
        ensures
            final(self).spec_pending() == old(self).spec_pending(),
            old(self).tokens(0) == old(self).lexer.lookahead().0,
            FileParser::advanced(old(self), final(self)),
            FileParser::looked(old(self), final(self), true),
    {
        let ghost a = *self;
        self.lexer.discard();
        proof {
            Lexer::lemma_took_remaining(&a.lexer, &self.lexer);
            Lexer::lemma_took_tokens(&a.lexer, &self.lexer);
            FileParser::lemma_lexer_step(&a, self);
        }
    }

    /// Whether the next token is the end of input; nothing is taken.
    pub fn is_eof(&mut self) -> (r: bool)
        requires
            old(self).wf(),
        ensures
            final(self).spec_pending() == old(self).spec_pending(),
            old(self).tokens(0) == old(self).lexer.lookahead().0,
            FileParser::advanced(old(self), final(self)),
            r == (old(self).lexer.lookahead().0 == Ok::<SpecToken, crate::lexer::SpecLexerError>(SpecToken::Eof)),
            old(self).lexer.lookahead().0 is Ok ==> FileParser::looked(old(self), final(self), false),
    {
        let ghost a = *self;
        let r = self.lexer.is_eof();
        proof {
            crate::lexer::grammar::lemma_read_token_progress(a.lexer.spec_rest());
            if a.lexer.lookahead().0 is Ok {
                Lexer::lemma_peeked_tokens(&a.lexer, &self.lexer);
            }
            FileParser::lemma_lexer_step(&a, self);
        }
        r
    }

    /// Takes the next token if it is the punctuation `p`, and tells whether it was.
    pub fn eat_punctuation(&mut self, p: Punctuation) -> (r: Result<bool, ParserError>)
        requires
            old(self).wf(),
        ensures
            final(self).spec_pending() == old(self).spec_pending(),
            old(self).tokens(0) == old(self).lexer.lookahead().0,
            FileParser::advanced(old(self), final(self)),
            FileParser::reported(old(self), final(self), r),
            match old(self).lexer.lookahead().0 {
                Ok(t) => r == Ok::<bool, ParserError>(t == SpecToken::Punctuation(p))
                    && FileParser::looked(old(self), final(self), t == SpecToken::Punctuation(p)),
                Err(e) => r matches Err(ParserError::LexerError(x)) && x@ == e,
            },
    {
        let ghost a = *self;
        let r = self.lexer.consume_punctuation(p);
        proof {
            if self.lexer.spec_current() is None {
                Lexer::lemma_took_remaining(&a.lexer, &self.lexer);
                Lexer::lemma_took_tokens(&a.lexer, &self.lexer);
            } else {
                Lexer::lemma_peeked_remaining(&a.lexer, &self.lexer);
                Lexer::lemma_peeked_tokens(&a.lexer, &self.lexer);
            }
            FileParser::lemma_lexer_step(&a, self);
        }
        match r {
            Ok(b) => Ok(b),
            Err(e) => Err(ParserError::LexerError(e)),
        }
    }

    /// Takes the next token if it is the keyword `k`, and tells whether it was.
    pub fn eat_keyword(&mut self, k: Keyword) -> (r: Result<bool, ParserError>)
        requires
            old(self).wf(),
        ensures
            final(self).spec_pending() == old(self).spec_pending(),
            old(self).tokens(0) == old(self).lexer.lookahead().0,
            FileParser::advanced(old(self), final(self)),
            FileParser::reported(old(self), final(self), r),
            match old(self).lexer.lookahead().0 {
                Ok(t) => r == Ok::<bool, ParserError>(t == SpecToken::Keyword(k))
                    && FileParser::looked(old(self), final(self), t == SpecToken::Keyword(k)),
                Err(e) => r matches Err(ParserError::LexerError(x)) && x@ == e,
            },
    {
        let ghost a = *self;
        let r = self.lexer.consume_keyword(k);
        proof {
            if self.lexer.spec_current() is None {
                Lexer::lemma_took_remaining(&a.lexer, &self.lexer);
                Lexer::lemma_took_tokens(&a.lexer, &self.lexer);
            } else {
                Lexer::lemma_peeked_remaining(&a.lexer, &self.lexer);
                Lexer::lemma_peeked_tokens(&a.lexer, &self.lexer);
            }
            FileParser::lemma_lexer_step(&a, self);
        }
        match r {
            Ok(b) => Ok(b),
            Err(e) => Err(ParserError::LexerError(e)),
        }
    }

    /// Takes the next token if it is an identifier, and gives it.
    pub fn eat_identifier(&mut self) -> (r: Result<Option<Identifier>, ParserError>)
        requires
            old(self).wf(),
        ensures
            final(self).spec_pending() == old(self).spec_pending(),
            old(self).tokens(0) == old(self).lexer.lookahead().0,
            FileParser::advanced(old(self), final(self)),
            FileParser::reported(old(self), final(self), r),
            match old(self).lexer.lookahead().0 {
                Ok(SpecToken::Identifier(name)) => r matches Ok(Some(id)) && id@ == name
                    && FileParser::looked(old(self), final(self), true),
                Ok(_) => r matches Ok(None) && FileParser::looked(old(self), final(self), false),
                Err(e) => r matches Err(ParserError::LexerError(x)) && x@ == e,
            },
    {
        let ghost a = *self;
        let r = self.lexer.consume_identifier();
        proof {
            if self.lexer.spec_current() is None {
                Lexer::lemma_took_remaining(&a.lexer, &self.lexer);
                Lexer::lemma_took_tokens(&a.lexer, &self.lexer);
            } else {
                Lexer::lemma_peeked_remaining(&a.lexer, &self.lexer);
                Lexer::lemma_peeked_tokens(&a.lexer, &self.lexer);
            }
            FileParser::lemma_lexer_step(&a, self);
        }
        match r {
            Ok(b) => Ok(b),
            Err(e) => Err(ParserError::LexerError(e)),
        }
    }

    /// Takes the next token if it denotes a unary operator, and gives the operator.
    pub fn eat_unary_operator(&mut self) -> (r: Result<Option<UnaryOp>, ParserError>)
        requires
            old(self).wf(),
        ensures
            final(self).spec_pending() == old(self).spec_pending(),
            old(self).tokens(0) == old(self).lexer.lookahead().0,
            FileParser::advanced(old(self), final(self)),
            FileParser::reported(old(self), final(self), r),
            match old(self).lexer.lookahead().0 {
                Ok(SpecToken::Punctuation(p)) => if exists|op: UnaryOp| op.spec_punctuation() == p {
                    r matches Ok(Some(op)) && op.spec_punctuation() == p && FileParser::looked(
                        old(self),
                        final(self),
                        true,
                    )
                } else {
                    r matches Ok(None) && FileParser::looked(old(self), final(self), false)
                },
                Ok(_) => r matches Ok(None) && FileParser::looked(old(self), final(self), false),
                Err(e) => r matches Err(ParserError::LexerError(x)) && x@ == e,
            },
    {
        let ghost a = *self;
        let r = self.lexer.consume_unary_operator();
        proof {
            if self.lexer.spec_current() is None {
                Lexer::lemma_took_remaining(&a.lexer, &self.lexer);
                Lexer::lemma_took_tokens(&a.lexer, &self.lexer);
            } else {
                Lexer::lemma_peeked_remaining(&a.lexer, &self.lexer);
                Lexer::lemma_peeked_tokens(&a.lexer, &self.lexer);
            }
            FileParser::lemma_lexer_step(&a, self);
        }
        match r {
            Ok(b) => Ok(b),
            Err(e) => Err(ParserError::LexerError(e)),
        }
    }

    /// Takes the next token if it denotes a binary operator, and gives the operator.
    pub fn eat_binary_operator(&mut self) -> (r: Result<Option<BinaryOp>, ParserError>)
        requires
            old(self).wf(),
        ensures
            final(self).spec_pending() == old(self).spec_pending(),
            old(self).tokens(0) == old(self).lexer.lookahead().0,
            FileParser::advanced(old(self), final(self)),
            FileParser::reported(old(self), final(self), r),
            match old(self).lexer.lookahead().0 {
                Ok(SpecToken::Punctuation(p)) => if exists|op: BinaryOp| op.spec_punctuation() == p {
                    r matches Ok(Some(op)) && op.spec_punctuation() == p && FileParser::looked(
                        old(self),
                        final(self),
                        true,
                    )
                } else {
                    r matches Ok(None) && FileParser::looked(old(self), final(self), false)
                },
                Ok(_) => r matches Ok(None) && FileParser::looked(old(self), final(self), false),
                Err(e) => r matches Err(ParserError::LexerError(x)) && x@ == e,
            },
    {
        let ghost a = *self;
        let r = self.lexer.consume_binary_operator();
        proof {
            if self.lexer.spec_current() is None {
                Lexer::lemma_took_remaining(&a.lexer, &self.lexer);
                Lexer::lemma_took_tokens(&a.lexer, &self.lexer);
            } else {
                Lexer::lemma_peeked_remaining(&a.lexer, &self.lexer);
                Lexer::lemma_peeked_tokens(&a.lexer, &self.lexer);
            }
            FileParser::lemma_lexer_step(&a, self);
        }
        match r {
            Ok(b) => Ok(b),
            Err(e) => Err(ParserError::LexerError(e)),
        }
    }

    /// Takes the next token if it denotes an assignment operator, and gives the operator.
    pub fn eat_assignment_operator(&mut self) -> (r: Result<Option<AssignOp>, ParserError>)
        requires
            old(self).wf(),
        ensures
            final(self).spec_pending() == old(self).spec_pending(),
            old(self).tokens(0) == old(self).lexer.lookahead().0,
            FileParser::advanced(old(self), final(self)),
            FileParser::reported(old(self), final(self), r),
            match old(self).lexer.lookahead().0 {
                Ok(SpecToken::Punctuation(p)) => if exists|op: AssignOp| op.spec_punctuation() == p {
                    r matches Ok(Some(op)) && op.spec_punctuation() == p && FileParser::looked(
                        old(self),
                        final(self),
                        true,
                    )
                } else {
                    r matches Ok(None) && FileParser::looked(old(self), final(self), false)
                },
                Ok(_) => r matches Ok(None) && FileParser::looked(old(self), final(self), false),
                Err(e) => r matches Err(ParserError::LexerError(x)) && x@ == e,
            },
    {
        let ghost a = *self;
        let r = self.lexer.consume_assignment_operator();
        proof {
            if self.lexer.spec_current() is None {
                Lexer::lemma_took_remaining(&a.lexer, &self.lexer);
                Lexer::lemma_took_tokens(&a.lexer, &self.lexer);
            } else {
                Lexer::lemma_peeked_remaining(&a.lexer, &self.lexer);
                Lexer::lemma_peeked_tokens(&a.lexer, &self.lexer);
            }
            FileParser::lemma_lexer_step(&a, self);
        }
        match r {
            Ok(b) => Ok(b),
            Err(e) => Err(ParserError::LexerError(e)),
        }
    }

    /// Takes the next token, which must be the punctuation `p`; reports a mismatch otherwise.
    pub fn expect_punctuation(&mut self, p: Punctuation) -> (r: Result<(), ParserError>)
        requires
            old(self).wf(),
        ensures
            final(self).spec_pending() == old(self).spec_pending(),
            old(self).tokens(0) == old(self).lexer.lookahead().0,
            FileParser::advanced(old(self), final(self)),
            FileParser::reported(old(self), final(self), r),
            FileParser::consumed(old(self), final(self), r),
            match old(self).lexer.lookahead().0 {
                Ok(t) => if t == SpecToken::Punctuation(p) {
                    r is Ok && final(self).errors() == old(self).errors()
                } else {
                    r matches Err(ParserError::UnexpectedToken(f)) && f@ == t
                        && final(self).errors().last().message@ == spec_token_mismatch(seq![ExpectedToken::Punctuation(p)], t)
                },
                Err(e) => r matches Err(ParserError::LexerError(x)) && x@ == e,
            },
            r is Ok ==> FileParser::skipped(old(self), final(self), 1),
    {
        let ghost a = *self;
        let r = self.lexer.expect_punctuation(p);
        proof {
            Lexer::lemma_took_remaining(&a.lexer, &self.lexer);
            Lexer::lemma_took_tokens(&a.lexer, &self.lexer);
            FileParser::lemma_lexer_step(&a, self);
        }
        r
    }

    /// Takes the next token, which must be the keyword `k`; reports a mismatch otherwise.
    pub fn expect_keyword(&mut self, k: Keyword) -> (r: Result<(), ParserError>)
        requires
            old(self).wf(),
        ensures
            final(self).spec_pending() == old(self).spec_pending(),
            old(self).tokens(0) == old(self).lexer.lookahead().0,
            FileParser::advanced(old(self), final(self)),
            FileParser::reported(old(self), final(self), r),
            FileParser::consumed(old(self), final(self), r),
            match old(self).lexer.lookahead().0 {
                Ok(t) => if t == SpecToken::Keyword(k) {
                    r is Ok && final(self).errors() == old(self).errors()
                } else {
                    r matches Err(ParserError::UnexpectedToken(f)) && f@ == t
                        && final(self).errors().last().message@ == spec_token_mismatch(seq![ExpectedToken::Keyword(k)], t)
                },
                Err(e) => r matches Err(ParserError::LexerError(x)) && x@ == e,
            },
            r is Ok ==> FileParser::skipped(old(self), final(self), 1),
    {
        let ghost a = *self;
        let r = self.lexer.expect_keyword(k);
        proof {
            Lexer::lemma_took_remaining(&a.lexer, &self.lexer);
            Lexer::lemma_took_tokens(&a.lexer, &self.lexer);
            FileParser::lemma_lexer_step(&a, self);
        }
        r
    }

    /// Takes the next token, which must be an identifier, and gives it; reports a mismatch
    /// otherwise.
    pub fn expect_identifier(&mut self) -> (r: Result<Identifier, ParserError>)
        requires
            old(self).wf(),
        ensures
            final(self).spec_pending() == old(self).spec_pending(),
            old(self).tokens(0) == old(self).lexer.lookahead().0,
            FileParser::advanced(old(self), final(self)),
            FileParser::reported(old(self), final(self), r),
            FileParser::consumed(old(self), final(self), r),
            match old(self).lexer.lookahead().0 {
                Ok(SpecToken::Identifier(name)) => r matches Ok(id) && id@ == name
                    && final(self).errors() == old(self).errors(),
                Ok(t) => r matches Err(ParserError::UnexpectedToken(f)) && f@ == t
                    && final(self).errors().last().message@ == spec_token_mismatch(
                    seq![ExpectedToken::Identifier],
                    t,
                ),
                Err(e) => r matches Err(ParserError::LexerError(x)) && x@ == e,
            },
            r is Ok ==> FileParser::skipped(old(self), final(self), 1),
    {
        let ghost a = *self;
        let r = self.lexer.expect_identifier();
        proof {
            Lexer::lemma_took_remaining(&a.lexer, &self.lexer);
            Lexer::lemma_took_tokens(&a.lexer, &self.lexer);
            FileParser::lemma_lexer_step(&a, self);
        }
        r
    }
}

/// An error of the whole package's parse.
#[derive(Debug, PartialEq, Eq)]
pub enum CompilerError {
    /// A file could not be read.
    Unreadable(PendingFile),
    /// A file could not be parsed; the problem was reported.
    Parse(ParserError),
}

/// Interface to compute an [ItemTable] of the whole project.
///
/// The package is parsed one file at a time, most recently found first: [Parser::next_file]
/// names the file to read next, [Parser::parse_file] or [Parser::parse_file_by_path] parses
/// what was read, [Parser::record] merges the outcome, and [Parser::finish] gives the table of
/// all items, or the errors.
pub struct Parser {
    pending: Vec<PendingFile>,
    pub context: Context,
}

impl Parser {
    /// Files still to be parsed; the last one is next.
    pub closed spec fn spec_pending(&self) -> Seq<PendingFile> {
        self.pending@
    }

    /// The compiler context, with what was reported so far.
    pub closed spec fn spec_context(&self) -> Context {
        self.context
    }

    /// A parser of the package whose root file is at `main`: that file, holding the crate's
    /// root module, is the only one pending.
    pub fn new(main: String, context: Context) -> (r: Parser)
        ensures
            r.spec_pending().len() == 1,
            (r.spec_pending()[0] matches PendingFile::Specific { scope, path } && scope@ == seq![
                context.metadata.crate_name@,
            ] && path@ == main@),
            r.spec_context() == context,
    {
        let scope = AbsolutePath::new(context.metadata.crate_name.duplicate());
        let pending = vec![PendingFile::Specific { scope, path: main }];
        Parser { pending, context }
    }

    /// The file to parse next, if any is left; it is no longer pending.
    pub fn next_file(&mut self) -> (r: Option<PendingFile>)
        ensures
            final(self).spec_context() == old(self).spec_context(),
            old(self).spec_pending().len() == 0 ==> r is None && final(self).spec_pending()
                == old(self).spec_pending(),
            old(self).spec_pending().len() > 0 ==> r == Some(old(self).spec_pending().last())
                && final(self).spec_pending() == old(self).spec_pending().drop_last(),
    {
        self.pending.pop()
    }

    /// Parses `text`, the file of the module at `path`, found at the default place for it. A
    /// text of items up to its end, as [text_items](crate::parser::item::text_items) has it, is
    /// parsed.
    pub fn parse_file(&mut self, path: AbsolutePath, text: &str, id: SourceId) -> (r: Result<
        ParsedFile,
        CompilerError,
    >)
        requires
            path@.len() > 0,
        ensures
            Parser::parsed(old(self), final(self), path@, r),
            crate::parser::item::text_items(text@) ==> r is Ok,
            forall|p: FileParser, lens: Seq<nat>|
                #[trigger] crate::parser::item::top_tokens(&p, lens) && p.lexer.spec_rest() == text@
                    && p.lexer.spec_current() is None ==> Parser::file_read(&p, lens, path@, r),
    {
        self.parse_file_by_id(path, text, id)
    }

    /// Parses `text`, the file of the module at `scope`, found at a given place. A text of items
    /// up to its end, as [text_items](crate::parser::item::text_items) has it, is parsed.
    pub fn parse_file_by_path(&mut self, scope: AbsolutePath, text: &str, id: SourceId) -> (r: Result<
        ParsedFile,
        CompilerError,
    >)
        requires
            scope@.len() > 0,
        ensures
            Parser::parsed(old(self), final(self), scope@, r),
            crate::parser::item::text_items(text@) ==> r is Ok,
            forall|p: FileParser, lens: Seq<nat>|
                #[trigger] crate::parser::item::top_tokens(&p, lens) && p.lexer.spec_rest() == text@
                    && p.lexer.spec_current() is None ==> Parser::file_read(&p, lens, scope@, r),
    {
        self.parse_file_by_id(scope, text, id)
    }

    /// The file whose tokens `p` reads, items of the lengths `lens` up to its end, parsed as the
    /// module at `scope` into `r`: `r` holds each of its items in its table, as
    /// [item_recorded](crate::parser::item::item_recorded) has it, and, as its pending files,
    /// the file of each module it declares with `mod NAME;`, in order.
    pub open spec fn file_read(p: &FileParser, lens: Seq<nat>, scope: Seq<Seq<char>>, r: Result<ParsedFile, CompilerError>) -> bool {
        &&& r is Ok
        &&& crate::parser::item::files_added(
            Seq::empty(),
            r->Ok_0.pending@,
            crate::parser::item::module_files(p, scope, lens),
        )
        &&& forall|i: int|
            0 <= i < lens.len() ==> #[trigger] crate::parser::item::item_recorded(
                p,
                scope,
                r->Ok_0.item_table,
                crate::parser::expression::lens_sum(lens.take(i)),
            )
    }

    /// `b` is `a` after the file of the module at `scope` was parsed into `r`: the context kept
    /// its metadata and only gained reports; a parsed file declares its module; a file that
    /// failed left its pending files with the parser, and failed with a reported problem unless
    /// a parenthesis did not match.
    pub open spec fn parsed(
        a: &Parser,
        b: &Parser,
        scope: Seq<Seq<char>>,
        r: Result<ParsedFile, CompilerError>,
    ) -> bool {
        &&& b.spec_context().metadata == a.spec_context().metadata
        &&& prefix_of(
            a.spec_context().error_reporter.spec_errors(),
            b.spec_context().error_reporter.spec_errors(),
        )
        &&& prefix_of(a.spec_pending(), b.spec_pending())
        &&& match r {
            Ok(parsed) => {
                &&& b.spec_pending() == a.spec_pending()
                &&& parsed.item_table.wf()
                &&& parsed.item_table.spec_lookup(scope) is Some
            },
            Err(CompilerError::Parse(e)) => e is UnclosedParenthesis
                || b.spec_context().error_reporter.spec_errors().len()
                > a.spec_context().error_reporter.spec_errors().len(),
            Err(CompilerError::Unreadable(_)) => false,
        }
    }

    fn parse_file_by_id(&mut self, scope: AbsolutePath, text: &str, id: SourceId) -> (r: Result<
        ParsedFile,
        CompilerError,
    >)
        requires
            scope@.len() > 0,
        ensures
            Parser::parsed(old(self), final(self), scope@, r),
            crate::parser::item::text_items(text@) ==> r is Ok,
            forall|p: FileParser, lens: Seq<nat>|
                #[trigger] crate::parser::item::top_tokens(&p, lens) && p.lexer.spec_rest() == text@
                    && p.lexer.spec_current() is None ==> Parser::file_read(&p, lens, scope@, r),
    {
        let mut context = Context::new_test();
        std::mem::swap(&mut context, &mut self.context);
        let stream = InputStream::new(text, Some(id));
        let lexer = Lexer::new(stream, context);
        let parser = FileParser::new(lexer, scope);
        let ghost fp = parser;
        proof {
            if crate::parser::item::text_items(text@) {
                let (p, lens) = choose|p: FileParser, lens: Seq<nat>|
                    #[trigger] crate::parser::item::top_tokens(&p, lens) && p.lexer.spec_rest() == text@
                        && p.lexer.spec_current() is None;
                assert(parser.lexer.spec_rest() =~= text@);
                assert forall|k: nat| #[trigger] parser.tokens(k) == p.tokens(k + 0) by {}
                crate::parser::item::lemma_top_same(&p, &parser, lens);
            }
        }
        let (res, context) = parser.parse();
        self.context = context;
        match res {
            Ok(parsed) => {
                proof {
                    lemma_prefix_of_refl(self.pending@);
                    assert forall|p: FileParser, lens: Seq<nat>|
                        #[trigger] crate::parser::item::top_tokens(&p, lens) && p.lexer.spec_rest() == text@
                            && p.lexer.spec_current() is None implies Parser::file_read(
                        &p,
                        lens,
                        scope@,
                        Ok::<ParsedFile, CompilerError>(parsed),
                    ) by {
                        assert(fp.lexer.spec_rest() =~= text@);
                        assert forall|k: nat| #[trigger] fp.tokens(k) == p.tokens(k) by {}
                        assert forall|k: nat| #[trigger] fp.tokens(k) == p.tokens(k + 0) by {}
                        crate::parser::item::lemma_top_same(&p, &fp, lens);
                        crate::parser::item::lemma_module_files_same(&p, &fp, scope@, lens);
                        assert forall|i: int| 0 <= i < lens.len() implies #[trigger] crate::parser::item::item_recorded(
                            &p,
                            scope@,
                            parsed.item_table,
                            crate::parser::expression::lens_sum(lens.take(i)),
                        ) by {
                            crate::parser::item::lemma_recorded_same(
                                &p,
                                &fp,
                                scope@,
                                parsed.item_table,
                                crate::parser::expression::lens_sum(lens.take(i)),
                            );
                        }
                        assert(fp.spec_pending() =~= Seq::<PendingFile>::empty());
                    }
                }
                Ok(parsed)
            },
            Err((e, pending)) => {
                let ghost p0 = self.pending@;
                let mut pending = pending;
                self.pending.append(&mut pending);
                proof {
                    assert(self.pending@.subrange(0, p0.len() as int) =~= p0);
                }
                Err(CompilerError::Parse(e))
            },
        }
    }

    /// Merges the outcome of a file's parse: its items join `table` and the files its modules
    /// need become pending; a failure joins `errors`.
    pub fn record(
        &mut self,
        table: &mut ItemTable,
        errors: &mut Vec<CompilerError>,
        parsed: Result<ParsedFile, CompilerError>,
    )
        requires
            old(table).wf(),
            parsed matches Ok(p) ==> p.item_table.wf(),
        ensures
            final(table).wf(),
            final(self).spec_context() == old(self).spec_context(),
            match parsed {
                Ok(p) => {
                    &&& final(self).spec_pending() == old(self).spec_pending() + p.pending@
                    &&& final(table).spec_declared() == old(table).spec_declared()
                        + fresh_entries(p.item_table.spec_declared(), old(table).spec_declared())
                    &&& final(table).spec_duplicated() == old(table).spec_duplicated()
                        + p.item_table.spec_duplicated() + clashing_entries(
                        p.item_table.spec_declared(),
                        old(table).spec_declared(),
                    )
                    &&& final(errors)@ == old(errors)@
                },
                Err(e) => {
                    &&& final(self).spec_pending() == old(self).spec_pending()
                    &&& *final(table) == *old(table)
                    &&& final(errors)@ == old(errors)@.push(e)
                },
            },
    {
        match parsed {
            Ok(parsed) => {
                let ParsedFile { item_table, pending } = parsed;
                let mut pending = pending;
                self.pending.append(&mut pending);
                table.extend(item_table);
            },
            Err(err) => {
                errors.push(err);
            },
        }
    }
}

/// The table of all items if no file failed; the errors otherwise.
pub fn finish(table: ItemTable, errors: Vec<CompilerError>) -> (r: Result<ItemTable, Vec<CompilerError>>)
    ensures
        errors@.len() == 0 ==> r == Ok::<ItemTable, Vec<CompilerError>>(table),
        errors@.len() > 0 ==> r == Err::<ItemTable, Vec<CompilerError>>(errors),
{
    if errors.len() == 0 {
        Ok(table)
    } else {
        Err(errors)
    }
}

} // verus!
