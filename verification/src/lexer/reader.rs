//! The lexer: a stream of tokens read from a stream of characters.

use vstd::prelude::*;

use crate::context::{Context, Metadata};
use crate::error::Error;
use crate::input_stream::{InputStream, Location, SourceId};
use crate::lexer::grammar::{
    block_end, ident_run, is_block_comment, is_line_comment, longest_punct, punct_run,
    read_identifier, read_punctuation, read_token, read_token_inner, string_body, trivia_len,
    upto_newline, whitespace_run, escaped, lemma_trivia_pieces, lemma_longest_punct,
    lemma_read_token_bounded, lemma_trivia_len_bounded, lemma_ident_run_bounded,
};
use crate::lexer::keyword::Keyword;
use crate::lexer::number::Number;
use crate::lexer::punctuation::{MAX_PUNC_LENGTH, NotPunctuation, Punctuation};
use crate::lexer::{LexerError, SpecLexerError, SpecToken, Token, spec_result};
use crate::text::{
    is_ascii, is_ascii_alphabetic, is_ascii_alphanumeric, is_ascii_digit, is_ascii_punctuation,
    is_whitespace, push_char, spec_is_ascii_alphanumeric, spec_is_ascii_punctuation,
};

verus! {

/// Prefixes the text of a successful read with `b`.
pub open spec fn prepend_text(b: Seq<char>, res: Result<Seq<char>, SpecLexerError>) -> Result<
    Seq<char>,
    SpecLexerError,
> {
    match res {
        Ok(x) => Ok(b + x),
        Err(e) => Err(e),
    }
}

proof fn lemma_prepend_text(b: Seq<char>, c: char, res: Result<Seq<char>, SpecLexerError>)
    ensures
        prepend_text(b, prepend_text(seq![c], res)) == prepend_text(b.push(c), res),
{
    if let Ok(x) = res {
        assert(b + (seq![c] + x) =~= b.push(c) + x);
    }
}

proof fn lemma_ident_run(r: Seq<char>, k: int)
    requires
        0 <= k <= r.len(),
        forall|j: int| 0 <= j < k ==> spec_is_ascii_alphanumeric(#[trigger] r[j]) || r[j] == '_',
    ensures
        ident_run(r) == k + ident_run(r.skip(k)),
        ident_run(r) <= r.len(),
    decreases k,
{
    if k > 0 {
        lemma_ident_run(r.drop_first(), k - 1);
        assert(r.drop_first().skip(k - 1) =~= r.skip(k));
    } else {
        assert(r.skip(0) =~= r);
        lemma_ident_run_bounded(r);
    }
}

/// The input advanced by reading, with the same text and source.
pub open spec fn advanced(a: &InputStream, b: &InputStream) -> bool {
    &&& b.wf()
    &&& b.spec_text() == a.spec_text()
    &&& b.spec_source() == a.spec_source()
}

fn skip_line_comment(stream: &mut InputStream) -> (r: bool)
    requires
        old(stream).wf(),
    ensures
        advanced(old(stream), final(stream)),
        r == is_line_comment(old(stream).spec_rest()),
        r ==> final(stream).spec_rest() == old(stream).spec_rest().skip(
            upto_newline(old(stream).spec_rest()) as int,
        ),
        !r ==> final(stream).spec_rest() == old(stream).spec_rest(),
{
    let ghost r0 = stream.spec_rest();
    if stream.peek() == Some('/') && stream.peek_nth(1) == Some('/') {
        let ghost mut j: int = 0;
        proof {
            assert(r0.skip(0) =~= r0);
        }
        loop
            invariant
                advanced(old(stream), stream),
                r0 == old(stream).spec_rest(),
                is_line_comment(r0),
                0 <= j <= r0.len(),
                stream.spec_rest() == r0.skip(j),
                upto_newline(r0) == j + upto_newline(r0.skip(j)),
            decreases r0.len() - j,
        {
            let ghost before = stream.spec_rest();
            let c = stream.next();
            match c {
                Some('\n') => {
                    proof {
                        assert(before.drop_first() =~= r0.skip(j + 1));
                    }
                    return true;
                },
                None => {
                    return true;
                },
                Some(_) => {
                    proof {
                        assert(before.drop_first() =~= r0.skip(j + 1));
                        j = j + 1;
                    }
                },
            }
        }
    }
    false
}

fn skip_block_comment(stream: &mut InputStream) -> (r: bool)
    requires
        old(stream).wf(),
    ensures
        advanced(old(stream), final(stream)),
        r == is_block_comment(old(stream).spec_rest()),
        r ==> final(stream).spec_rest() == old(stream).spec_rest().skip(
            block_end(old(stream).spec_rest(), 1) as int,
        ),
        !r ==> final(stream).spec_rest() == old(stream).spec_rest(),
{
    let ghost r0 = stream.spec_rest();
    if stream.peek() == Some('/') && stream.peek_nth(1) == Some('*') {
        stream.next();
        let ghost mut j: int = 1;
        proof {
            assert(r0.drop_first() =~= r0.skip(1));
        }
        loop
            invariant
                advanced(old(stream), stream),
                r0 == old(stream).spec_rest(),
                is_block_comment(r0),
                1 <= j < r0.len(),
                stream.spec_rest() == r0.skip(j),
                block_end(r0, 1) == block_end(r0, j),
            decreases r0.len() - j,
        {
            let c = stream.next();
            proof {
                assert(r0.skip(j).drop_first() =~= r0.skip(j + 1));
            }
            if c == Some('*') && stream.peek() == Some('/') {
                let ghost before = stream.spec_rest();
                stream.next();
                proof {
                    assert(before.drop_first() =~= r0.skip(j + 2));
                }
                return true;
            }
            if stream.is_eof() {
                proof {
                    assert(r0.skip(j + 1) =~= r0.skip(r0.len() as int));
                }
                return true;
            }
            proof {
                j = j + 1;
            }
        }
    }
    false
}

fn skip_whitespace(stream: &mut InputStream) -> (r: bool)
    requires
        old(stream).wf(),
    ensures
        advanced(old(stream), final(stream)),
        r == (whitespace_run(old(stream).spec_rest()) > 0),
        final(stream).spec_rest() == old(stream).spec_rest().skip(
            whitespace_run(old(stream).spec_rest()) as int,
        ),
{
    let ghost r0 = stream.spec_rest();
    let ghost mut j: int = 0;
    let mut skipped = false;
    proof {
        assert(r0.skip(0) =~= r0);
    }
    loop
        invariant
            advanced(old(stream), stream),
            r0 == old(stream).spec_rest(),
            0 <= j <= r0.len(),
            stream.spec_rest() == r0.skip(j),
            whitespace_run(r0) == j + whitespace_run(r0.skip(j)),
            skipped == (j > 0),
        ensures
            advanced(old(stream), stream),
            stream.spec_rest() == r0.skip(j),
            whitespace_run(r0) == j,
            skipped == (j > 0),
        decreases r0.len() - j,
    {
        let ch = stream.peek();
        match ch {
            Some(c) => {
                if is_whitespace(c) {
                    skipped = true;
                    let ghost before = stream.spec_rest();
                    stream.next();
                    proof {
                        assert(before.drop_first() =~= r0.skip(j + 1));
                        j = j + 1;
                    }
                } else {
                    break;
                }
            },
            None => {
                break;
            },
        }
    }
    skipped
}

/// A stream of tokens of the language, read lazily from an input stream.
#[derive(Debug)]
pub struct Lexer {
    /// Token read ahead by `peek`.
    current: Option<Token>,
    input: InputStream,
    /// Location of the start of the token last yielded by `next`.
    pub location: Location,
    pub context: Context,
}

impl Lexer {
    pub closed spec fn spec_input(&self) -> InputStream {
        self.input
    }

    /// The token read ahead, if any.
    pub closed spec fn spec_current(&self) -> Option<SpecToken> {
        match self.current {
            Some(t) => Some(t@),
            None => None,
        }
    }

    /// Location of the start of the token last yielded by `next`.
    pub closed spec fn spec_token_start(&self) -> Location {
        self.location
    }

    pub closed spec fn spec_context(&self) -> Context {
        self.context
    }

    pub closed spec fn wf(&self) -> bool {
        self.input.wf()
    }

    /// Characters not read yet.
    pub open spec fn spec_rest(&self) -> Seq<char> {
        self.spec_input().spec_rest()
    }

    pub open spec fn spec_errors(&self) -> Seq<Error> {
        self.spec_context().error_reporter.spec_errors()
    }

    /// The next token (or the error reading it gives) and the number of characters reading it
    /// consumes.
    pub open spec fn lookahead(&self) -> (Result<SpecToken, SpecLexerError>, nat) {
        match self.spec_current() {
            Some(t) => (Ok(t), 0),
            None => read_token(self.spec_rest()),
        }
    }

    /// `b` is `a` after reading: same text, source, metadata and warnings; errors only added.
    pub open spec fn continues(a: &Lexer, b: &Lexer) -> bool {
        &&& b.wf()
        &&& b.spec_input().spec_text() == a.spec_input().spec_text()
        &&& b.spec_input().spec_source() == a.spec_input().spec_source()
        &&& b.spec_context().metadata == a.spec_context().metadata
        &&& b.spec_context().error_reporter.spec_warnings()
            == a.spec_context().error_reporter.spec_warnings()
        &&& a.spec_errors().len() <= b.spec_errors().len()
        &&& b.spec_errors().subrange(0, a.spec_errors().len() as int) == a.spec_errors()
    }

    /// Reading further continues reading.
    pub proof fn lemma_continues_trans(a: &Lexer, b: &Lexer, c: &Lexer)
        requires
            Lexer::continues(a, b),
            Lexer::continues(b, c),
        ensures
            Lexer::continues(a, c),
    {
        assert(c.spec_errors().subrange(0, a.spec_errors().len() as int) =~= b.spec_errors().subrange(0, a.spec_errors().len() as int));
    }

    /// Nothing happened.
    pub proof fn lemma_continues_refl(a: &Lexer)
        requires
            a.wf(),
        ensures
            Lexer::continues(a, a),
            a.spec_rest().skip(0) == a.spec_rest(),
    {
        assert(a.spec_errors().subrange(0, a.spec_errors().len() as int) =~= a.spec_errors());
        assert(a.spec_rest().skip(0) =~= a.spec_rest());
    }

    /// A lexer reading from `input`.
    pub fn new(input: InputStream, context: Context) -> (r: Lexer)
        requires
            input.wf(),
        ensures
            r.wf(),
            r.spec_input() == input,
            r.spec_current() is None,
            r.spec_context() == context,
    {
        let location = input.location();
        Lexer { current: None, input, location, context }
    }

    /// A lexer reading `src` with the test context.
    pub fn new_test(src: &str) -> (r: Lexer)
        ensures
            r.wf(),
            r.spec_rest() == src@,
            r.spec_current() is None,
            r.spec_errors().len() == 0,
    {
        let input = InputStream::new(src, None);
        proof {
            input.lemma_bounds();
            assert(input.spec_text().skip(0) =~= input.spec_text());
        }
        Lexer::new(input, Context::new_test())
    }

    /// Location of the next character.
    pub fn location(&self) -> (r: Location)
        requires
            self.wf(),
        ensures
            r.spec_index() == self.spec_input().spec_index(),
    {
        self.input.location()
    }

    /// Location of the start of the token last yielded by `next`.
    pub fn token_location(&self) -> (r: Location)
        ensures
            r == self.spec_token_start(),
    {
        self.location
    }

    /// The compiler context.
    pub fn context(&self) -> (r: &Context)
        ensures
            *r == self.spec_context(),
    {
        &self.context
    }

    /// Takes the compiler context out, leaving the lexer unusable for reporting.
    pub fn into_context(self) -> (r: Context)
        ensures
            r == self.spec_context(),
    {
        self.context
    }

    /// Source file being read, if any.
    pub fn source(&self) -> (r: Option<SourceId>)
        ensures
            r == self.spec_input().spec_source(),
    {
        self.input.source()
    }

    /// Reports an error at the span from `start` to the current location.
    pub fn report_error(&mut self, start: Location, message: String)
        requires
            old(self).wf(),
        ensures
            final(self).wf(),
            final(self).spec_input() == old(self).spec_input(),
            final(self).spec_current() == old(self).spec_current(),
            final(self).spec_context().metadata == old(self).spec_context().metadata,
            final(self).spec_context().error_reporter.spec_warnings() == old(self).spec_context().error_reporter.spec_warnings(),
            final(self).spec_errors().len() == old(self).spec_errors().len() + 1,
            final(self).spec_errors().subrange(0, old(self).spec_errors().len() as int) == old(self).spec_errors(),
            final(self).spec_errors().last().message == message,
    {
        let end = self.input.location();
        let source = self.input.source();
        let builder = self.context.error_reporter.error().starts_at(start).ends_at(end).message(
            message,
        ).in_source(source);
        builder.report(&mut self.context.error_reporter);
        proof {
            assert(self.spec_errors().subrange(0, old(self).spec_errors().len() as int) =~= old(self).spec_errors());
        }
    }

    /// Skips whitespace and comments.
    fn clean(&mut self)
        requires
            old(self).wf(),
        ensures
            final(self).wf(),
            advanced(&old(self).input, &final(self).input),
            final(self).spec_rest() == old(self).spec_rest().skip(
                trivia_len(old(self).spec_rest()) as int,
            ),
            final(self).current == old(self).current,
            final(self).context == old(self).context,
    {
        let ghost r0 = self.spec_rest();
        let ghost mut c: int = 0;
        proof {
            assert(r0.skip(0) =~= r0);
        }
        loop
            invariant
                self.wf(),
                advanced(&old(self).input, &self.input),
                self.current == old(self).current,
                self.context == old(self).context,
                r0 == old(self).spec_rest(),
                0 <= c <= r0.len(),
                self.spec_rest() == r0.skip(c),
                trivia_len(r0) == c + trivia_len(r0.skip(c)),
            ensures
                self.wf(),
                advanced(&old(self).input, &self.input),
                self.current == old(self).current,
                self.context == old(self).context,
                self.spec_rest() == r0.skip(c),
                trivia_len(r0) == c,
            decreases r0.len() - c,
        {
            let ghost rest = self.spec_rest();
            proof {
                lemma_trivia_pieces(rest);
            }
            let skipped = skip_line_comment(&mut self.input) || skip_block_comment(&mut self.input);
            let skipped = skipped || skip_whitespace(&mut self.input);
            if !skipped {
                break;
            }
            proof {
                let n = if is_line_comment(rest) {
                    upto_newline(rest)
                } else if is_block_comment(rest) {
                    block_end(rest, 1)
                } else {
                    whitespace_run(rest)
                };
                assert(rest.skip(n as int) =~= r0.skip(c + n));
                c = c + n;
            }
        }
    }

    /// Reads the body of a string literal; the next character is its opening quote.
    fn read_str(&mut self) -> (r: Result<Token, LexerError>)
        requires
            old(self).wf(),
            old(self).spec_rest().len() > 0,
            old(self).spec_rest()[0] == '"',
        ensures
            final(self).wf(),
            advanced(&old(self).input, &final(self).input),
            final(self).current == old(self).current,
            final(self).context == old(self).context,
            spec_result(r) == read_token_inner(old(self).spec_rest()).0,
            final(self).spec_rest() == old(self).spec_rest().skip(
                read_token_inner(old(self).spec_rest()).1 as int,
            ),
    {
        let ghost r0 = self.spec_rest();
        let ghost s0 = r0.drop_first();
        self.input.next();
        let mut buffer = String::new();
        let ghost mut j: int = 0;
        proof {
            assert(s0.skip(0) =~= s0);
            assert(prepend_text(buffer@, string_body(s0).0) =~= string_body(s0).0) by {
                if let Ok(x) = string_body(s0).0 {
                    assert(Seq::<char>::empty() + x =~= x);
                }
            }
        }
        loop
            invariant_except_break
                self.spec_rest() == s0.skip(j),
                string_body(s0).0 == prepend_text(buffer@, string_body(s0.skip(j)).0),
                string_body(s0).1 == j + string_body(s0.skip(j)).1,
            invariant
                self.wf(),
                advanced(&old(self).input, &self.input),
                self.current == old(self).current,
                self.context == old(self).context,
                r0 == old(self).spec_rest(),
                r0.len() > 0,
                r0[0] == '"',
                s0 == r0.drop_first(),
                0 <= j <= s0.len(),
            ensures
                self.wf(),
                advanced(&old(self).input, &self.input),
                self.current == old(self).current,
                self.context == old(self).context,
                string_body(s0).0 == Ok::<Seq<char>, SpecLexerError>(buffer@),
                self.spec_rest() == s0.skip(string_body(s0).1 as int),
            decreases s0.len() - j,
        {
            let ghost rest = self.spec_rest();
            let c = self.input.next();
            match c {
                None => {
                    proof {
                        assert(s0.skip(j) =~= r0.skip(j + 1));
                    }
                    return Err(LexerError::UnterminatedString);
                },
                Some(ch) => {
                    if ch == '\\' {
                        let e = self.input.next();
                        match e {
                            None => {
                                proof {
                                    assert(s0.skip(j + 1) =~= r0.skip(j + 2));
                                }
                                return Err(LexerError::UnexpectedEOF);
                            },
                            Some(esc) => {
                                let value = if esc == '\'' {
                                    '\''
                                } else if esc == '"' {
                                    '"'
                                } else if esc == 'n' {
                                    '\n'
                                } else if esc == 'r' {
                                    '\r'
                                } else if esc == 't' {
                                    '\t'
                                } else if esc == '\\' {
                                    '\\'
                                } else if esc == '0' {
                                    '\0'
                                } else {
                                    proof {
                                        assert(rest.skip(2) =~= s0.skip(j + 2));
                                        assert(s0.skip(j + 2) =~= r0.skip(j + 3));
                                    }
                                    return Err(LexerError::InvalidEscape);
                                };
                                proof {
                                    assert(escaped(rest[1]) == Some(value));
                                    lemma_prepend_text(buffer@, value, string_body(rest.skip(2)).0);
                                    assert(rest.skip(2) =~= s0.skip(j + 2));
                                    j = j + 2;
                                }
                                push_char(&mut buffer, value);
                            },
                        }
                    } else if ch == '"' {
                        proof {
                            assert(buffer@ + Seq::<char>::empty() =~= buffer@);
                            assert(rest.drop_first() =~= s0.skip(j + 1));
                        }
                        break;
                    } else {
                        proof {
                            lemma_prepend_text(buffer@, ch, string_body(rest.drop_first()).0);
                            assert(rest.drop_first() =~= s0.skip(j + 1));
                            j = j + 1;
                        }
                        push_char(&mut buffer, ch);
                    }
                },
            }
        }
        proof {
            crate::lexer::grammar::lemma_string_body_bounded(s0);
            assert(s0.skip(string_body(s0).1 as int) =~= r0.skip(string_body(s0).1 + 1 as int));
        }
        Ok(Token::String(buffer))
    }

    /// Reads an identifier or keyword; the next character is a letter or an underscore.
    fn read_identifier(&mut self) -> (r: Result<Token, LexerError>)
        requires
            old(self).wf(),
        ensures
            final(self).wf(),
            advanced(&old(self).input, &final(self).input),
            final(self).current == old(self).current,
            final(self).context == old(self).context,
            spec_result(r) == read_identifier(old(self).spec_rest()).0,
            final(self).spec_rest() == old(self).spec_rest().skip(
                read_identifier(old(self).spec_rest()).1 as int,
            ),
    {
        let ghost r0 = self.spec_rest();
        let mut buffer = String::new();
        let ghost mut j: int = 0;
        proof {
            assert(r0.skip(0) =~= r0);
            assert(r0.take(0) =~= buffer@);
        }
        loop
            invariant
                self.wf(),
                advanced(&old(self).input, &self.input),
                self.current == old(self).current,
                self.context == old(self).context,
                r0 == old(self).spec_rest(),
                0 <= j <= r0.len(),
                self.spec_rest() == r0.skip(j),
                buffer@ == r0.take(j),
                forall|k: int| 0 <= k < j ==> spec_is_ascii_alphanumeric(#[trigger] r0[k]) || r0[k] == '_',
            ensures
                self.wf(),
                advanced(&old(self).input, &self.input),
                self.current == old(self).current,
                self.context == old(self).context,
                j == ident_run(r0),
                self.spec_rest() == r0.skip(j),
                buffer@ == r0.take(j),
                j < r0.len() ==> crate::text::spec_is_ascii(r0[j]),
            decreases r0.len() - j,
        {
            let ghost rest = self.spec_rest();
            match self.input.peek() {
                Some(ch) => {
                    if is_ascii_alphanumeric(ch) || ch == '_' {
                        self.input.next();
                        proof {
                            assert(rest.drop_first() =~= r0.skip(j + 1));
                            assert(r0.take(j + 1) =~= r0.take(j).push(ch));
                            j = j + 1;
                        }
                        push_char(&mut buffer, ch);
                    } else if !is_ascii(ch) {
                        proof {
                            lemma_ident_run(r0, j);
                            assert(ident_run(r0.skip(j)) == 0);
                        }
                        return Err(LexerError::InvalidIdentifier);
                    } else {
                        proof {
                            lemma_ident_run(r0, j);
                            assert(ident_run(r0.skip(j)) == 0);
                        }
                        break;
                    }
                },
                None => {
                    proof {
                        lemma_ident_run(r0, j);
                    }
                    break;
                },
            }
        }
        let token = match Keyword::from_str(buffer.as_str()) {
            Ok(keyword) => Token::Keyword(keyword),
            Err(_) => Token::Identifier(buffer),
        };
        Ok(token)
    }

    /// Reads punctuation: the longest known punctuation spelled by the next few punctuation
    /// characters (so `->` is read rather than `-`).
    fn read_punctuation(&mut self) -> (r: Result<Token, LexerError>)
        requires
            old(self).wf(),
        ensures
            final(self).wf(),
            advanced(&old(self).input, &final(self).input),
            final(self).current == old(self).current,
            final(self).context == old(self).context,
            spec_result(r) == read_punctuation(old(self).spec_rest()).0,
            final(self).spec_rest() == old(self).spec_rest().skip(
                read_punctuation(old(self).spec_rest()).1 as int,
            ),
    {
        let ghost r0 = self.spec_rest();
        let mut buffer = String::new();
        let mut result: Option<Punctuation> = None;
        let mut i: usize = 0;
        proof {
            assert(r0.take(0) =~= buffer@);
        }
        while i < MAX_PUNC_LENGTH
            invariant
                self.wf(),
                advanced(&old(self).input, &self.input),
                self.current == old(self).current,
                self.context == old(self).context,
                self.spec_rest() == r0,
                r0 == old(self).spec_rest(),
                i <= 2,
                i <= r0.len(),
                buffer@ == r0.take(i as int),
                forall|k: int| 0 <= k < i ==> spec_is_ascii_punctuation(#[trigger] r0[k]),
                result == longest_punct(r0, i as nat),
            ensures
                self.wf(),
                advanced(&old(self).input, &self.input),
                self.current == old(self).current,
                self.context == old(self).context,
                self.spec_rest() == r0,
                i == punct_run(r0),
                buffer@ == r0.take(i as int),
                result == longest_punct(r0, i as nat),
            decreases 2 - i,
        {
            let ch = match self.input.peek_nth(i) {
                Some(c) => c,
                None => {
                    break;
                },
            };
            if !is_ascii_punctuation(ch) {
                break;
            }
            push_char(&mut buffer, ch);
            proof {
                assert(r0.take(i + 1) =~= r0.take(i as int).push(ch));
            }
            result = match Punctuation::from_str(buffer.as_str()) {
                Ok(p) => Some(p),
                Err(_) => result,
            };
            i = i + 1;
        }
        proof {
            lemma_longest_punct(r0, i as nat);
        }
        match result {
            Some(punc) => {
                let n = punc.len();
                self.input.nth(n - 1);
                proof {
                    assert(self.input.spec_rest() =~= r0.skip(n as int));
                }
                Ok(Token::Punctuation(punc))
            },
            None => Err(LexerError::UnknownPunctuation(NotPunctuation(buffer))),
        }
    }

    /// Reads a token that starts right at the next character.
    fn read_token_inner(&mut self) -> (r: Result<Token, LexerError>)
        requires
            old(self).wf(),
        ensures
            final(self).wf(),
            advanced(&old(self).input, &final(self).input),
            final(self).current == old(self).current,
            final(self).context == old(self).context,
            spec_result(r) == read_token_inner(old(self).spec_rest()).0,
            final(self).spec_rest() == old(self).spec_rest().skip(
                read_token_inner(old(self).spec_rest()).1 as int,
            ),
    {
        let ghost r0 = self.spec_rest();
        proof {
            assert(r0.skip(0) =~= r0);
        }
        let ch = match self.input.peek() {
            Some(ch) => ch,
            None => {
                return Ok(Token::Eof);
            },
        };
        if ch == '"' {
            return self.read_str();
        }
        if is_ascii_digit(ch) {
            return match Number::parse(&mut self.input) {
                Ok(number) => Ok(Token::Number(number)),
                Err(e) => Err(e),
            };
        }
        if is_ascii_alphabetic(ch) || ch == '_' {
            return self.read_identifier();
        }
        if is_ascii_punctuation(ch) {
            return self.read_punctuation();
        }
        Err(LexerError::UnexpectedCharacter(ch))
    }

    /// Reads a token after whitespace and comments, reporting an error if reading fails.
    fn read_token(&mut self) -> (r: Result<Token, LexerError>)
        requires
            old(self).wf(),
        ensures
            Self::continues(old(self), final(self)),
            final(self).spec_current() == old(self).spec_current(),
            spec_result(r) == read_token(old(self).spec_rest()).0,
            final(self).spec_rest() == old(self).spec_rest().skip(
                read_token(old(self).spec_rest()).1 as int,
            ),
            r is Ok ==> final(self).spec_errors() == old(self).spec_errors(),
            r is Err ==> final(self).spec_errors().len() == old(self).spec_errors().len() + 1,
            r matches Err(e) ==> final(self).spec_errors().last().message@ == LexerError::spec_message(e@),
    {
        let ghost r0 = self.spec_rest();
        self.clean();
        let ghost r1 = self.spec_rest();
        let start = self.input.location();
        let res = self.read_token_inner();
        proof {
            lemma_trivia_len_bounded(r0);
            lemma_read_token_bounded(r1);
            crate::text::lemma_skip_skip(r0, trivia_len(r0) as int, read_token_inner(r1).1 as int);
        }
        match res {
            Ok(token) => {
                proof {
                    assert(self.spec_errors().subrange(0, old(self).spec_errors().len() as int) =~= old(self).spec_errors());
                }
                Ok(token)
            },
            Err(err) => {
                let msg = err.to_string();
                self.report_error(start, msg);
                Err(err)
            },
        }
    }

    /// Yields the next token.
    pub fn next(&mut self) -> (r: Result<Token, LexerError>)
        requires
            old(self).wf(),
        ensures
            Self::continues(old(self), final(self)),
            final(self).spec_current() is None,
            spec_result(r) == old(self).lookahead().0,
            final(self).spec_rest() == old(self).spec_rest().skip(old(self).lookahead().1 as int),
            old(self).spec_current() is Some || r is Ok ==> final(self).spec_errors() == old(
                self,
            ).spec_errors(),
            old(self).spec_current() is None && r is Err ==> final(self).spec_errors().len() == old(
                self,
            ).spec_errors().len() + 1,
    {
        self.location = self.input.location();
        match self.current.take() {
            Some(token) => {
                proof {
                    self.input.lemma_bounds();
                    assert(self.spec_rest().skip(0) =~= self.spec_rest());
                    assert(self.spec_errors().subrange(0, old(self).spec_errors().len() as int) =~= old(self).spec_errors());
                }
                Ok(token)
            },
            None => self.read_token(),
        }
    }

    /// Discards the next token.
    ///
    /// Errors are ignored, so it should only be used after a successful [peek](Lexer::peek).
    pub fn discard(&mut self)
        requires
            old(self).wf(),
        ensures
            Self::continues(old(self), final(self)),
            final(self).spec_current() is None,
            final(self).spec_rest() == old(self).spec_rest().skip(old(self).lookahead().1 as int),
            old(self).lookahead().0 is Ok ==> final(self).spec_errors() == old(self).spec_errors(),
    {
        let _ = self.next();
    }

    /// The next token, without advancing past it.
    pub fn peek(&mut self) -> (r: Result<Token, LexerError>)
        requires
            old(self).wf(),
        ensures
            Self::continues(old(self), final(self)),
            spec_result(r) == old(self).lookahead().0,
            final(self).spec_rest() == old(self).spec_rest().skip(old(self).lookahead().1 as int),
            r matches Ok(t) ==> final(self).spec_current() == Some(t@) && final(self).spec_errors()
                == old(self).spec_errors(),
            r is Err ==> final(self).spec_current() is None && final(self).spec_errors().len()
                == old(self).spec_errors().len() + 1,
    {
        if self.current.is_none() {
            match self.read_token() {
                Ok(token) => {
                    self.current = Some(token);
                },
                Err(e) => {
                    return Err(e);
                },
            }
        } else {
            proof {
                self.input.lemma_bounds();
                assert(self.spec_rest().skip(0) =~= self.spec_rest());
                assert(self.spec_errors().subrange(0, old(self).spec_errors().len() as int) =~= old(self).spec_errors());
            }
        }
        match &self.current {
            Some(token) => Ok(token.duplicate()),
            None => Ok(Token::Eof),
        }
    }

    /// Whether the next token is the end of input.
    pub fn is_eof(&mut self) -> (r: bool)
        requires
            old(self).wf(),
        ensures
            Self::continues(old(self), final(self)),
            r == (old(self).lookahead().0 == Ok::<SpecToken, SpecLexerError>(SpecToken::Eof)),
            final(self).spec_rest() == old(self).spec_rest().skip(old(self).lookahead().1 as int),
            old(self).lookahead().0 is Ok ==> final(self).spec_current() == Some(
                old(self).lookahead().0->Ok_0,
            ) && final(self).spec_errors() == old(self).spec_errors(),
            old(self).lookahead().0 is Err ==> final(self).spec_current() is None,
    {
        match self.peek() {
            Ok(Token::Eof) => true,
            _ => false,
        }
    }
}

} // verus!
