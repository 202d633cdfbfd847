//! The token grammar, as spec functions over the characters not read yet.
//!
//! Each reading function takes the remaining characters and gives what is read together with the
//! number of characters consumed (also when reading fails).

use vstd::prelude::*;

use crate::lexer::{SpecLexerError, SpecToken};
use crate::lexer::keyword::Keyword;
use crate::lexer::number::{Number, lemma_digit_run_bounded, spec_base};
use crate::lexer::punctuation::{Punctuation, punctuation_from_text_inverse, punctuation_text_roundtrip};
use crate::text::{spec_is_ascii, spec_is_ascii_alphabetic, spec_is_ascii_alphanumeric, spec_is_ascii_digit, spec_is_ascii_punctuation, spec_is_whitespace};

verus! {

/// `r` starts with a line comment `//`.
pub open spec fn is_line_comment(r: Seq<char>) -> bool {
    r.len() >= 2 && r[0] == '/' && r[1] == '/'
}

/// `r` starts with a block comment `/*`.
pub open spec fn is_block_comment(r: Seq<char>) -> bool {
    r.len() >= 2 && r[0] == '/' && r[1] == '*'
}

/// Characters up to and including the first line break, or all of `r` if there is none.
pub open spec fn upto_newline(r: Seq<char>) -> nat
    decreases r.len(),
{
    if r.len() == 0 {
        0
    } else if r[0] == '\n' {
        1
    } else {
        1 + upto_newline(r.drop_first())
    }
}

/// Length of a block comment that starts at the beginning of `r`, scanning for its end from
/// position `j`: the comment ends right after the first `*/` whose `*` is at `j` or later, or at
/// the end of the input.
pub open spec fn block_end(r: Seq<char>, j: int) -> nat
    decreases r.len() - j,
{
    if j < 0 || j >= r.len() {
        r.len()
    } else if r[j] == '*' && j + 1 < r.len() && r[j + 1] == '/' {
        (j + 2) as nat
    } else if j + 1 >= r.len() {
        r.len()
    } else {
        block_end(r, j + 1)
    }
}

/// Number of leading whitespace characters of `r`.
pub open spec fn whitespace_run(r: Seq<char>) -> nat
    decreases r.len(),
{
    if r.len() > 0 && spec_is_whitespace(r[0]) {
        1 + whitespace_run(r.drop_first())
    } else {
        0
    }
}

pub proof fn lemma_trivia_pieces(r: Seq<char>)
    ensures
        upto_newline(r) <= r.len(),
        r.len() > 0 ==> upto_newline(r) > 0,
        whitespace_run(r) <= r.len(),
        forall|j: int| 0 <= j ==> #[trigger] block_end(r, j) <= r.len(),
        forall|j: int| 0 <= j < r.len() ==> #[trigger] block_end(r, j) > j,
    decreases r.len(),
{
    if r.len() > 0 {
        lemma_trivia_pieces(r.drop_first());
    }
    assert forall|j: int| 0 <= j implies #[trigger] block_end(r, j) <= r.len() by {
        lemma_block_end(r, j);
    }
    assert forall|j: int| 0 <= j < r.len() implies #[trigger] block_end(r, j) > j by {
        lemma_block_end(r, j);
    }
}

pub proof fn lemma_block_end(r: Seq<char>, j: int)
    requires
        0 <= j,
    ensures
        block_end(r, j) <= r.len(),
        j < r.len() ==> block_end(r, j) > j,
    decreases r.len() - j,
{
    if j < r.len() && !(r[j] == '*' && j + 1 < r.len() && r[j + 1] == '/') && j + 1 < r.len() {
        lemma_block_end(r, j + 1);
    }
}

/// Number of leading characters of `r` that are whitespace or comments.
pub open spec fn trivia_len(r: Seq<char>) -> nat
    decreases r.len(),
{
    if is_line_comment(r) {
        let n = upto_newline(r);
        proof {
            lemma_trivia_pieces(r);
        }
        n + trivia_len(r.skip(n as int))
    } else if is_block_comment(r) {
        let n = block_end(r, 1);
        proof {
            lemma_trivia_pieces(r);
        }
        n + trivia_len(r.skip(n as int))
    } else if r.len() > 0 && spec_is_whitespace(r[0]) {
        let n = whitespace_run(r);
        proof {
            lemma_trivia_pieces(r);
        }
        n + trivia_len(r.skip(n as int))
    } else {
        0
    }
}

/// A line comment runs up to and including the first line break after `//`.
pub proof fn law_line_comment(t: Seq<char>, rest: Seq<char>)
    requires
        forall|i: int| 0 <= i < t.len() ==> t[i] != '\n',
    ensures
        upto_newline(seq!['/', '/'] + t + seq!['\n'] + rest) == t.len() + 3,
        trivia_len(seq!['/', '/'] + t + seq!['\n'] + rest) == t.len() + 3 + trivia_len(rest),
{
    let h = seq!['/', '/'] + t;
    assert forall|i: int| 0 <= i < h.len() implies h[i] != '\n' by {
        if i >= 2 {
            assert(h[i] == t[i - 2]);
        }
    }
    lemma_upto_newline_tail(h, rest);
    let r = seq!['/', '/'] + t + seq!['\n'] + rest;
    assert(r =~= h + seq!['\n'] + rest);
    assert(r.skip((t.len() + 3) as int) =~= rest);
    assert(is_line_comment(r));
}

/// [upto_newline] over text with no line break before the one given.
proof fn lemma_upto_newline_tail(t: Seq<char>, rest: Seq<char>)
    requires
        forall|i: int| 0 <= i < t.len() ==> t[i] != '\n',
    ensures
        upto_newline(t + seq!['\n'] + rest) == t.len() + 1,
    decreases t.len(),
{
    let r = t + seq!['\n'] + rest;
    if t.len() == 0 {
        assert(r[0] == '\n');
    } else {
        assert(r[0] == t[0]);
        let t2 = t.drop_first();
        assert(r.drop_first() =~= t2 + seq!['\n'] + rest);
        assert forall|i: int| 0 <= i < t2.len() implies t2[i] != '\n' by {
            assert(t2[i] == t[i + 1]);
        }
        lemma_upto_newline_tail(t2, rest);
    }
}

/// The character an escape sequence `\c` stands for, if `c` is a valid escape.
pub open spec fn escaped(c: char) -> Option<char> {
    if c == '\'' {
        Some('\'')
    } else if c == '"' {
        Some('"')
    } else if c == 'n' {
        Some('\n')
    } else if c == 'r' {
        Some('\r')
    } else if c == 't' {
        Some('\t')
    } else if c == '\\' {
        Some('\\')
    } else if c == '0' {
        Some('\0')
    } else {
        None
    }
}

/// Reading the body of a string literal after its opening quote: characters up to the closing
/// quote, with escape sequences replaced by the characters they stand for.
pub open spec fn string_body(s: Seq<char>) -> (Result<Seq<char>, SpecLexerError>, nat)
    decreases s.len(),
{
    if s.len() == 0 {
        (Err(SpecLexerError::UnterminatedString), 0)
    } else if s[0] == '\\' {
        if s.len() == 1 {
            (Err(SpecLexerError::UnexpectedEOF), 1)
        } else {
            match escaped(s[1]) {
                Some(v) => {
                    let (res, n) = string_body(s.skip(2));
                    (
                        match res {
                            Ok(b) => Ok(seq![v] + b),
                            Err(e) => Err(e),
                        },
                        n + 2,
                    )
                },
                None => (Err(SpecLexerError::InvalidEscape), 2),
            }
        }
    } else if s[0] == '"' {
        (Ok(Seq::empty()), 1)
    } else {
        let (res, n) = string_body(s.drop_first());
        (
            match res {
                Ok(b) => Ok(seq![s[0]] + b),
                Err(e) => Err(e),
            },
            n + 1,
        )
    }
}

/// A string body read after the character `v` that stands first in the value and takes `k` more
/// characters of the text: the rest read from `r`, with `v` put in front of its value.
pub open spec fn string_after(v: char, k: nat, r: (Result<Seq<char>, SpecLexerError>, nat)) -> (
    Result<Seq<char>, SpecLexerError>,
    nat,
) {
    (
        match r.0 {
            Ok(b) => Ok(seq![v] + b),
            Err(e) => Err(e),
        },
        r.1 + k,
    )
}

/// In a string literal, `\'`, `\"`, `\n`, `\r`, `\t`, `\\` and `\0` stand for the
/// quote, the double quote, line feed (U+000A), carriage return (U+000D), tab (U+0009),
/// backslash and NUL (U+0000), each taking two characters of the text; a backslash before any
/// other character is an invalid escape; any other character but `"` stands for itself; `"`
/// ends the literal. A literal that the text ends in is unterminated, and a backslash as the
/// last character is an unexpected end.
pub proof fn law_string_escapes(c: char, s: Seq<char>)
    ensures
        string_body(seq!['\\', '\''] + s) == string_after('\'', 2, string_body(s)),
        string_body(seq!['\\', '"'] + s) == string_after('"', 2, string_body(s)),
        string_body(seq!['\\', 'n'] + s) == string_after('\u{a}', 2, string_body(s)),
        string_body(seq!['\\', 'r'] + s) == string_after('\u{d}', 2, string_body(s)),
        string_body(seq!['\\', 't'] + s) == string_after('\u{9}', 2, string_body(s)),
        string_body(seq!['\\', '\\'] + s) == string_after('\\', 2, string_body(s)),
        string_body(seq!['\\', '0'] + s) == string_after('\u{0}', 2, string_body(s)),
        c != '\'' && c != '"' && c != 'n' && c != 'r' && c != 't' && c != '\\' && c != '0' ==> string_body(
            seq!['\\', c] + s,
        ) == (Err::<Seq<char>, SpecLexerError>(SpecLexerError::InvalidEscape), 2nat),
        c != '\\' && c != '"' ==> string_body(seq![c] + s) == string_after(c, 1, string_body(s)),
        string_body(seq!['"'] + s) == (Ok::<Seq<char>, SpecLexerError>(Seq::empty()), 1nat),
        string_body(Seq::empty()) == (Err::<Seq<char>, SpecLexerError>(SpecLexerError::UnterminatedString), 0nat),
        string_body(seq!['\\']) == (Err::<Seq<char>, SpecLexerError>(SpecLexerError::UnexpectedEOF), 1nat),
{
    assert((seq!['\\', '\''] + s).skip(2) =~= s);
    assert((seq!['\\', '"'] + s).skip(2) =~= s);
    assert((seq!['\\', 'n'] + s).skip(2) =~= s);
    assert((seq!['\\', 'r'] + s).skip(2) =~= s);
    assert((seq!['\\', 't'] + s).skip(2) =~= s);
    assert((seq!['\\', '\\'] + s).skip(2) =~= s);
    assert((seq!['\\', '0'] + s).skip(2) =~= s);
    assert((seq!['\\', c] + s).skip(2) =~= s);
    assert((seq![c] + s).drop_first() =~= s);
    assert(escaped('n') == Some('\u{a}'));
    assert(escaped('r') == Some('\u{d}'));
    assert(escaped('t') == Some('\u{9}'));
    assert(escaped('0') == Some('\u{0}'));
    assert(string_body(seq!['\\', '\''] + s) == string_after('\'', 2, string_body(s)));
    assert(string_body(seq!['\\', '"'] + s) == string_after('"', 2, string_body(s)));
    assert(string_body(seq!['\\', 'n'] + s) == string_after('\u{a}', 2, string_body(s)));
    assert(string_body(seq!['\\', 'r'] + s) == string_after('\u{d}', 2, string_body(s)));
    assert(string_body(seq!['\\', 't'] + s) == string_after('\u{9}', 2, string_body(s)));
    assert(string_body(seq!['\\', '\\'] + s) == string_after('\\', 2, string_body(s)));
    assert(string_body(seq!['\\', '0'] + s) == string_after('\u{0}', 2, string_body(s)));
}

/// Number of leading characters of `r` that may appear in an identifier.
pub open spec fn ident_run(r: Seq<char>) -> nat
    decreases r.len(),
{
    if r.len() > 0 && (spec_is_ascii_alphanumeric(r[0]) || r[0] == '_') {
        1 + ident_run(r.drop_first())
    } else {
        0
    }
}

/// Reading an identifier or keyword: the longest run of ASCII alphanumerics and underscores; a
/// non-ASCII character right after it makes the identifier invalid.
pub open spec fn read_identifier(r: Seq<char>) -> (Result<SpecToken, SpecLexerError>, nat) {
    let k = ident_run(r);
    if k < r.len() && !spec_is_ascii(r[k as int]) {
        (Err(SpecLexerError::InvalidIdentifier), k)
    } else {
        let name = r.take(k as int);
        match Keyword::spec_from_text(name) {
            Some(kw) => (Ok(SpecToken::Keyword(kw)), k),
            None => (Ok(SpecToken::Identifier(name)), k),
        }
    }
}

/// Number of leading ASCII punctuation characters of `r`, at most [MAX_PUNC_LENGTH].
pub open spec fn punct_run(r: Seq<char>) -> nat {
    if r.len() >= 1 && spec_is_ascii_punctuation(r[0]) {
        if r.len() >= 2 && spec_is_ascii_punctuation(r[1]) {
            2
        } else {
            1
        }
    } else {
        0
    }
}

/// The punctuation that the longest of the first `i` prefixes of `r` spells, if any.
pub open spec fn longest_punct(r: Seq<char>, i: nat) -> Option<Punctuation>
    decreases i,
{
    if i == 0 {
        None
    } else {
        match Punctuation::spec_from_text(r.take(i as int)) {
            Some(p) => Some(p),
            None => longest_punct(r, (i - 1) as nat),
        }
    }
}

/// Reading punctuation: the longest punctuation spelled by the leading ASCII punctuation
/// characters; nothing is consumed when there is none.
pub open spec fn read_punctuation(r: Seq<char>) -> (Result<SpecToken, SpecLexerError>, nat) {
    let k = punct_run(r);
    match longest_punct(r, k) {
        Some(p) => (Ok(SpecToken::Punctuation(p)), p.spec_text().len()),
        None => (Err(SpecLexerError::UnknownPunctuation(r.take(k as int))), 0),
    }
}

/// Reading a token that starts at the beginning of `r` (no whitespace or comment before it).
pub open spec fn read_token_inner(r: Seq<char>) -> (Result<SpecToken, SpecLexerError>, nat) {
    if r.len() == 0 {
        (Ok(SpecToken::Eof), 0)
    } else if r[0] == '"' {
        let (res, n) = string_body(r.drop_first());
        (
            match res {
                Ok(b) => Ok(SpecToken::String(b)),
                Err(e) => Err(e),
            },
            n + 1,
        )
    } else if spec_is_ascii_digit(r[0]) {
        let (res, n) = Number::spec_parse(r);
        (
            match res {
                Ok(num) => Ok(SpecToken::Number(num)),
                Err(e) => Err(e),
            },
            n,
        )
    } else if spec_is_ascii_alphabetic(r[0]) || r[0] == '_' {
        read_identifier(r)
    } else if spec_is_ascii_punctuation(r[0]) {
        read_punctuation(r)
    } else {
        (Err(SpecLexerError::UnexpectedCharacter(r[0])), 0)
    }
}

/// Reading the next token: whitespace and comments are skipped, then a token is read.
pub open spec fn read_token(r: Seq<char>) -> (Result<SpecToken, SpecLexerError>, nat) {
    let t = trivia_len(r);
    let (res, n) = read_token_inner(r.skip(t as int));
    (res, t + n)
}

pub proof fn lemma_ident_run_bounded(r: Seq<char>)
    ensures
        ident_run(r) <= r.len(),
    decreases r.len(),
{
    if r.len() > 0 {
        lemma_ident_run_bounded(r.drop_first());
    }
}

pub proof fn lemma_longest_punct(r: Seq<char>, i: nat)
    requires
        i <= r.len(),
    ensures
        longest_punct(r, i) matches Some(p) ==> p.spec_text().len() <= i && p.spec_text() =~= r.take(
            p.spec_text().len() as int,
        ) && p.spec_text().len() >= 1,
    decreases i,
{
    if i > 0 {
        punctuation_from_text_inverse(r.take(i as int));
        lemma_longest_punct(r, (i - 1) as nat);
        if let Some(p) = longest_punct(r, i) {
            punctuation_text_roundtrip(p);
        }
    }
}

pub proof fn lemma_trivia_len_bounded(r: Seq<char>)
    ensures
        trivia_len(r) <= r.len(),
    decreases r.len(),
{
    lemma_trivia_pieces(r);
    if is_line_comment(r) {
        lemma_trivia_len_bounded(r.skip(upto_newline(r) as int));
    } else if is_block_comment(r) {
        lemma_trivia_len_bounded(r.skip(block_end(r, 1) as int));
    } else if r.len() > 0 && spec_is_whitespace(r[0]) {
        lemma_trivia_len_bounded(r.skip(whitespace_run(r) as int));
    }
}

pub proof fn lemma_string_body_bounded(s: Seq<char>)
    ensures
        string_body(s).1 <= s.len(),
    decreases s.len(),
{
    if s.len() > 1 && s[0] == '\\' {
        lemma_string_body_bounded(s.skip(2));
    } else if s.len() > 0 && s[0] != '"' && s[0] != '\\' {
        lemma_string_body_bounded(s.drop_first());
    }
}

/// Reading a token never consumes more than the remaining characters.
pub proof fn lemma_read_token_bounded(r: Seq<char>)
    ensures
        read_token_inner(r).1 <= r.len(),
        read_token(r).1 <= r.len(),
{
    lemma_trivia_len_bounded(r);
    lemma_read_token_inner_bounded(r);
    lemma_read_token_inner_bounded(r.skip(trivia_len(r) as int));
}

proof fn lemma_read_token_inner_bounded(r: Seq<char>)
    ensures
        read_token_inner(r).1 <= r.len(),
{
    if r.len() > 0 {
        lemma_string_body_bounded(r.drop_first());
        Number::lemma_spec_parse_bounded(r);
        lemma_ident_run_bounded(r);
        let k = punct_run(r);
        lemma_longest_punct(r, k);
    }
}

/// A token other than the end of input is at least one character long.
pub proof fn lemma_read_token_progress(r: Seq<char>)
    ensures
        read_token(r).1 <= r.len(),
        read_token(r).0 matches Ok(t) && t != SpecToken::Eof ==> read_token(r).1 >= 1,
{
    lemma_read_token_bounded(r);
    let s = r.skip(trivia_len(r) as int);
    if s.len() > 0 {
        if spec_is_ascii_digit(s[0]) {
            let (base, b) = spec_base(s);
            let rest = s.skip(b as int);
            lemma_digit_run_bounded(rest, base.spec_radix());
        } else if spec_is_ascii_alphabetic(s[0]) || s[0] == '_' {
            assert(ident_run(s) >= 1);
        } else if spec_is_ascii_punctuation(s[0]) {
            lemma_longest_punct(s, punct_run(s));
        }
    }
}

} // verus!
