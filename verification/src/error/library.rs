//! Messages of the errors the compiler reports.

use itertools::Itertools;
use vstd::prelude::*;

use crate::error::ExpectedToken;
use crate::lexer::{SpecToken, Token};
use crate::lexer::keyword::Keyword;
use crate::lexer::number::Number;
use crate::lexer::punctuation::Punctuation;
use crate::text::{push_char, push_str};

verus! {

/// The parts joined, with `sep` between each two neighbours.
pub open spec fn spec_join(parts: Seq<Seq<char>>, sep: Seq<char>) -> Seq<char>
    decreases parts.len(),
{
    if parts.len() == 0 {
        seq![]
    } else if parts.len() == 1 {
        parts[0]
    } else {
        spec_join(parts.drop_last(), sep) + sep + parts.last()
    }
}

/// The texts of the strings.
pub open spec fn texts(parts: Seq<String>) -> Seq<Seq<char>> {
    parts.map_values(|s: String| s@)
}

/// `Itertools::intersperse` followed by `collect` into a `String`: the parts in order, with the
/// separator between each two neighbours.
#[verifier::external_body]
fn intersperse_collect(parts: Vec<String>, sep: String) -> (r: String)
    ensures
        r@ == spec_join(texts(parts@), sep@),
{
    #[allow(unstable_name_collisions)]
    parts.into_iter().intersperse(sep).collect::<String>()
}

impl Token {
    /// How the token is named in messages.
    pub open spec fn spec_pretty(t: SpecToken) -> Seq<char> {
        match t {
            SpecToken::Punctuation(p) => seq!['`'] + p.spec_text() + seq!['`'],
            SpecToken::Number(n) => "number `"@ + Number::spec_text(n) + seq!['`'],
            SpecToken::String(s) => seq!['"'] + s + seq!['"'],
            SpecToken::Keyword(k) => "keyword `"@ + k.spec_text() + seq!['`'],
            SpecToken::Identifier(s) => seq!['`'] + s + seq!['`'],
            SpecToken::Eof => "end of file"@,
        }
    }

    /// How the token is named in messages.
    pub fn pretty_print(&self) -> (r: String)
        ensures
            r@ == Self::spec_pretty(self@),
    {
        let mut r = String::new();
        match self {
            Token::Punctuation(p) => {
                push_char(&mut r, '`');
                let t = p.to_string();
                push_str(&mut r, t.as_str());
                push_char(&mut r, '`');
            },
            Token::Number(n) => {
                r.append("number `");
                let t = n.to_string();
                push_str(&mut r, t.as_str());
                push_char(&mut r, '`');
            },
            Token::String(s) => {
                push_char(&mut r, '"');
                push_str(&mut r, s.as_str());
                push_char(&mut r, '"');
            },
            Token::Keyword(k) => {
                r.append("keyword `");
                let t = k.to_string();
                push_str(&mut r, t.as_str());
                push_char(&mut r, '`');
            },
            Token::Identifier(s) => {
                push_char(&mut r, '`');
                push_str(&mut r, s.as_str());
                push_char(&mut r, '`');
            },
            Token::Eof => {
                r.append("end of file");
            },
        }
        proof {
            assert(r@ =~= Self::spec_pretty(self@));
        }
        r
    }
}

/// Message of a token mismatch: what was expected and what was found.
pub open spec fn spec_token_mismatch(expected: Seq<ExpectedToken>, found: SpecToken) -> Seq<char>
    recommends
        expected.len() > 0,
{
    let names = expected.map_values(|e: ExpectedToken| e.spec_text());
    let found_text = ", found "@ + Token::spec_pretty(found);
    if expected.len() == 1 {
        "expected "@ + names[0] + found_text
    } else if expected.len() == 2 {
        "expected "@ + names[0] + " or "@ + names[1] + found_text
    } else {
        "expected one of: "@ + spec_join(names.drop_last(), ", "@) + ", or "@ + names.last()
            + found_text
    }
}

/// Message of a token mismatch: what was expected and what was found.
pub fn token_mismatch(expected: &Vec<ExpectedToken>, found: &Token) -> (r: String)
    requires
        expected@.len() > 0,
    ensures
        r@ == spec_token_mismatch(expected@, found@),
{
    let ghost names = expected@.map_values(|e: ExpectedToken| e.spec_text());
    let mut r = "expected ".to_owned();
    let n = expected.len();
    let ghost mid: Seq<char>;
    if n == 1 {
        let t = expected[0].to_string();
        push_str(&mut r, t.as_str());
        proof {
            mid = names[0];
        }
    } else if n == 2 {
        let t = expected[0].to_string();
        push_str(&mut r, t.as_str());
        r.append(" or ");
        let t = expected[1].to_string();
        push_str(&mut r, t.as_str());
        proof {
            mid = names[0] + " or "@ + names[1];
            assert(r@ =~= "expected "@ + mid);
        }
    } else {
        r.append("one of: ");
        let mut parts: Vec<String> = Vec::new();
        let mut i: usize = 0;
        while i < n - 1
            invariant
                n == expected@.len(),
                n > 2,
                i <= n - 1,
                texts(parts@) == names.take(i as int),
                names == expected@.map_values(|e: ExpectedToken| e.spec_text()),
            decreases n - 1 - i,
        {
            let t = expected[i].to_string();
            let ghost before = parts@;
            parts.push(t);
            proof {
                assert(texts(before).len() == i);
                assert forall|k: int| 0 <= k < i + 1 implies #[trigger] texts(parts@)[k] == names.take(i + 1)[k] by {
                    if k < i {
                        assert(texts(before)[k] == names.take(i as int)[k]);
                        assert(parts@[k] == before[k]);
                    }
                }
                assert(texts(parts@) =~= names.take(i + 1));
            }
            i = i + 1;
        }
        proof {
            assert(names.take(n - 1) =~= names.drop_last());
        }
        let joined = intersperse_collect(parts, ", ".to_owned());
        push_str(&mut r, joined.as_str());
        r.append(", or ");
        let t = expected[n - 1].to_string();
        push_str(&mut r, t.as_str());
        proof {
            mid = spec_join(names.drop_last(), ", "@) + ", or "@ + names.last();
            assert(r@ =~= "expected "@ + "one of: "@ + mid);
        }
    }
    let ghost before = r@;
    r.append(", found ");
    let f = found.pretty_print();
    push_str(&mut r, f.as_str());
    proof {
        assert(r@ =~= before + (", found "@ + Token::spec_pretty(found@)));
        if n == 1 || n == 2 {
            assert(r@ =~= "expected "@ + mid + (", found "@ + Token::spec_pretty(found@)));
        } else {
            assert(r@ =~= "expected one of: "@ + mid + (", found "@ + Token::spec_pretty(found@))) by {
                reveal_strlit("expected ");
                reveal_strlit("one of: ");
                reveal_strlit("expected one of: ");
            }
        }
        assert(r@ =~= spec_token_mismatch(expected@, found@));
    }
    r
}

/// Message: an item was expected.
pub fn expected_item() -> (r: String)
    ensures
        r@ == "expected an item"@,
{
    "expected an item".to_owned()
}

/// Message: an assignment stands where an expression is expected.
pub fn assignment_in_expression_position() -> (r: String)
    ensures
        r@ == "assignment in expression position"@,
{
    "assignment in expression position".to_owned()
}

/// Message: `super` after an ordinary segment of a path.
pub fn invalid_super_kw() -> (r: String)
    ensures
        r@ == "`super` keyword may only be used in leading segments of the path"@,
{
    "`super` keyword may only be used in leading segments of the path".to_owned()
}

/// Message: `crate` after the first segment of a path.
pub fn invalid_crate_kw() -> (r: String)
    ensures
        r@ == "`crate` keyword may only be used as the first segment of the path."@,
{
    "`crate` keyword may only be used as the first segment of the path.".to_owned()
}

/// Message: input ended where more was expected.
pub fn unexpected_eof() -> (r: String)
    ensures
        r@ == "unexpected EOF"@,
{
    "unexpected EOF".to_owned()
}

/// Message: a path that is neither a variable nor called.
pub fn path_not_a_value() -> (r: String)
    ensures
        r@ == "a path may only be used as a variable or be called"@,
{
    "a path may only be used as a variable or be called".to_owned()
}

/// Message of a keyword that cannot start an operand.
pub open spec fn spec_keyword_not_allowed(kw: Keyword) -> Seq<char> {
    "keyword `"@ + kw.spec_text() + "` is not allowed in operator expression"@
}

/// Message: a keyword that cannot start an operand.
pub fn keyword_not_allowed(kw: Keyword) -> (r: String)
    ensures
        r@ == spec_keyword_not_allowed(kw),
{
    let mut r = "keyword `".to_owned();
    let t = kw.to_string();
    push_str(&mut r, t.as_str());
    r.append("` is not allowed in operator expression");
    r
}

/// Message of a punctuation that cannot start an operand; it is named as its variant is.
pub open spec fn spec_invalid_punctuation(punc: Punctuation) -> Seq<char> {
    "punctuation `"@ + punc.spec_name() + "` is not allowed"@
}

/// Message: a punctuation that cannot start an operand.
pub fn invalid_punctuation(punc: Punctuation) -> (r: String)
    ensures
        r@ == spec_invalid_punctuation(punc),
{
    let mut r = "punctuation `".to_owned();
    push_str(&mut r, punc.name());
    r.append("` is not allowed");
    r
}

} // verus!
