//! Number literals.

use vstd::prelude::*;

use crate::input_stream::InputStream;
use crate::lexer::{LexerError, SpecLexerError};
use crate::text::{is_digit, push_char, spec_is_digit};

verus! {

/// A number literal: digits of the integer part, digits of the fraction part if there is a dot,
/// and the base the digits are written in.
#[derive(Debug, Clone, PartialEq, Eq)]
pub struct Number {
    pub integer: String,
    pub fraction: Option<String>,
    pub base: Base,
}

/// Base of a number literal.
#[derive(Debug, Clone, Copy, PartialEq, Eq, Structural)]
pub enum Base {
    Binary,
    Octal,
    Decimal,
    Hexadecimal,
}

/// A number literal as plain values.
pub struct SpecNumber {
    pub integer: Seq<char>,
    pub fraction: Option<Seq<char>>,
    pub base: Base,
}

impl View for Number {
    type V = SpecNumber;

    open spec fn view(&self) -> SpecNumber {
        SpecNumber {
            integer: self.integer@,
            fraction: match self.fraction {
                Some(f) => Some(f@),
                None => None,
            },
            base: self.base,
        }
    }
}

impl Base {
    pub open spec fn spec_radix(self) -> u32 {
        match self {
            Base::Binary => 2,
            Base::Octal => 8,
            Base::Decimal => 10,
            Base::Hexadecimal => 16,
        }
    }

    /// Radix of the base in numerical form.
    pub fn radix(&self) -> (r: u32)
        ensures
            r == self.spec_radix(),
    {
        match self {
            Base::Binary => 2,
            Base::Octal => 8,
            Base::Decimal => 10,
            Base::Hexadecimal => 16,
        }
    }

    /// The prefix that introduces a literal in this base (empty for decimal).
    pub open spec fn spec_prefix(self) -> Seq<char> {
        match self {
            Base::Binary => seq!['0', 'b'],
            Base::Octal => seq!['0', 'o'],
            Base::Hexadecimal => seq!['0', 'x'],
            Base::Decimal => seq![],
        }
    }
}

/// Number of leading characters of `r` that are digits in the given radix.
pub open spec fn digit_run(r: Seq<char>, radix: u32) -> nat
    decreases r.len(),
{
    if r.len() > 0 && spec_is_digit(r[0], radix) {
        1 + digit_run(r.drop_first(), radix)
    } else {
        0
    }
}

pub proof fn lemma_digit_run_bounded(r: Seq<char>, radix: u32)
    ensures
        digit_run(r, radix) <= r.len(),
    decreases r.len(),
{
    if r.len() > 0 {
        lemma_digit_run_bounded(r.drop_first(), radix);
    }
}

pub proof fn lemma_digit_run(r: Seq<char>, radix: u32, k: int)
    requires
        0 <= k <= r.len(),
        forall|j: int| 0 <= j < k ==> spec_is_digit(#[trigger] r[j], radix),
    ensures
        digit_run(r, radix) == k + digit_run(r.skip(k), radix),
        k < r.len() && !spec_is_digit(r[k], radix) ==> digit_run(r, radix) == k,
    decreases k,
{
    if k > 0 {
        lemma_digit_run(r.drop_first(), radix, k - 1);
        assert(r.drop_first().skip(k - 1) =~= r.skip(k));
    } else {
        assert(r.skip(0) =~= r);
    }
}

/// The base a literal starting with `r` is written in, and how many characters its prefix takes.
pub open spec fn spec_base(r: Seq<char>) -> (Base, nat) {
    if r.len() >= 2 && r[0] == '0' && r[1] == 'b' {
        (Base::Binary, 2)
    } else if r.len() >= 2 && r[0] == '0' && r[1] == 'o' {
        (Base::Octal, 2)
    } else if r.len() >= 2 && r[0] == '0' && r[1] == 'x' {
        (Base::Hexadecimal, 2)
    } else {
        (Base::Decimal, 0)
    }
}

/// A literal starting `0b` is binary, `0o` octal and `0x` hexadecimal, the prefix taking two
/// characters; any other literal is decimal with no prefix. Binary digits are `0` and `1`, octal
/// digits `0` to `7`, decimal digits `0` to `9`, and hexadecimal digits also `a` to `f` in either
/// case.
pub proof fn law_number_bases(r: Seq<char>, c: char)
    ensures
        spec_base(seq!['0', 'b'] + r) == (Base::Binary, 2nat),
        spec_base(seq!['0', 'o'] + r) == (Base::Octal, 2nat),
        spec_base(seq!['0', 'x'] + r) == (Base::Hexadecimal, 2nat),
        !(r.len() >= 2 && r[0] == '0' && (r[1] == 'b' || r[1] == 'o' || r[1] == 'x')) ==> spec_base(r) == (
            Base::Decimal,
            0nat,
        ),
        spec_is_digit(c, Base::Binary.spec_radix()) <==> (c == '0' || c == '1'),
        spec_is_digit(c, Base::Octal.spec_radix()) <==> ('0' <= c && c <= '7'),
        spec_is_digit(c, Base::Decimal.spec_radix()) <==> ('0' <= c && c <= '9'),
        spec_is_digit(c, Base::Hexadecimal.spec_radix()) <==> (('0' <= c && c <= '9') || ('a' <= c && c
            <= 'f') || ('A' <= c && c <= 'F')),
{
}

impl Number {
    /// Reading a number from the start of `r`: an optional base prefix, the digits of the integer
    /// part, then, if a dot follows, the dot and the digits of the fraction part. Gives the literal
    /// read (an error when it has no digit at all) and the number of characters consumed.
    pub open spec fn spec_parse(r: Seq<char>) -> (Result<SpecNumber, SpecLexerError>, nat) {
        let (base, b) = spec_base(r);
        let radix = base.spec_radix();
        let rest = r.skip(b as int);
        let k1 = digit_run(rest, radix);
        let integer = rest.take(k1 as int);
        let has_dot = k1 < rest.len() && rest[k1 as int] == '.';
        let after_dot = rest.skip(k1 + 1 as int);
        let k2 = digit_run(after_dot, radix);
        let fraction = if has_dot {
            Some(after_dot.take(k2 as int))
        } else {
            None
        };
        let consumed = if has_dot {
            b + k1 + 1 + k2
        } else {
            b + k1
        };
        let empty = integer.len() == 0 && (!has_dot || k2 == 0);
        if empty {
            (Err(SpecLexerError::InvalidNumber), consumed)
        } else {
            (Ok(SpecNumber { integer, fraction, base }), consumed)
        }
    }

    pub proof fn lemma_spec_parse_bounded(r: Seq<char>)
        ensures
            Self::spec_parse(r).1 <= r.len(),
    {
        let (base, b) = spec_base(r);
        let rest = r.skip(b as int);
        let k1 = digit_run(rest, base.spec_radix());
        lemma_digit_run_bounded(rest, base.spec_radix());
        lemma_digit_run_bounded(rest.skip(k1 + 1 as int), base.spec_radix());
    }

    /// Reads a number literal from the stream.
    pub fn parse(stream: &mut InputStream) -> (r: Result<Number, LexerError>)
        requires
            old(stream).wf(),
        ensures
            final(stream).wf(),
            final(stream).spec_text() == old(stream).spec_text(),
            final(stream).spec_source() == old(stream).spec_source(),
            final(stream).spec_index() == old(stream).spec_index() + Self::spec_parse(
                old(stream).spec_rest(),
            ).1,
            match Self::spec_parse(old(stream).spec_rest()).0 {
                Ok(n) => r matches Ok(m) && m@ == n,
                Err(e) => r matches Err(x) && x@ == e,
            },
            Self::spec_parse(old(stream).spec_rest()).1 <= old(stream).spec_rest().len(),
            final(stream).spec_rest() == old(stream).spec_rest().skip(
                Self::spec_parse(old(stream).spec_rest()).1 as int,
            ),
    {
        let ghost rest0 = stream.spec_rest();
        proof {
            stream.lemma_bounds();
        }
        let base = Self::parse_base(stream);
        proof {
            stream.lemma_bounds();
            assert(stream.spec_rest() =~= rest0.skip(spec_base(rest0).1 as int));
        }
        let (integer, fraction) = Self::parse_number(stream, base);
        proof {
            let rest = rest0.skip(spec_base(rest0).1 as int);
            let radix = base.spec_radix();
            let k1 = digit_run(rest, radix);
            lemma_digit_run_bounded(rest, radix);
            lemma_digit_run_bounded(rest.skip(k1 + 1 as int), radix);
            stream.lemma_bounds();
            let t = stream.spec_text();
            let c = Self::spec_parse(rest0).1;
            assert(t.skip((old(stream).spec_index() + c) as int) =~= rest0.skip(c as int));
        }

        let invalid = match &fraction {
            Some(f) => integer.unicode_len() == 0 && f.unicode_len() == 0,
            None => integer.unicode_len() == 0,
        };
        if invalid {
            return Err(LexerError::InvalidNumber);
        }
        Ok(Number { base, integer, fraction })
    }

    /// Checks for a base prefix and consumes it if found; a literal without one is decimal.
    fn parse_base(stream: &mut InputStream) -> (r: Base)
        requires
            old(stream).wf(),
        ensures
            final(stream).wf(),
            final(stream).spec_text() == old(stream).spec_text(),
            final(stream).spec_source() == old(stream).spec_source(),
            (r, (final(stream).spec_index() - old(stream).spec_index()) as nat) == spec_base(
                old(stream).spec_rest(),
            ),
            final(stream).spec_index() >= old(stream).spec_index(),
    {
        proof {
            stream.lemma_bounds();
        }
        if stream.peek() != Some('0') {
            return Base::Decimal;
        }
        let base = match stream.peek_nth(1) {
            Some('b') => Base::Binary,
            Some('o') => Base::Octal,
            Some('x') => Base::Hexadecimal,
            _ => {
                return Base::Decimal;
            },
        };
        stream.next();
        stream.next();
        base
    }

    /// Reads the digits of the integer part and, after a dot, of the fraction part.
    fn parse_number(stream: &mut InputStream, base: Base) -> (r: (String, Option<String>))
        requires
            old(stream).wf(),
        ensures
            final(stream).wf(),
            final(stream).spec_text() == old(stream).spec_text(),
            final(stream).spec_source() == old(stream).spec_source(),
            ({
                let rest = old(stream).spec_rest();
                let radix = base.spec_radix();
                let k1 = digit_run(rest, radix);
                let has_dot = k1 < rest.len() && rest[k1 as int] == '.';
                let after_dot = rest.skip(k1 + 1 as int);
                let k2 = digit_run(after_dot, radix);
                &&& r.0@ == rest.take(k1 as int)
                &&& has_dot ==> (r.1 matches Some(f) && f@ == after_dot.take(k2 as int))
                &&& !has_dot ==> r.1 is None
                &&& final(stream).spec_index() == old(stream).spec_index() + if has_dot {
                    k1 + 1 + k2
                } else {
                    k1
                }
            }),
    {
        let radix = base.radix();
        let ghost rest = stream.spec_rest();
        let ghost start = stream.spec_index();
        proof {
            stream.lemma_bounds();
        }
        let mut integer = String::new();
        let mut k: usize = 0;
        loop
            invariant
                stream.wf(),
                stream.spec_text() == old(stream).spec_text(),
                stream.spec_source() == old(stream).spec_source(),
                rest == old(stream).spec_rest(),
                start == old(stream).spec_index(),
                stream.spec_index() == start + k,
                k <= rest.len(),
                integer@ == rest.take(k as int),
                forall|j: int| 0 <= j < k ==> spec_is_digit(#[trigger] rest[j], radix),
            ensures
                stream.wf(),
                stream.spec_text() == old(stream).spec_text(),
                stream.spec_source() == old(stream).spec_source(),
                stream.spec_index() == start + k,
                integer@ == rest.take(k as int),
                k == digit_run(rest, radix),
            decreases rest.len() - k,
        {
            proof {
                stream.lemma_bounds();
            }
            let c = stream.peek();
            match c {
                Some(ch) => {
                    if is_digit(ch, radix) {
                        push_char(&mut integer, ch);
                        stream.next();
                        proof {
                            assert(rest.take(k + 1) =~= rest.take(k as int).push(ch));
                        }
                        k = k + 1;
                    } else {
                        proof {
                            lemma_digit_run(rest, radix, k as int);
                        }
                        break;
                    }
                },
                None => {
                    proof {
                        lemma_digit_run(rest, radix, k as int);
                        assert(rest.skip(k as int).len() == 0);
                    }
                    break;
                },
            }
        }
        proof {
            stream.lemma_bounds();
        }
        if stream.peek() != Some('.') {
            return (integer, None);
        }
        stream.next();
        let ghost rest2 = stream.spec_rest();
        let ghost start2 = stream.spec_index();
        proof {
            assert(rest2 =~= rest.skip(k + 1));
        }
        let mut fraction = String::new();
        let mut m: usize = 0;
        loop
            invariant
                stream.wf(),
                stream.spec_text() == old(stream).spec_text(),
                stream.spec_source() == old(stream).spec_source(),
                rest2 == rest.skip(k + 1),
                start2 == start + k + 1,
                stream.spec_index() == start2 + m,
                m <= rest2.len(),
                fraction@ == rest2.take(m as int),
                stream.spec_rest() == rest2.skip(m as int),
                forall|j: int| 0 <= j < m ==> spec_is_digit(#[trigger] rest2[j], radix),
            ensures
                stream.wf(),
                stream.spec_text() == old(stream).spec_text(),
                stream.spec_source() == old(stream).spec_source(),
                stream.spec_index() == start2 + m,
                fraction@ == rest2.take(m as int),
                m == digit_run(rest2, radix),
            decreases rest2.len() - m,
        {
            proof {
                stream.lemma_bounds();
            }
            let c = stream.peek();
            match c {
                Some(ch) => {
                    assert(stream.spec_index() < stream.spec_text().len());
                    assert(stream.spec_rest().len() > 0);
                    assert(rest2.skip(m as int).len() > 0);
                    assert(stream.spec_rest()[0] == ch);
                    assert(rest2.skip(m as int)[0] == rest2[m as int]);
                    assert(ch == rest2[m as int]);
                    if is_digit(ch, radix) {
                        push_char(&mut fraction, ch);
                        let ghost before = stream.spec_rest();
                        stream.next();
                        proof {
                            stream.lemma_bounds();
                            assert(stream.spec_rest() =~= before.drop_first());
                            assert(rest2.take(m + 1) =~= rest2.take(m as int).push(ch));
                            assert(stream.spec_rest() =~= rest2.skip(m + 1));
                        }
                        m = m + 1;
                    } else {
                        proof {
                            lemma_digit_run(rest2, radix, m as int);
                        }
                        break;
                    }
                },
                None => {
                    proof {
                        lemma_digit_run(rest2, radix, m as int);
                    }
                    break;
                },
            }
        }
        (integer, Some(fraction))
    }

    /// Text of the literal as written: base prefix, integer digits, and the dot with the fraction
    /// digits if there is a fraction.
    pub open spec fn spec_text(n: SpecNumber) -> Seq<char> {
        n.base.spec_prefix() + n.integer + match n.fraction {
            Some(f) => seq!['.'] + f,
            None => seq![],
        }
    }

    /// Text of the literal, as its `Display` shows it.
    pub fn to_string(&self) -> (r: String)
        ensures
            r@ == Self::spec_text(self@),
    {
        let mut r = match self.base {
            Base::Binary => crate::text::string_of(&['0', 'b']),
            Base::Octal => crate::text::string_of(&['0', 'o']),
            Base::Hexadecimal => crate::text::string_of(&['0', 'x']),
            Base::Decimal => String::new(),
        };
        r.append(self.integer.as_str());
        match &self.fraction {
            Some(f) => {
                push_char(&mut r, '.');
                r.append(f.as_str());
            },
            None => {},
        }
        proof {
            assert(r@ =~= Self::spec_text(self@));
        }
        r
    }
}

} // verus!
