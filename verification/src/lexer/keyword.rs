//! Reserved words of the language.

use vstd::prelude::*;
use crate::text::str_is;

verus! {

/// A reserved word; its text is its name in lower case.
#[derive(Debug, Clone, Copy, PartialEq, Eq, Structural)]
pub enum Keyword {
    Let,
    Fn,
    If,
    Else,
    While,
    For,
    In,
    Break,
    Return,
    Pub,
    Struct,
    Mod,
    True,
    False,
}

impl Keyword {
    /// Text of the keyword.
    pub open spec fn spec_text(self) -> Seq<char> {
        match self {
            Keyword::Let => seq!['l', 'e', 't'],
            Keyword::Fn => seq!['f', 'n'],
            Keyword::If => seq!['i', 'f'],
            Keyword::Else => seq!['e', 'l', 's', 'e'],
            Keyword::While => seq!['w', 'h', 'i', 'l', 'e'],
            Keyword::For => seq!['f', 'o', 'r'],
            Keyword::In => seq!['i', 'n'],
            Keyword::Break => seq!['b', 'r', 'e', 'a', 'k'],
            Keyword::Return => seq!['r', 'e', 't', 'u', 'r', 'n'],
            Keyword::Pub => seq!['p', 'u', 'b'],
            Keyword::Struct => seq!['s', 't', 'r', 'u', 'c', 't'],
            Keyword::Mod => seq!['m', 'o', 'd'],
            Keyword::True => seq!['t', 'r', 'u', 'e'],
            Keyword::False => seq!['f', 'a', 'l', 's', 'e'],
        }
    }

    /// The keyword whose text is `s`, if any.
    pub open spec fn spec_from_text(s: Seq<char>) -> Option<Keyword> {
        if s == (Keyword::Let).spec_text() {
            Some(Keyword::Let)
        } else if s == (Keyword::Fn).spec_text() {
            Some(Keyword::Fn)
        } else if s == (Keyword::If).spec_text() {
            Some(Keyword::If)
        } else if s == (Keyword::Else).spec_text() {
            Some(Keyword::Else)
        } else if s == (Keyword::While).spec_text() {
            Some(Keyword::While)
        } else if s == (Keyword::For).spec_text() {
            Some(Keyword::For)
        } else if s == (Keyword::In).spec_text() {
            Some(Keyword::In)
        } else if s == (Keyword::Break).spec_text() {
            Some(Keyword::Break)
        } else if s == (Keyword::Return).spec_text() {
            Some(Keyword::Return)
        } else if s == (Keyword::Pub).spec_text() {
            Some(Keyword::Pub)
        } else if s == (Keyword::Struct).spec_text() {
            Some(Keyword::Struct)
        } else if s == (Keyword::Mod).spec_text() {
            Some(Keyword::Mod)
        } else if s == (Keyword::True).spec_text() {
            Some(Keyword::True)
        } else if s == (Keyword::False).spec_text() {
            Some(Keyword::False)
        } else {
            None
        }
    }

    /// Parses a keyword from its text.
    pub fn from_str(s: &str) -> (r: Result<Keyword, ()>)
        ensures
            r is Ok <==> Self::spec_from_text(s@) is Some,
            r matches Ok(k) ==> Self::spec_from_text(s@) == Some(k),
    {
        if str_is(s, &['l', 'e', 't']) {
            Ok(Keyword::Let)
        } else if str_is(s, &['f', 'n']) {
            Ok(Keyword::Fn)
        } else if str_is(s, &['i', 'f']) {
            Ok(Keyword::If)
        } else if str_is(s, &['e', 'l', 's', 'e']) {
            Ok(Keyword::Else)
        } else if str_is(s, &['w', 'h', 'i', 'l', 'e']) {
            Ok(Keyword::While)
        } else if str_is(s, &['f', 'o', 'r']) {
            Ok(Keyword::For)
        } else if str_is(s, &['i', 'n']) {
            Ok(Keyword::In)
        } else if str_is(s, &['b', 'r', 'e', 'a', 'k']) {
            Ok(Keyword::Break)
        } else if str_is(s, &['r', 'e', 't', 'u', 'r', 'n']) {
            Ok(Keyword::Return)
        } else if str_is(s, &['p', 'u', 'b']) {
            Ok(Keyword::Pub)
        } else if str_is(s, &['s', 't', 'r', 'u', 'c', 't']) {
            Ok(Keyword::Struct)
        } else if str_is(s, &['m', 'o', 'd']) {
            Ok(Keyword::Mod)
        } else if str_is(s, &['t', 'r', 'u', 'e']) {
            Ok(Keyword::True)
        } else if str_is(s, &['f', 'a', 'l', 's', 'e']) {
            Ok(Keyword::False)
        } else {
            Err(())
        }
    }

    /// Text of the keyword, as its `Display` shows it.
    pub fn to_string(&self) -> (r: String)
        ensures
            r@ == self.spec_text(),
    {
        let chars: &[char] = match self {
            Keyword::Let => &['l', 'e', 't'],
            Keyword::Fn => &['f', 'n'],
            Keyword::If => &['i', 'f'],
            Keyword::Else => &['e', 'l', 's', 'e'],
            Keyword::While => &['w', 'h', 'i', 'l', 'e'],
            Keyword::For => &['f', 'o', 'r'],
            Keyword::In => &['i', 'n'],
            Keyword::Break => &['b', 'r', 'e', 'a', 'k'],
            Keyword::Return => &['r', 'e', 't', 'u', 'r', 'n'],
            Keyword::Pub => &['p', 'u', 'b'],
            Keyword::Struct => &['s', 't', 'r', 'u', 'c', 't'],
            Keyword::Mod => &['m', 'o', 'd'],
            Keyword::True => &['t', 'r', 'u', 'e'],
            Keyword::False => &['f', 'a', 'l', 's', 'e'],
        };
        crate::text::string_of(chars)
    }
}

/// Reading a keyword's text back gives the keyword.
pub proof fn keyword_text_roundtrip(k: Keyword)
    ensures
        Keyword::spec_from_text(k.spec_text()) == Some(k),
{
}

/// The reserved words are written `let fn if else while for in break return pub struct mod true
/// false`: each of these texts reads as its keyword.
pub proof fn law_keyword_spellings()
    ensures
        Keyword::spec_from_text(seq!['l', 'e', 't']) == Some(Keyword::Let),
        Keyword::spec_from_text(seq!['f', 'n']) == Some(Keyword::Fn),
        Keyword::spec_from_text(seq!['i', 'f']) == Some(Keyword::If),
        Keyword::spec_from_text(seq!['e', 'l', 's', 'e']) == Some(Keyword::Else),
        Keyword::spec_from_text(seq!['w', 'h', 'i', 'l', 'e']) == Some(Keyword::While),
        Keyword::spec_from_text(seq!['f', 'o', 'r']) == Some(Keyword::For),
        Keyword::spec_from_text(seq!['i', 'n']) == Some(Keyword::In),
        Keyword::spec_from_text(seq!['b', 'r', 'e', 'a', 'k']) == Some(Keyword::Break),
        Keyword::spec_from_text(seq!['r', 'e', 't', 'u', 'r', 'n']) == Some(Keyword::Return),
        Keyword::spec_from_text(seq!['p', 'u', 'b']) == Some(Keyword::Pub),
        Keyword::spec_from_text(seq!['s', 't', 'r', 'u', 'c', 't']) == Some(Keyword::Struct),
        Keyword::spec_from_text(seq!['m', 'o', 'd']) == Some(Keyword::Mod),
        Keyword::spec_from_text(seq!['t', 'r', 'u', 'e']) == Some(Keyword::True),
        Keyword::spec_from_text(seq!['f', 'a', 'l', 's', 'e']) == Some(Keyword::False),
{
}

} // verus!
