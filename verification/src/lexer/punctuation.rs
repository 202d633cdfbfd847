//! Punctuation tokens.

use vstd::prelude::*;
use crate::text::string_of;

verus! {

/// Longest text of a punctuation token, in characters.
pub const MAX_PUNC_LENGTH: usize = 2;

/// A punctuation token: a short sequence of ASCII punctuation characters with a meaning of its own.
#[derive(Debug, Clone, Copy, PartialEq, Eq, Structural)]
pub enum Punctuation {
    Semicolon,
    Colon,
    LBrace,
    RBrace,
    LParent,
    RParent,
    LBracket,
    RBracket,
    Comma,
    Arrow,
    Plus,
    Minus,
    Bang,
    Mul,
    Div,
    Rem,
    Rsh,
    Lsh,
    BinAnd,
    BinXor,
    BinOr,
    And,
    Or,
    Equal,
    NotEqual,
    More,
    Less,
    MoreEqual,
    LessEqual,
    Assign,
    AssignPlus,
    AssignMinus,
    AssignMul,
    AssignDiv,
}

/// A text that is no punctuation known to the language.
#[derive(Debug, Clone, PartialEq, Eq)]
pub struct NotPunctuation(pub String);

impl Punctuation {
    /// Text of the punctuation.
    pub open spec fn spec_text(self) -> Seq<char> {
        match self {
            Punctuation::Semicolon => seq![';'],
            Punctuation::Colon => seq![':'],
            Punctuation::LBrace => seq!['{'],
            Punctuation::RBrace => seq!['}'],
            Punctuation::LParent => seq!['('],
            Punctuation::RParent => seq![')'],
            Punctuation::LBracket => seq!['['],
            Punctuation::RBracket => seq![']'],
            Punctuation::Comma => seq![','],
            Punctuation::Arrow => seq!['-', '>'],
            Punctuation::Plus => seq!['+'],
            Punctuation::Minus => seq!['-'],
            Punctuation::Bang => seq!['!'],
            Punctuation::Mul => seq!['*'],
            Punctuation::Div => seq!['/'],
            Punctuation::Rem => seq!['%'],
            Punctuation::Rsh => seq!['>', '>'],
            Punctuation::Lsh => seq!['<', '<'],
            Punctuation::BinAnd => seq!['&'],
            Punctuation::BinXor => seq!['^'],
            Punctuation::BinOr => seq!['|'],
            Punctuation::And => seq!['&', '&'],
            Punctuation::Or => seq!['|', '|'],
            Punctuation::Equal => seq!['=', '='],
            Punctuation::NotEqual => seq!['!', '='],
            Punctuation::More => seq!['>'],
            Punctuation::Less => seq!['<'],
            Punctuation::MoreEqual => seq!['>', '='],
            Punctuation::LessEqual => seq!['<', '='],
            Punctuation::Assign => seq!['='],
            Punctuation::AssignPlus => seq!['+', '='],
            Punctuation::AssignMinus => seq!['-', '='],
            Punctuation::AssignMul => seq!['*', '='],
            Punctuation::AssignDiv => seq!['/', '='],
        }
    }

    /// The punctuation whose text is `s`, if any.
    pub open spec fn spec_from_text(s: Seq<char>) -> Option<Punctuation> {
        if s.len() == 1 {
            match s[0] {
                ';' => Some(Punctuation::Semicolon),
                ':' => Some(Punctuation::Colon),
                '{' => Some(Punctuation::LBrace),
                '}' => Some(Punctuation::RBrace),
                '(' => Some(Punctuation::LParent),
                ')' => Some(Punctuation::RParent),
                '[' => Some(Punctuation::LBracket),
                ']' => Some(Punctuation::RBracket),
                ',' => Some(Punctuation::Comma),
                '+' => Some(Punctuation::Plus),
                '-' => Some(Punctuation::Minus),
                '!' => Some(Punctuation::Bang),
                '*' => Some(Punctuation::Mul),
                '/' => Some(Punctuation::Div),
                '%' => Some(Punctuation::Rem),
                '&' => Some(Punctuation::BinAnd),
                '^' => Some(Punctuation::BinXor),
                '|' => Some(Punctuation::BinOr),
                '>' => Some(Punctuation::More),
                '<' => Some(Punctuation::Less),
                '=' => Some(Punctuation::Assign),
                _ => None,
            }
        } else if s.len() == 2 {
            match (s[0], s[1]) {
                ('-', '>') => Some(Punctuation::Arrow),
                ('>', '>') => Some(Punctuation::Rsh),
                ('<', '<') => Some(Punctuation::Lsh),
                ('&', '&') => Some(Punctuation::And),
                ('|', '|') => Some(Punctuation::Or),
                ('=', '=') => Some(Punctuation::Equal),
                ('!', '=') => Some(Punctuation::NotEqual),
                ('>', '=') => Some(Punctuation::MoreEqual),
                ('<', '=') => Some(Punctuation::LessEqual),
                ('+', '=') => Some(Punctuation::AssignPlus),
                ('-', '=') => Some(Punctuation::AssignMinus),
                ('*', '=') => Some(Punctuation::AssignMul),
                ('/', '=') => Some(Punctuation::AssignDiv),
                _ => None,
            }
        } else {
            None
        }
    }

    /// Parses punctuation from its text.
    pub fn from_str(s: &str) -> (r: Result<Punctuation, NotPunctuation>)
        ensures
            r is Ok <==> Self::spec_from_text(s@) is Some,
            r matches Ok(p) ==> Self::spec_from_text(s@) == Some(p),
            r matches Err(e) ==> e.0@ == s@,
    {
        let n = s.unicode_len();
        let found = if n == 1 {
            match s.get_char(0) {
                ';' => Some(Punctuation::Semicolon),
                ':' => Some(Punctuation::Colon),
                '{' => Some(Punctuation::LBrace),
                '}' => Some(Punctuation::RBrace),
                '(' => Some(Punctuation::LParent),
                ')' => Some(Punctuation::RParent),
                '[' => Some(Punctuation::LBracket),
                ']' => Some(Punctuation::RBracket),
                ',' => Some(Punctuation::Comma),
                '+' => Some(Punctuation::Plus),
                '-' => Some(Punctuation::Minus),
                '!' => Some(Punctuation::Bang),
                '*' => Some(Punctuation::Mul),
                '/' => Some(Punctuation::Div),
                '%' => Some(Punctuation::Rem),
                '&' => Some(Punctuation::BinAnd),
                '^' => Some(Punctuation::BinXor),
                '|' => Some(Punctuation::BinOr),
                '>' => Some(Punctuation::More),
                '<' => Some(Punctuation::Less),
                '=' => Some(Punctuation::Assign),
                _ => None,
            }
        } else if n == 2 {
            match (s.get_char(0), s.get_char(1)) {
                ('-', '>') => Some(Punctuation::Arrow),
                ('>', '>') => Some(Punctuation::Rsh),
                ('<', '<') => Some(Punctuation::Lsh),
                ('&', '&') => Some(Punctuation::And),
                ('|', '|') => Some(Punctuation::Or),
                ('=', '=') => Some(Punctuation::Equal),
                ('!', '=') => Some(Punctuation::NotEqual),
                ('>', '=') => Some(Punctuation::MoreEqual),
                ('<', '=') => Some(Punctuation::LessEqual),
                ('+', '=') => Some(Punctuation::AssignPlus),
                ('-', '=') => Some(Punctuation::AssignMinus),
                ('*', '=') => Some(Punctuation::AssignMul),
                ('/', '=') => Some(Punctuation::AssignDiv),
                _ => None,
            }
        } else {
            None
        };
        match found {
            Some(p) => Ok(p),
            None => Err(NotPunctuation(s.to_owned())),
        }
    }

    /// The punctuation with the given text; the text must be that of a punctuation.
    pub fn new(s: &str) -> (r: Punctuation)
        requires
            Self::spec_from_text(s@) is Some,
        ensures
            Self::spec_from_text(s@) == Some(r),
    {
        match Self::from_str(s) {
            Ok(p) => p,
            Err(_) => {
                proof {
                    assert(false);
                }
                Punctuation::Semicolon
            },
        }
    }

    /// Number of characters of the punctuation's text.
    pub fn len(&self) -> (r: usize)
        ensures
            r == self.spec_text().len(),
    {
        let t = self.to_string();
        t.as_str().unicode_len()
    }

    /// Name of the variant, as `Debug` shows it.
    pub open spec fn spec_name(self) -> Seq<char> {
        match self {
            Punctuation::Semicolon => "Semicolon"@,
            Punctuation::Colon => "Colon"@,
            Punctuation::LBrace => "LBrace"@,
            Punctuation::RBrace => "RBrace"@,
            Punctuation::LParent => "LParent"@,
            Punctuation::RParent => "RParent"@,
            Punctuation::LBracket => "LBracket"@,
            Punctuation::RBracket => "RBracket"@,
            Punctuation::Comma => "Comma"@,
            Punctuation::Arrow => "Arrow"@,
            Punctuation::Plus => "Plus"@,
            Punctuation::Minus => "Minus"@,
            Punctuation::Bang => "Bang"@,
            Punctuation::Mul => "Mul"@,
            Punctuation::Div => "Div"@,
            Punctuation::Rem => "Rem"@,
            Punctuation::Rsh => "Rsh"@,
            Punctuation::Lsh => "Lsh"@,
            Punctuation::BinAnd => "BinAnd"@,
            Punctuation::BinXor => "BinXor"@,
            Punctuation::BinOr => "BinOr"@,
            Punctuation::And => "And"@,
            Punctuation::Or => "Or"@,
            Punctuation::Equal => "Equal"@,
            Punctuation::NotEqual => "NotEqual"@,
            Punctuation::More => "More"@,
            Punctuation::Less => "Less"@,
            Punctuation::MoreEqual => "MoreEqual"@,
            Punctuation::LessEqual => "LessEqual"@,
            Punctuation::Assign => "Assign"@,
            Punctuation::AssignPlus => "AssignPlus"@,
            Punctuation::AssignMinus => "AssignMinus"@,
            Punctuation::AssignMul => "AssignMul"@,
            Punctuation::AssignDiv => "AssignDiv"@,
        }
    }

    /// Name of the variant, as `Debug` shows it.
    pub fn name(&self) -> (r: &'static str)
        ensures
            r@ == self.spec_name(),
    {
        match self {
            Punctuation::Semicolon => "Semicolon",
            Punctuation::Colon => "Colon",
            Punctuation::LBrace => "LBrace",
            Punctuation::RBrace => "RBrace",
            Punctuation::LParent => "LParent",
            Punctuation::RParent => "RParent",
            Punctuation::LBracket => "LBracket",
            Punctuation::RBracket => "RBracket",
            Punctuation::Comma => "Comma",
            Punctuation::Arrow => "Arrow",
            Punctuation::Plus => "Plus",
            Punctuation::Minus => "Minus",
            Punctuation::Bang => "Bang",
            Punctuation::Mul => "Mul",
            Punctuation::Div => "Div",
            Punctuation::Rem => "Rem",
            Punctuation::Rsh => "Rsh",
            Punctuation::Lsh => "Lsh",
            Punctuation::BinAnd => "BinAnd",
            Punctuation::BinXor => "BinXor",
            Punctuation::BinOr => "BinOr",
            Punctuation::And => "And",
            Punctuation::Or => "Or",
            Punctuation::Equal => "Equal",
            Punctuation::NotEqual => "NotEqual",
            Punctuation::More => "More",
            Punctuation::Less => "Less",
            Punctuation::MoreEqual => "MoreEqual",
            Punctuation::LessEqual => "LessEqual",
            Punctuation::Assign => "Assign",
            Punctuation::AssignPlus => "AssignPlus",
            Punctuation::AssignMinus => "AssignMinus",
            Punctuation::AssignMul => "AssignMul",
            Punctuation::AssignDiv => "AssignDiv",
        }
    }

    /// Text of the punctuation, as its `Display` shows it.
    pub fn to_string(&self) -> (r: String)
        ensures
            r@ == self.spec_text(),
    {
        let chars: &[char] = match self {
            Punctuation::Semicolon => &[';'],
            Punctuation::Colon => &[':'],
            Punctuation::LBrace => &['{'],
            Punctuation::RBrace => &['}'],
            Punctuation::LParent => &['('],
            Punctuation::RParent => &[')'],
            Punctuation::LBracket => &['['],
            Punctuation::RBracket => &[']'],
            Punctuation::Comma => &[','],
            Punctuation::Arrow => &['-', '>'],
            Punctuation::Plus => &['+'],
            Punctuation::Minus => &['-'],
            Punctuation::Bang => &['!'],
            Punctuation::Mul => &['*'],
            Punctuation::Div => &['/'],
            Punctuation::Rem => &['%'],
            Punctuation::Rsh => &['>', '>'],
            Punctuation::Lsh => &['<', '<'],
            Punctuation::BinAnd => &['&'],
            Punctuation::BinXor => &['^'],
            Punctuation::BinOr => &['|'],
            Punctuation::And => &['&', '&'],
            Punctuation::Or => &['|', '|'],
            Punctuation::Equal => &['=', '='],
            Punctuation::NotEqual => &['!', '='],
            Punctuation::More => &['>'],
            Punctuation::Less => &['<'],
            Punctuation::MoreEqual => &['>', '='],
            Punctuation::LessEqual => &['<', '='],
            Punctuation::Assign => &['='],
            Punctuation::AssignPlus => &['+', '='],
            Punctuation::AssignMinus => &['-', '='],
            Punctuation::AssignMul => &['*', '='],
            Punctuation::AssignDiv => &['/', '='],
        };
        string_of(chars)
    }
}

/// Reading a punctuation's text back gives the punctuation, and the text is between one and
/// [MAX_PUNC_LENGTH] ASCII punctuation characters long.
pub proof fn punctuation_text_roundtrip(p: Punctuation)
    ensures
        Punctuation::spec_from_text(p.spec_text()) == Some(p),
        1 <= p.spec_text().len() <= MAX_PUNC_LENGTH,
        forall|i: int|
            0 <= i < p.spec_text().len() ==> crate::text::spec_is_ascii_punctuation(
                #[trigger] p.spec_text()[i],
            ),
{
    let t = p.spec_text();
    match p {
        Punctuation::Semicolon => {
            assert(t.len() == 1 && t[0] == ';');
        },
        Punctuation::Colon => {
            assert(t.len() == 1 && t[0] == ':');
        },
        Punctuation::LBrace => {
            assert(t.len() == 1 && t[0] == '{');
        },
        Punctuation::RBrace => {
            assert(t.len() == 1 && t[0] == '}');
        },
        Punctuation::LParent => {
            assert(t.len() == 1 && t[0] == '(');
        },
        Punctuation::RParent => {
            assert(t.len() == 1 && t[0] == ')');
        },
        Punctuation::LBracket => {
            assert(t.len() == 1 && t[0] == '[');
        },
        Punctuation::RBracket => {
            assert(t.len() == 1 && t[0] == ']');
        },
        Punctuation::Comma => {
            assert(t.len() == 1 && t[0] == ',');
        },
        Punctuation::Arrow => {
            assert(t.len() == 2 && t[0] == '-' && t[1] == '>');
        },
        Punctuation::Plus => {
            assert(t.len() == 1 && t[0] == '+');
        },
        Punctuation::Minus => {
            assert(t.len() == 1 && t[0] == '-');
        },
        Punctuation::Bang => {
            assert(t.len() == 1 && t[0] == '!');
        },
        Punctuation::Mul => {
            assert(t.len() == 1 && t[0] == '*');
        },
        Punctuation::Div => {
            assert(t.len() == 1 && t[0] == '/');
        },
        Punctuation::Rem => {
            assert(t.len() == 1 && t[0] == '%');
        },
        Punctuation::Rsh => {
            assert(t.len() == 2 && t[0] == '>' && t[1] == '>');
        },
        Punctuation::Lsh => {
            assert(t.len() == 2 && t[0] == '<' && t[1] == '<');
        },
        Punctuation::BinAnd => {
            assert(t.len() == 1 && t[0] == '&');
        },
        Punctuation::BinXor => {
            assert(t.len() == 1 && t[0] == '^');
        },
        Punctuation::BinOr => {
            assert(t.len() == 1 && t[0] == '|');
        },
        Punctuation::And => {
            assert(t.len() == 2 && t[0] == '&' && t[1] == '&');
        },
        Punctuation::Or => {
            assert(t.len() == 2 && t[0] == '|' && t[1] == '|');
        },
        Punctuation::Equal => {
            assert(t.len() == 2 && t[0] == '=' && t[1] == '=');
        },
        Punctuation::NotEqual => {
            assert(t.len() == 2 && t[0] == '!' && t[1] == '=');
        },
        Punctuation::More => {
            assert(t.len() == 1 && t[0] == '>');
        },
        Punctuation::Less => {
            assert(t.len() == 1 && t[0] == '<');
        },
        Punctuation::MoreEqual => {
            assert(t.len() == 2 && t[0] == '>' && t[1] == '=');
        },
        Punctuation::LessEqual => {
            assert(t.len() == 2 && t[0] == '<' && t[1] == '=');
        },
        Punctuation::Assign => {
            assert(t.len() == 1 && t[0] == '=');
        },
        Punctuation::AssignPlus => {
            assert(t.len() == 2 && t[0] == '+' && t[1] == '=');
        },
        Punctuation::AssignMinus => {
            assert(t.len() == 2 && t[0] == '-' && t[1] == '=');
        },
        Punctuation::AssignMul => {
            assert(t.len() == 2 && t[0] == '*' && t[1] == '=');
        },
        Punctuation::AssignDiv => {
            assert(t.len() == 2 && t[0] == '/' && t[1] == '=');
        },
    }
}

/// A text read as punctuation is that punctuation's text.
pub proof fn punctuation_from_text_inverse(s: Seq<char>)
    ensures
        Punctuation::spec_from_text(s) matches Some(p) ==> p.spec_text() =~= s,
{
    if let Some(p) = Punctuation::spec_from_text(s) {
        punctuation_text_roundtrip(p);
        let t = p.spec_text();
        if s.len() == 1 {
            assert(t.len() == 1 && t[0] == s[0]);
        } else {
            assert(t.len() == 2 && t[0] == s[0] && t[1] == s[1]);
        }
    }
}

} // verus!
