//! Abstract syntax tree.

pub mod expression;
pub mod statement;
pub mod item;
pub mod pretty_print;


use vstd::prelude::*;
use crate::text::{is_ascii_alphanumeric, is_ascii_digit, spec_is_ascii_alphanumeric, spec_is_ascii_digit};

verus! {

/// Identifier is name of type, variable, function or module.
#[derive(Debug, Clone, PartialEq, Eq, Hash)]
pub struct Identifier(pub String);

impl View for Identifier {
    type V = Seq<char>;

    open spec fn view(&self) -> Seq<char> {
        self.0@
    }
}

/// Why a text is not an identifier.
#[derive(Debug, Clone, Copy, PartialEq, Eq, Structural)]
pub enum IdentifierParseError {
    Empty,
    StartsWithDigit,
    InvalidCharacter,
}

/// The text is a valid identifier: non-empty, made of ASCII alphanumerics and underscores, and not
/// starting with a digit.
pub open spec fn spec_valid_identifier(s: Seq<char>) -> bool {
    &&& s.len() > 0
    &&& !spec_is_ascii_digit(s[0])
    &&& forall|i: int| 0 <= i < s.len() ==> spec_is_ascii_alphanumeric(#[trigger] s[i]) || s[i] == '_'
}

impl Identifier {
    /// A copy of the identifier.
    pub fn duplicate(&self) -> (r: Identifier)
        ensures
            r@ == self@,
    {
        Identifier(self.0.clone())
    }

    /// Whether two identifiers have the same text.
    pub fn same(&self, other: &Identifier) -> (r: bool)
        ensures
            r == (self@ == other@),
    {
        self.0 == other.0
    }

    /// Text of the identifier.
    pub fn as_str(&self) -> (r: &str)
        ensures
            r@ == self@,
    {
        self.0.as_str()
    }

    /// Parses an identifier from text.
    pub fn from_str(s: &str) -> (r: Result<Identifier, IdentifierParseError>)
        ensures
            r is Ok <==> spec_valid_identifier(s@),
            r matches Ok(id) ==> id@ == s@,
            r == Err::<Identifier, IdentifierParseError>(IdentifierParseError::Empty) <==> s@.len()
                == 0,
            r == Err::<Identifier, IdentifierParseError>(IdentifierParseError::StartsWithDigit) <==> (
            s@.len() > 0 && spec_is_ascii_digit(s@[0])),
    {
        let n = s.unicode_len();
        if n == 0 {
            return Err(IdentifierParseError::Empty);
        }
        if is_ascii_digit(s.get_char(0)) {
            return Err(IdentifierParseError::StartsWithDigit);
        }
        let mut i: usize = 0;
        while i < n
            invariant
                n == s@.len(),
                n > 0,
                !spec_is_ascii_digit(s@[0]),
                i <= n,
                forall|k: int| 0 <= k < i ==> spec_is_ascii_alphanumeric(#[trigger] s@[k]) || s@[k] == '_',
            decreases n - i,
        {
            let c = s.get_char(i);
            if !(is_ascii_alphanumeric(c) || c == '_') {
                return Err(IdentifierParseError::InvalidCharacter);
            }
            i = i + 1;
        }
        Ok(Identifier(s.to_owned()))
    }
}

/// Visibility of an item.
#[derive(Debug, Clone, Copy, PartialEq, Eq, PartialOrd, Ord, Hash, Structural)]
pub enum Visibility {
    Public,
    Private,
}

impl Default for Visibility {
    fn default() -> (r: Self)
        ensures
            r == Visibility::Private,
    {
        Visibility::Private
    }
}

} // verus!
