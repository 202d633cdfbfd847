//! Stream of characters that tracks their location in the source.

use std::collections::VecDeque;
use std::cmp::Ordering;

use owned_chars::{OwnedCharIndices, OwnedCharsExt};
use vstd::prelude::*;

use crate::text::{byte_len, char_width, len_utf8, lemma_byte_len_push};

verus! {

#[verifier::external_type_specification]
#[verifier::external_body]
pub struct ExOwnedCharIndices(OwnedCharIndices);

/// The `(byte offset, character)` pairs that an owned char-index iterator has yet to yield.
pub uninterp spec fn pending_char_indices(it: OwnedCharIndices) -> Seq<(usize, char)>;

/// Each character of `s` with the byte offset at which its UTF-8 encoding starts.
pub open spec fn spec_char_indices(s: Seq<char>) -> Seq<(usize, char)> {
    Seq::new(s.len(), |i: int| (byte_len(s.take(i)) as usize, s[i]))
}

/// `OwnedCharsExt::into_char_indices`: an iterator that owns the string and yields each of its
/// characters with the byte offset where its UTF-8 encoding starts, as `str::char_indices` does.
/// Every character ends within the string, whose byte length fits in `usize`.
#[verifier::external_body]
fn char_indices_of(s: String) -> (it: OwnedCharIndices)
    ensures
        pending_char_indices(it).len() == s@.len(),
        forall|i: int|
            0 <= i < s@.len() ==> (#[trigger] pending_char_indices(it)[i]).1 == s@[i]
                && pending_char_indices(it)[i].0 == byte_len(s@.take(i)),
        forall|i: int|
            0 <= i < s@.len() ==> (#[trigger] pending_char_indices(it)[i]).0 + char_width(
                pending_char_indices(it)[i].1,
            ) <= usize::MAX,
{
    s.into_char_indices()
}

/// `Iterator::next` of `OwnedCharIndices`: yields the first pending pair and drops it, or `None`
/// once all pairs were yielded (the iterator is fused).
#[verifier::external_body]
fn next_char_index(it: &mut OwnedCharIndices) -> (r: Option<(usize, char)>)
    ensures
        pending_char_indices(*old(it)).len() == 0 ==> r is None && pending_char_indices(*final(it))
            == pending_char_indices(*old(it)),
        pending_char_indices(*old(it)).len() > 0 ==> r == Some(pending_char_indices(*old(it))[0])
            && pending_char_indices(*final(it)) == pending_char_indices(*old(it)).drop_first(),
{
    it.next()
}

/// Identifier of a source file.
#[derive(Debug, Clone, Copy, PartialEq, Eq, Hash, Structural)]
pub struct SourceId(pub u32);

/// Location of a character in the source code.
#[derive(Debug, Clone, Copy, PartialEq, Eq, Structural)]
pub struct Location {
    /// Byte offset.
    pos: usize,
    /// Number of characters before the location.
    index: usize,
    pub line: usize,
    pub column: usize,
}

/// Number of line breaks in `s`.
pub open spec fn spec_line(s: Seq<char>) -> nat
    decreases s.len(),
{
    if s.len() == 0 {
        0
    } else {
        spec_line(s.drop_last()) + if s.last() == '\n' {
            1nat
        } else {
            0nat
        }
    }
}

/// Number of characters after the last line break of `s`.
pub open spec fn spec_column(s: Seq<char>) -> nat
    decreases s.len(),
{
    if s.len() == 0 {
        0
    } else if s.last() == '\n' {
        0
    } else {
        spec_column(s.drop_last()) + 1
    }
}

pub proof fn lemma_line_column_bounded(s: Seq<char>)
    ensures
        spec_line(s) <= s.len(),
        spec_column(s) <= s.len(),
        s.len() <= byte_len(s),
    decreases s.len(),
{
    if s.len() > 0 {
        lemma_line_column_bounded(s.drop_last());
    }
}

impl Location {
    /// Byte offset of the location.
    pub closed spec fn spec_pos(self) -> nat {
        self.pos as nat
    }

    /// Line of the location, counted from zero.
    pub closed spec fn spec_line_no(self) -> nat {
        self.line as nat
    }

    /// Column of the location, counted from zero.
    pub closed spec fn spec_column_no(self) -> nat {
        self.column as nat
    }

    /// Number of characters before the location.
    pub closed spec fn spec_index(self) -> nat {
        self.index as nat
    }

    /// Line break count, characters since the last line break, byte offset and character count of
    /// the location after `prefix`.
    pub closed spec fn of(prefix: Seq<char>) -> Location {
        Location {
            pos: byte_len(prefix) as usize,
            index: prefix.len() as usize,
            line: spec_line(prefix) as usize,
            column: spec_column(prefix) as usize,
        }
    }

    /// The location before the first character.
    pub fn start() -> (r: Location)
        ensures
            r == Location::of(Seq::<char>::empty()),
    {
        Location { pos: 0, index: 0, line: 0, column: 0 }
    }

    /// What [Location::of] gives.
    pub proof fn lemma_of(prefix: Seq<char>)
        requires
            byte_len(prefix) <= usize::MAX,
        ensures
            Location::of(prefix).spec_index() == prefix.len(),
            Location::of(prefix).spec_pos() == byte_len(prefix),
            Location::of(prefix).spec_line_no() == spec_line(prefix),
            Location::of(prefix).spec_column_no() == spec_column(prefix),
    {
        lemma_line_column_bounded(prefix);
    }

    /// Orders locations by line, then by column, both reversed: a later location comes first.
    pub open spec fn ordering(a: Location, b: Location) -> Ordering {
        if a.spec_line_no() == b.spec_line_no() {
            if a.spec_column_no() == b.spec_column_no() {
                Ordering::Equal
            } else if a.spec_column_no() < b.spec_column_no() {
                Ordering::Greater
            } else {
                Ordering::Less
            }
        } else if a.spec_line_no() < b.spec_line_no() {
            Ordering::Greater
        } else {
            Ordering::Less
        }
    }

    /// Locations are totally ordered: swapping the two sides reverses the answer, two locations
    /// compare equal exactly when they share line and column, and the order is transitive.
    pub proof fn law_ordering_total(a: Location, b: Location, c: Location)
        ensures
            Location::ordering(a, b) == Ordering::Less <==> Location::ordering(b, a) == Ordering::Greater,
            Location::ordering(a, b) == Ordering::Equal <==> (a.spec_line_no() == b.spec_line_no()
                && a.spec_column_no() == b.spec_column_no()),
            Location::ordering(a, b) == Ordering::Less && Location::ordering(b, c) == Ordering::Less
                ==> Location::ordering(a, c) == Ordering::Less,
    {
    }

    /// Compares two locations by [Location::ordering].
    pub fn cmp(&self, other: &Location) -> (r: Ordering)
        ensures
            r == Location::ordering(*self, *other),
    {
        if self.line == other.line {
            if self.column == other.column {
                Ordering::Equal
            } else if self.column < other.column {
                Ordering::Greater
            } else {
                Ordering::Less
            }
        } else if self.line < other.line {
            Ordering::Greater
        } else {
            Ordering::Less
        }
    }

    /// The ordering of [Location::cmp], which is total.
    pub fn partial_cmp(&self, other: &Location) -> (r: Option<Ordering>)
        ensures
            r == Some(Location::ordering(*self, *other)),
    {
        Some(self.cmp(other))
    }
}

/// Input stream provides compiler with characters of input and tracks their location.
#[derive(Debug)]
pub struct InputStream {
    source: Option<SourceId>,
    text: String,
    iter: OwnedCharIndices,
    buf: VecDeque<(usize, char)>,
    /// Location of the next character.
    location: Location,
}

impl InputStream {
    /// The whole source text.
    pub closed spec fn spec_text(&self) -> Seq<char> {
        self.text@
    }

    /// Number of characters already yielded.
    pub closed spec fn spec_index(&self) -> nat {
        self.location.index as nat
    }

    /// The characters still to be yielded.
    pub open spec fn spec_rest(&self) -> Seq<char> {
        self.spec_text().skip(self.spec_index() as int)
    }

    pub closed spec fn spec_source(&self) -> Option<SourceId> {
        self.source
    }

    /// Internal consistency: the buffer and the iterator together hold exactly the characters not
    /// yielded yet, with their byte offsets, and the location is that of the next character.
    pub closed spec fn wf(&self) -> bool {
        let t = self.text@;
        let i = self.location.index as int;
        let b = self.buf@.len() as int;
        &&& 0 <= i <= t.len()
        &&& i + b <= t.len()
        &&& byte_len(t) <= usize::MAX
        &&& self.buf@ == spec_char_indices(t).subrange(i, i + b)
        &&& pending_char_indices(self.iter) == spec_char_indices(t).skip(i + b)
        &&& self.location == Location::of(t.take(i))
    }

    /// The position is within the text, whose length fits in `usize`.
    pub proof fn lemma_bounds(&self)
        requires
            self.wf(),
        ensures
            self.spec_index() <= self.spec_text().len() <= usize::MAX,
    {
        lemma_line_column_bounded(self.text@);
    }

    /// Creates a stream over the characters of `src`.
    pub fn new(src: &str, source: Option<SourceId>) -> (r: InputStream)
        ensures
            r.wf(),
            r.spec_text() == src@,
            r.spec_index() == 0,
            r.spec_source() == source,
    {
        let text = src.to_owned();
        let iter = char_indices_of(src.to_owned());
        let r = InputStream {
            buf: VecDeque::new(),
            source,
            text,
            iter,
            location: Location { pos: 0, index: 0, line: 0, column: 0 },
        };
        proof {
            let t = src@;
            if t.len() > 0 {
                let k = t.len() - 1;
                assert(pending_char_indices(iter)[k].0 + char_width(pending_char_indices(iter)[k].1) <= usize::MAX);
                assert(t.take(k + 1) =~= t.take(k).push(t[k]));
                lemma_byte_len_push(t.take(k), t[k]);
                assert(t.take(k + 1) =~= t);
            }
            assert forall|j: int| 0 <= j < t.len() implies byte_len(t.take(j)) <= usize::MAX by {
                crate::text::lemma_byte_len_monotone(t, j, t.len() as int);
                assert(t.take(t.len() as int) =~= t);
            }
            assert(pending_char_indices(iter) =~= spec_char_indices(t));
            assert(src@.take(0) =~= Seq::<char>::empty());
            assert(spec_char_indices(src@).skip(0) =~= spec_char_indices(src@));
            assert(r.buf@ =~= spec_char_indices(src@).subrange(0, 0));
        }
        r
    }

    proof fn lemma_advance(t: Seq<char>, i: int)
        requires
            0 <= i < t.len(),
            byte_len(t) <= usize::MAX,
        ensures
            t.take(i + 1) == t.take(i).push(t[i]),
            byte_len(t.take(i + 1)) == byte_len(t.take(i)) + char_width(t[i]),
            byte_len(t.take(i + 1)) <= usize::MAX,
            spec_line(t.take(i + 1)) == spec_line(t.take(i)) + if t[i] == '\n' {
                1nat
            } else {
                0nat
            },
            spec_column(t.take(i + 1)) == if t[i] == '\n' {
                0
            } else {
                spec_column(t.take(i)) + 1
            },
            spec_line(t.take(i + 1)) <= usize::MAX,
            spec_column(t.take(i + 1)) <= usize::MAX,
            i + 1 <= usize::MAX,
    {
        assert(t.take(i + 1) =~= t.take(i).push(t[i]));
        lemma_byte_len_push(t.take(i), t[i]);
        assert(t.take(i + 1).drop_last() =~= t.take(i));
        crate::text::lemma_byte_len_monotone(t, i + 1, t.len() as int);
        assert(t.take(t.len() as int) =~= t);
        lemma_line_column_bounded(t.take(i + 1));
    }

    /// Yields the next character, if any, and moves the location past it.
    pub fn next(&mut self) -> (r: Option<char>)
        requires
            old(self).wf(),
        ensures
            final(self).wf(),
            final(self).spec_text() == old(self).spec_text(),
            final(self).spec_source() == old(self).spec_source(),
            old(self).spec_index() < old(self).spec_text().len() ==> r == Some(
                old(self).spec_text()[old(self).spec_index() as int],
            ) && final(self).spec_index() == old(self).spec_index() + 1,
            old(self).spec_index() >= old(self).spec_text().len() ==> r is None && final(self).spec_index() == old(self).spec_index(),
            old(self).spec_rest().len() > 0 ==> r == Some(old(self).spec_rest()[0])
                && final(self).spec_rest() == old(self).spec_rest().drop_first(),
            old(self).spec_rest().len() == 0 ==> r is None && final(self).spec_rest() == old(self).spec_rest(),
    {
        proof {
            self.lemma_bounds();
            if self.location.index < self.text@.len() {
                assert(self.text@.skip(self.location.index + 1) =~= self.text@.skip(self.location.index as int).drop_first());
            }
        }
        let ghost t = self.text@;
        let ghost i = self.location.index as int;
        let entry = match self.buf.pop_front() {
            Some(e) => Some(e),
            None => next_char_index(&mut self.iter),
        };
        match entry {
            Some((pos, ch)) => {
                proof {
                    assert(spec_char_indices(t)[i] == (pos, ch));
                    Self::lemma_advance(t, i);
                }
                self.location.pos = pos + len_utf8(ch);
                self.location.index = self.location.index + 1;
                if ch == '\n' {
                    self.location.line = self.location.line + 1;
                    self.location.column = 0;
                } else {
                    self.location.column = self.location.column + 1;
                }
                proof {
                    assert(self.buf@ =~= spec_char_indices(t).subrange(i + 1, i + 1 + self.buf@.len()));
                    assert(pending_char_indices(self.iter) =~= spec_char_indices(t).skip(i + 1 + self.buf@.len()));
                }
                Some(ch)
            },
            None => None,
        }
    }

    /// Skips `n` characters and yields the next one, as `Iterator::nth` does.
    pub fn nth(&mut self, n: usize) -> (r: Option<char>)
        requires
            old(self).wf(),
        ensures
            final(self).wf(),
            final(self).spec_text() == old(self).spec_text(),
            final(self).spec_source() == old(self).spec_source(),
            old(self).spec_index() + n < old(self).spec_text().len() ==> r == Some(
                old(self).spec_text()[old(self).spec_index() + n],
            ) && final(self).spec_index() == old(self).spec_index() + n + 1,
            old(self).spec_index() + n >= old(self).spec_text().len() ==> r is None && final(self).spec_index() == old(self).spec_text().len(),
            n < old(self).spec_rest().len() ==> r == Some(old(self).spec_rest()[n as int])
                && final(self).spec_rest() == old(self).spec_rest().skip(n + 1),
    {
        proof {
            self.lemma_bounds();
        }
        let mut k: usize = 0;
        while k < n
            invariant
                self.wf(),
                self.spec_text() == old(self).spec_text(),
                self.spec_source() == old(self).spec_source(),
                k <= n,
                self.spec_index() == if old(self).spec_index() + k <= old(self).spec_text().len() {
                    old(self).spec_index() + k
                } else {
                    old(self).spec_text().len() as int
                },
            decreases n - k,
        {
            self.next();
            k = k + 1;
        }
        let r = self.next();
        proof {
            self.lemma_bounds();
            let t = old(self).spec_text();
            let i0 = old(self).spec_index() as int;
            if (n as int) < old(self).spec_rest().len() {
                assert(t.skip(i0 + n + 1) =~= t.skip(i0).skip(n + 1));
            }
        }
        r
    }

    /// The `n`-th character after the current one (`0` is the next one), without advancing.
    pub fn peek_nth(&mut self, n: usize) -> (r: Option<char>)
        requires
            old(self).wf(),
        ensures
            final(self).wf(),
            final(self).spec_text() == old(self).spec_text(),
            final(self).spec_index() == old(self).spec_index(),
            final(self).spec_source() == old(self).spec_source(),
            r == (if old(self).spec_index() + n < old(self).spec_text().len() {
                Some(old(self).spec_text()[old(self).spec_index() + n])
            } else {
                None::<char>
            }),
            r == (if n < old(self).spec_rest().len() {
                Some(old(self).spec_rest()[n as int])
            } else {
                None::<char>
            }),
    {
        proof {
            self.lemma_bounds();
        }
        let ghost t = self.text@;
        let ghost i = self.location.index as int;
        while self.buf.len() <= n
            invariant
                self.wf(),
                self.text@ == t,
                self.location.index == i,
                self.source == old(self).source,
            ensures
                self.wf(),
                self.text@ == t,
                self.location.index == i,
                self.source == old(self).source,
                self.buf@.len() > n || i + self.buf@.len() == t.len(),
            decreases t.len() - self.buf@.len(),
        {
            let ghost b = self.buf@.len() as int;
            match next_char_index(&mut self.iter) {
                Some(e) => {
                    self.buf.push_back(e);
                    proof {
                        assert(self.buf@ =~= spec_char_indices(t).subrange(i, i + b + 1));
                        assert(pending_char_indices(self.iter) =~= spec_char_indices(t).skip(i + b + 1));
                    }
                },
                None => {
                    break;
                },
            }
        }
        if n < self.buf.len() {
            let (_, ch) = self.buf[n];
            Some(ch)
        } else {
            None
        }
    }

    /// The next character, without advancing.
    pub fn peek(&mut self) -> (r: Option<char>)
        requires
            old(self).wf(),
        ensures
            final(self).wf(),
            final(self).spec_text() == old(self).spec_text(),
            final(self).spec_index() == old(self).spec_index(),
            final(self).spec_source() == old(self).spec_source(),
            r == (if old(self).spec_index() < old(self).spec_text().len() {
                Some(old(self).spec_text()[old(self).spec_index() as int])
            } else {
                None::<char>
            }),
            r == (if 0 < old(self).spec_rest().len() {
                Some(old(self).spec_rest()[0])
            } else {
                None::<char>
            }),
    {
        self.peek_nth(0)
    }

    /// Whether all characters were yielded.
    pub fn is_eof(&mut self) -> (r: bool)
        requires
            old(self).wf(),
        ensures
            final(self).wf(),
            final(self).spec_text() == old(self).spec_text(),
            final(self).spec_index() == old(self).spec_index(),
            final(self).spec_source() == old(self).spec_source(),
            r == (old(self).spec_index() >= old(self).spec_text().len()),
            r == (old(self).spec_rest().len() == 0),
    {
        self.peek().is_none()
    }

    /// The source text between two locations of this stream.
    pub fn slice(&self, from: Location, to: Location) -> (r: &str)
        requires
            self.wf(),
            from.spec_index() <= to.spec_index() <= self.spec_text().len(),
        ensures
            r@ == self.spec_text().subrange(from.spec_index() as int, to.spec_index() as int),
    {
        self.text.as_str().substring_char(from.index, to.index)
    }

    /// Location of the next character.
    pub fn location(&self) -> (r: Location)
        requires
            self.wf(),
        ensures
            r == Location::of(self.spec_text().take(self.spec_index() as int)),
            r.spec_index() == self.spec_index(),
    {
        self.location
    }

    /// Source file of the stream, if any.
    pub fn source(&self) -> (r: Option<SourceId>)
        ensures
            r == self.spec_source(),
    {
        self.source
    }
}

impl Location {
    /// How the location is shown: line and column, counted from one, separated by a colon.
    pub open spec fn spec_display(&self) -> Seq<char> {
        crate::text::spec_decimal(self.spec_line_no() + 1) + seq![':'] + crate::text::spec_decimal(self.spec_column_no() + 1)
    }

    /// How the location is shown: line and column, counted from one, separated by a colon.
    pub fn to_string(&self) -> (r: String)
        ensures
            r@ == self.spec_display(),
    {
        let mut r = crate::text::decimal(self.line as u128 + 1);
        crate::text::push_char(&mut r, ':');
        let c = crate::text::decimal(self.column as u128 + 1);
        crate::text::push_str(&mut r, c.as_str());
        r
    }
}

} // verus!
