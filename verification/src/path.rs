//! Paths to items.

use vstd::prelude::*;

use crate::ast::{Identifier, IdentifierParseError};
use crate::text::{push_str};

verus! {

/// Why a text is not a path.
#[derive(Debug, Clone, Copy, PartialEq, Eq, Structural)]
pub enum PathParsingError {
    ExpectedIdentifier,
    InvalidIdentifier(IdentifierParseError),
}

/// Path from the crate root to an item: the crate's name followed by the names of the modules and
/// of the item.
#[derive(Debug, Clone, PartialEq, Eq, Hash)]
pub struct AbsolutePath(pub Vec<Identifier>);

/// The names of the segments of a path.
pub open spec fn names(segments: Seq<Identifier>) -> Seq<Seq<char>> {
    segments.map_values(|i: Identifier| i@)
}

impl View for AbsolutePath {
    type V = Seq<Seq<char>>;

    open spec fn view(&self) -> Seq<Seq<char>> {
        names(self.0@)
    }
}

pub proof fn lemma_names_push(s: Seq<Identifier>, x: Identifier)
    ensures
        names(s.push(x)) == names(s).push(x@),
        names(s).len() == s.len(),
{
    assert(names(s.push(x)) =~= names(s).push(x@));
}

pub proof fn lemma_names_len(s: Seq<Identifier>)
    ensures
        names(s).len() == s.len(),
        forall|k: int| 0 <= k < s.len() ==> #[trigger] names(s)[k] == s[k]@,
{
}

/// Copies of the identifiers, with the same names.
pub fn duplicate_all(ids: &Vec<Identifier>) -> (r: Vec<Identifier>)
    ensures
        names(r@) == names(ids@),
{
    let mut r: Vec<Identifier> = Vec::new();
    let mut i: usize = 0;
    while i < ids.len()
        invariant
            i <= ids@.len(),
            names(r@) == names(ids@).take(i as int),
        decreases ids@.len() - i,
    {
        let ghost before = r@;
        let d = ids[i].duplicate();
        r.push(d);
        proof {
            lemma_names_push(before, d);
            lemma_names_len(ids@);
            assert(names(ids@).take(i + 1) =~= names(ids@).take(i as int).push(d@));
        }
        i = i + 1;
    }
    proof {
        assert(names(ids@).take(ids@.len() as int) =~= names(ids@));
    }
    r
}

/// The directories and the file, without its extension, that hold the module at `path`: the
/// segments after the crate's name, under the directory of the crate's root file.
pub fn module_file_segments(path: &AbsolutePath) -> (r: Vec<String>)
    ensures
        path@.len() == 0 ==> r@.len() == 0,
        path@.len() > 0 ==> r@.len() == path@.len() - 1 && forall|i: int|
            0 <= i < r@.len() ==> #[trigger] r@[i]@ == path@[i + 1],
{
    let mut r: Vec<String> = Vec::new();
    let mut i: usize = 1;
    while i < path.0.len()
        invariant
            1 <= i,
            path.0@.len() > 0 ==> i <= path.0@.len() && r@.len() == i - 1,
            path.0@.len() == 0 ==> r@.len() == 0,
            forall|k: int| 0 <= k < r@.len() ==> #[trigger] r@[k]@ == path@[k + 1],
        decreases path.0@.len() - i,
    {
        let ghost r0 = r@;
        r.push(path.0[i].0.clone());
        proof {
            assert forall|k: int| 0 <= k < r@.len() implies #[trigger] r@[k]@ == path@[k + 1] by {
                if k < r0.len() {
                    assert(r@[k] == r0[k]);
                }
            }
        }
        i = i + 1;
    }
    r
}

impl AbsolutePath {
    /// The path of a crate's root.
    pub fn new(crate_name: Identifier) -> (r: AbsolutePath)
        ensures
            r@ == seq![crate_name@],
    {
        let r = AbsolutePath(vec![crate_name]);
        proof {
            assert(r@ =~= seq![crate_name@]);
        }
        r
    }

    /// A copy of the path.
    pub fn duplicate(&self) -> (r: AbsolutePath)
        ensures
            r@ == self@,
    {
        AbsolutePath(duplicate_all(&self.0))
    }

    /// Appends a segment.
    pub fn push(&mut self, ident: Identifier)
        ensures
            final(self)@ == old(self)@.push(ident@),
    {
        self.0.push(ident);
        proof {
            assert(self@ =~= old(self)@.push(ident@));
        }
    }

    /// Removes the last segment, if any.
    pub fn pop(&mut self) -> (r: Option<Identifier>)
        ensures
            old(self)@.len() > 0 ==> (r matches Some(i) && i@ == old(self)@.last() && final(self)@
                == old(self)@.drop_last()),
            old(self)@.len() == 0 ==> r is None && final(self)@ == old(self)@,
    {
        let r = self.0.pop();
        proof {
            assert(self@ =~= if old(self)@.len() > 0 { old(self)@.drop_last() } else { old(self)@ });
        }
        r
    }

    /// The last segment; a path is never empty.
    pub fn last(&self) -> (r: &Identifier)
        requires
            self@.len() > 0,
        ensures
            r@ == self@.last(),
    {
        &self.0[self.0.len() - 1]
    }

    /// Whether two paths name the same item.
    pub fn same(&self, other: &AbsolutePath) -> (r: bool)
        ensures
            r == (self@ == other@),
    {
        proof {
            lemma_names_len(self.0@);
            lemma_names_len(other.0@);
        }
        if self.0.len() != other.0.len() {
            return false;
        }
        let mut i: usize = 0;
        while i < self.0.len()
            invariant
                self.0@.len() == other.0@.len(),
                i <= self.0@.len(),
                forall|k: int| 0 <= k < i ==> self@[k] == other@[k],
            decreases self.0@.len() - i,
        {
            if !self.0[i].same(&other.0[i]) {
                proof {
                    assert(self@[i as int] != other@[i as int]);
                }
                return false;
            }
            i = i + 1;
        }
        proof {
            assert(self@ =~= other@);
        }
        true
    }

    /// The segments joined by `::`.
    pub open spec fn spec_text(path: Seq<Seq<char>>) -> Seq<char>
        decreases path.len(),
    {
        if path.len() == 0 {
            seq![]
        } else if path.len() == 1 {
            path[0]
        } else {
            Self::spec_text(path.drop_last()) + seq![':', ':'] + path.last()
        }
    }

    /// The segments joined by `::`, as its `Display` shows it.
    pub fn to_string(&self) -> (r: String)
        ensures
            r@ == Self::spec_text(self@),
    {
        let mut r = String::new();
        let mut i: usize = 0;
        while i < self.0.len()
            invariant
                i <= self@.len(),
                r@ == Self::spec_text(self@.take(i as int)),
            decreases self@.len() - i,
        {
            if i > 0 {
                r.append("::");
                proof {
                    reveal_strlit("::");
                }
            }
            push_str(&mut r, self.0[i].as_str());
            proof {
                assert(self@.take(i + 1).drop_last() =~= self@.take(i as int));
                if i > 0 {
                    assert(r@ =~= Self::spec_text(self@.take(i + 1)));
                } else {
                    assert(r@ =~= Self::spec_text(self@.take(i + 1)));
                }
            }
            i = i + 1;
        }
        proof {
            assert(self@.take(self@.len() as int) =~= self@);
        }
        r
    }
}

/// How a relative path starts.
#[derive(Debug, Clone, PartialEq, Eq)]
pub enum RelativePathStart {
    /// `crate`: the root of the crate.
    Crate,
    /// `super`, repeated the given number of times: that many modules up.
    Super(usize),
    /// A name looked up in the current module.
    Identifier(Identifier),
}

/// A path as written in source code, relative to the module it appears in.
#[derive(Debug, Clone, PartialEq, Eq)]
pub struct RelativePath {
    pub start: RelativePathStart,
    pub other: Vec<Identifier>,
}

impl RelativePath {
    /// The absolute path that a relative path written in `module` names, if it does not go above
    /// the crate root.
    pub open spec fn spec_to_absolute(
        start: RelativePathStart,
        other: Seq<Seq<char>>,
        module: Seq<Seq<char>>,
    ) -> Option<Seq<Seq<char>>> {
        match start {
            RelativePathStart::Crate => if module.len() > 0 {
                Some(seq![module[0]] + other)
            } else {
                None
            },
            RelativePathStart::Super(n) => if n < module.len() {
                Some(module.take(module.len() - n) + other)
            } else {
                None
            },
            RelativePathStart::Identifier(id) => Some(module.push(id@) + other),
        }
    }

    /// A path with only its start.
    pub fn new(start: RelativePathStart) -> (r: RelativePath)
        ensures
            r.start == start,
            r.other@.len() == 0,
    {
        RelativePath { start, other: Vec::new() }
    }

    /// Appends a segment.
    pub fn push(&mut self, ident: Identifier)
        ensures
            final(self).start == old(self).start,
            final(self).other@ == old(self).other@.push(ident),
    {
        self.other.push(ident);
    }

    /// The absolute path named by this path when written in `module`.
    pub fn to_absolute(&self, module: &AbsolutePath) -> (r: Option<AbsolutePath>)
        ensures
            match Self::spec_to_absolute(self.start, names(self.other@), module@) {
                Some(p) => r matches Some(q) && q@ == p,
                None => r is None,
            },
    {
        let mut segments: Vec<Identifier>;
        match &self.start {
            RelativePathStart::Crate => {
                if module.0.len() == 0 {
                    return None;
                }
                segments = vec![module.0[0].duplicate()];
                proof {
                    assert(names(segments@) =~= seq![module@[0]]);
                }
            },
            RelativePathStart::Super(n) => {
                if *n >= module.0.len() {
                    return None;
                }
                let keep = module.0.len() - *n;
                segments = Vec::new();
                let mut i: usize = 0;
                while i < keep
                    invariant
                        keep <= module.0@.len(),
                        i <= keep,
                        names(segments@) == module@.take(i as int),
                    decreases keep - i,
                {
                    let ghost before = segments@;
                    let d = module.0[i].duplicate();
                    segments.push(d);
                    proof {
                        lemma_names_push(before, d);
                        lemma_names_len(module.0@);
                        assert(module@.take(i + 1) =~= module@.take(i as int).push(d@));
                    }
                    i = i + 1;
                }
            },
            RelativePathStart::Identifier(id) => {
                segments = duplicate_all(&module.0);
                let ghost before = segments@;
                let d = id.duplicate();
                segments.push(d);
                proof {
                    lemma_names_push(before, d);
                }
            },
        }
        let ghost base = names(segments@);
        let mut j: usize = 0;
        while j < self.other.len()
            invariant
                j <= self.other@.len(),
                names(segments@) == base + names(self.other@).take(j as int),
            decreases self.other@.len() - j,
        {
            let ghost before = segments@;
            let d = self.other[j].duplicate();
            segments.push(d);
            proof {
                lemma_names_push(before, d);
                lemma_names_len(self.other@);
                assert(names(self.other@).take(j + 1) =~= names(self.other@).take(j as int).push(d@));
                assert(base + names(self.other@).take(j + 1) =~= (base + names(self.other@).take(j as int)).push(d@));
            }
            j = j + 1;
        }
        proof {
            assert(names(self.other@).take(self.other@.len() as int) =~= names(self.other@));
        }
        Some(AbsolutePath(segments))
    }
}

/// `super` repeated `n` times, separated by `::`.
pub open spec fn spec_supers(n: nat) -> Seq<char>
    decreases n,
{
    if n <= 1 {
        if n == 1 { "super"@ } else { seq![] }
    } else {
        spec_supers((n - 1) as nat) + "::super"@
    }
}

impl RelativePathStart {
    /// How the start of a path is written.
    pub open spec fn spec_text(&self) -> Seq<char> {
        match self {
            RelativePathStart::Crate => "crate"@,
            RelativePathStart::Super(n) => spec_supers(*n as nat),
            RelativePathStart::Identifier(id) => id@,
        }
    }
}

impl RelativePath {
    /// How a path is written: its start, then each segment after `::`.
    pub open spec fn spec_display(start: RelativePathStart, other: Seq<Seq<char>>) -> Seq<char>
        decreases other.len(),
    {
        if other.len() == 0 {
            start.spec_text()
        } else {
            Self::spec_display(start, other.drop_last()) + "::"@ + other.last()
        }
    }

    /// How the path is written.
    pub fn to_string(&self) -> (r: String)
        ensures
            r@ == Self::spec_display(self.start, names(self.other@)),
    {
        let mut r = String::new();
        match &self.start {
            RelativePathStart::Crate => {
                r.append("crate");
            },
            RelativePathStart::Super(n) => {
                let mut k: usize = 0;
                while k < *n
                    invariant
                        k <= *n,
                        r@ == spec_supers(k as nat),
                    decreases *n - k,
                {
                    if k > 0 {
                        r.append("::super");
                    } else {
                        r.append("super");
                    }
                    k = k + 1;
                }
            },
            RelativePathStart::Identifier(id) => {
                push_str(&mut r, id.as_str());
            },
        }
        let mut i: usize = 0;
        while i < self.other.len()
            invariant
                i <= self.other@.len(),
                r@ == Self::spec_display(self.start, names(self.other@).take(i as int)),
            decreases self.other@.len() - i,
        {
            r.append("::");
            push_str(&mut r, self.other[i].as_str());
            proof {
                assert(names(self.other@).take(i + 1).drop_last() =~= names(self.other@).take(i as int));
            }
            i = i + 1;
        }
        proof {
            assert(names(self.other@).take(i as int) =~= names(self.other@));
        }
        r
    }
}

/// How a path written in a module resolves: a path from `crate` names its segments from the
/// crate root, the first segment of the module, whatever other modules the path is written in;
/// each `super` goes one module up, and going above the root is refused; a path from a name
/// names it inside the module it is written in.
pub proof fn law_to_absolute(
    other: Seq<Seq<char>>,
    m: Seq<Seq<char>>,
    m2: Seq<Seq<char>>,
    k: usize,
    x: Seq<char>,
    id: Identifier,
)
    ensures
        m.len() > 0 ==> (RelativePath::spec_to_absolute(RelativePathStart::Crate, other, m) matches Some(q)
            && q.len() == other.len() + 1 && q[0] == m[0] && q.skip(1) == other),
        m.len() > 0 && m2.len() > 0 && m[0] == m2[0] ==> RelativePath::spec_to_absolute(
            RelativePathStart::Crate,
            other,
            m,
        ) == RelativePath::spec_to_absolute(RelativePathStart::Crate, other, m2),
        m.len() == 0 ==> RelativePath::spec_to_absolute(RelativePathStart::Crate, other, m) is None,
        RelativePath::spec_to_absolute(RelativePathStart::Identifier(id), other, m) matches Some(q) && q.len()
            == m.len() + 1 + other.len() && q.take(m.len() as int) == m && q[m.len() as int] == id@ && q.skip(
            (m.len() + 1) as int,
        ) == other,
        RelativePath::spec_to_absolute(RelativePathStart::Super(0), other, m) == (if m.len() > 0 {
            Some(m + other)
        } else {
            None::<Seq<Seq<char>>>
        }),
        k < usize::MAX ==> RelativePath::spec_to_absolute(RelativePathStart::Super((k + 1) as usize), other, m.push(x))
            == RelativePath::spec_to_absolute(RelativePathStart::Super(k), other, m),
        k >= m.len() ==> RelativePath::spec_to_absolute(RelativePathStart::Super(k), other, m) is None,
{
    if m.len() > 0 {
        let q = seq![m[0]] + other;
        assert(q.skip(1) =~= other);
    }
    let q = m.push(id@) + other;
    assert(q.take(m.len() as int) =~= m);
    assert(q.skip((m.len() + 1) as int) =~= other);
    assert(m.take(m.len() as int) =~= m);
    if k < usize::MAX && (k + 1) < m.push(x).len() {
        assert(m.push(x).take(m.push(x).len() - (k + 1)) =~= m.take(m.len() - k));
    }
}

} // verus!
