//! Scopes of variables bound to the paths of their types.

use vstd::prelude::*;

use crate::ast::Identifier;
use crate::path::AbsolutePath;

verus! {

/// A frame's variables as plain values: each name with the path of its type.
pub type VarsView = Seq<(Seq<char>, Seq<Seq<char>>)>;

/// The path a name is bound to last in the frame, if any.
pub open spec fn latest_path(s: VarsView, key: Seq<char>) -> Option<Seq<Seq<char>>>
    decreases s.len(),
{
    if s.len() == 0 {
        None
    } else if s.last().0 == key {
        Some(s.last().1)
    } else {
        latest_path(s.drop_last(), key)
    }
}

/// The path a name is bound to: in the innermost frame that binds it, the binding made last.
pub open spec fn resolve(frames: Seq<VarsView>, key: Seq<char>) -> Option<Seq<Seq<char>>>
    decreases frames.len(),
{
    if frames.len() == 0 {
        None
    } else {
        match latest_path(frames.last(), key) {
            Some(p) => Some(p),
            None => resolve(frames.drop_last(), key),
        }
    }
}

/// The variables of a frame as plain values.
pub open spec fn frame_view(f: Seq<(Identifier, AbsolutePath)>) -> VarsView {
    f.map_values(|e: (Identifier, AbsolutePath)| (e.0@, e.1@))
}

/// A scope of variables: its own frame and its parents' frames, the innermost last. A variable
/// is visible in the scope that binds it and in that scope's children.
#[derive(Debug)]
pub struct Scope {
    frames: Vec<Vec<(Identifier, AbsolutePath)>>,
}

impl Scope {
    /// The frames, outermost first.
    pub closed spec fn spec_frames(&self) -> Seq<VarsView> {
        self.frames@.map_values(|f: Vec<(Identifier, AbsolutePath)>| frame_view(f@))
    }

    pub open spec fn wf(&self) -> bool {
        self.spec_frames().len() > 0
    }

    /// Creates a new top-level scope.
    pub fn new() -> (r: Scope)
        ensures
            r.wf(),
            r.spec_frames() == seq![VarsView::empty()],
    {
        let r = Scope { frames: vec![Vec::new()] };
        proof {
            assert(frame_view(r.frames@[0]@) =~= VarsView::empty());
            assert(r.spec_frames() =~= seq![VarsView::empty()]);
        }
        r
    }

    /// Turns this scope into a child scope, which sees what this one binds, now and later
    /// through [Scope::parent]; [Scope::parent] gives this scope back.
    pub fn child(self) -> (r: Scope)
        ensures
            r.wf(),
            r.spec_frames() == self.spec_frames().push(VarsView::empty()),
    {
        let mut r = self;
        let ghost before = r.spec_frames();
        r.frames.push(Vec::new());
        proof {
            assert(frame_view(Seq::<(Identifier, AbsolutePath)>::empty()) =~= VarsView::empty());
            assert(r.spec_frames() =~= before.push(VarsView::empty()));
        }
        r
    }

    /// Inserts variable in the scope, bound to the path of its type.
    pub fn insert(&mut self, var: Identifier, type_: AbsolutePath)
        requires
            old(self).wf(),
        ensures
            final(self).wf(),
            final(self).spec_frames() == old(self).spec_frames().update(
                old(self).spec_frames().len() - 1,
                old(self).spec_frames().last().push((var@, type_@)),
            ),
    {
        let last = self.frames.len() - 1;
        let ghost e = (var@, type_@);
        let mut frame: Vec<(Identifier, AbsolutePath)> = Vec::new();
        std::mem::swap(&mut frame, &mut self.frames[last]);
        let ghost f0 = frame@;
        frame.push((var, type_));
        std::mem::swap(&mut frame, &mut self.frames[last]);
        proof {
            assert(frame_view(self.frames@[last as int]@) =~= frame_view(f0).push(e));
            assert(self.spec_frames() =~= old(self).spec_frames().update(
                old(self).spec_frames().len() - 1,
                old(self).spec_frames().last().push(e),
            ));
        }
    }

    /// Looks variable up in the scope or one of its parents.
    pub fn lookup(&self, var: &Identifier) -> (r: Option<AbsolutePath>)
        ensures
            match resolve(self.spec_frames(), var@) {
                Some(p) => r matches Some(q) && q@ == p,
                None => r is None,
            },
    {
        let mut i = self.frames.len();
        proof {
            assert(self.spec_frames().take(i as int) =~= self.spec_frames());
        }
        while i > 0
            invariant
                i <= self.frames@.len(),
                resolve(self.spec_frames(), var@) == resolve(self.spec_frames().take(i as int), var@),
            decreases i,
        {
            let frame = &self.frames[i - 1];
            proof {
                assert(self.spec_frames().take(i as int).drop_last() =~= self.spec_frames().take(i - 1));
                assert(self.spec_frames().take(i as int).last() == frame_view(frame@));
            }
            let mut j = frame.len();
            proof {
                assert(frame_view(frame@).take(j as int) =~= frame_view(frame@));
            }
            while j > 0
                invariant
                    j <= frame@.len(),
                    0 < i <= self.frames@.len(),
                    *frame == self.frames@[i - 1],
                    resolve(self.spec_frames(), var@) == resolve(self.spec_frames().take(i as int), var@),
                    self.spec_frames().take(i as int).drop_last() == self.spec_frames().take(i - 1),
                    self.spec_frames().take(i as int).last() == frame_view(frame@),
                    latest_path(frame_view(frame@), var@) == latest_path(frame_view(frame@).take(j as int), var@),
                decreases j,
            {
                proof {
                    assert(frame_view(frame@).take(j as int).drop_last() =~= frame_view(frame@).take(j - 1));
                }
                if frame[j - 1].0.same(var) {
                    return Some(frame[j - 1].1.duplicate());
                }
                j = j - 1;
            }
            proof {
                assert(frame_view(frame@).take(0) =~= VarsView::empty());
            }
            i = i - 1;
        }
        proof {
            assert(self.spec_frames().take(0) =~= Seq::<VarsView>::empty());
        }
        None
    }

    /// Gets the parent scope if there is one, with what it binds as it was.
    pub fn parent(self) -> (r: Option<Scope>)
        ensures
            self.spec_frames().len() > 1 ==> (r matches Some(p) && p.wf() && p.spec_frames()
                == self.spec_frames().drop_last()),
            self.spec_frames().len() <= 1 ==> r is None,
    {
        if self.frames.len() > 1 {
            let mut r = self;
            let ghost before = r.spec_frames();
            let _ = r.frames.pop();
            proof {
                assert(r.spec_frames() =~= before.drop_last());
            }
            Some(r)
        } else {
            None
        }
    }
}

/// A variable inserted in a scope resolves to the path it was bound to, and every other name
/// resolves as before.
pub proof fn law_insert_then_resolve(frames: Seq<VarsView>, key: Seq<char>, path: Seq<Seq<char>>, other: Seq<char>)
    requires
        frames.len() > 0,
    ensures
        resolve(frames.update(frames.len() - 1, frames.last().push((key, path))), key) == Some(path),
        other != key ==> resolve(frames.update(frames.len() - 1, frames.last().push((key, path))), other)
            == resolve(frames, other),
{
    let g = frames.update(frames.len() - 1, frames.last().push((key, path)));
    let f = frames.last().push((key, path));
    assert(g.last() == f);
    assert(g.drop_last() =~= frames.drop_last());
    assert(f.drop_last() =~= frames.last());
}

/// A child scope resolves names as its parent does until it binds them itself, and its parent
/// never sees what it binds.
pub proof fn law_child_scope(frames: Seq<VarsView>, own: VarsView, key: Seq<char>)
    ensures
        latest_path(own, key) is None ==> resolve(frames.push(own), key) == resolve(frames, key),
        latest_path(own, key) matches Some(p) ==> resolve(frames.push(own), key) == Some(p),
        resolve(frames.push(own).drop_last(), key) == resolve(frames, key),
{
    assert(frames.push(own).drop_last() =~= frames);
}

} // verus!
