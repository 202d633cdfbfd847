//! Scopes of local variables.

use vstd::prelude::*;

use crate::ast::Identifier;
use crate::hir::types::TypeId;

verus! {

/// An id of local variable.
///
/// These ids are only unique in the same function they were declared at.
#[derive(Debug, Clone, Copy, PartialEq, Eq, Hash, Structural)]
pub struct VarId(pub u32);

/// A variable bound in a scope: its name, id and type.
pub type Binding = (Identifier, VarId, TypeId);

/// A scope's own variables and whether it is inside a loop, as plain values.
pub type FrameView = (Seq<(Seq<char>, (VarId, TypeId))>, bool);

/// One level of nesting: the variables declared at it, and whether it is inside a loop.
#[derive(Debug)]
struct Frame {
    vars: Vec<Binding>,
    loop_context: bool,
}

/// The variables of a frame as plain values.
pub open spec fn vars_view(s: Seq<Binding>) -> Seq<(Seq<char>, (VarId, TypeId))> {
    s.map_values(|b: Binding| (b.0@, (b.1, b.2)))
}

/// Every id bound in `frames` is below `n`.
pub open spec fn ids_below(frames: Seq<FrameView>, n: u32) -> bool {
    forall|i: int, j: int|
        0 <= i < frames.len() && 0 <= j < frames[i].0.len() ==> (#[trigger] frames[i].0[j]).1.0.0 < n
}

/// The variable a name denotes: in the innermost frame that declares it, the one declared there
/// last.
pub open spec fn lookup_frames(frames: Seq<FrameView>, key: Seq<char>) -> Option<(VarId, TypeId)>
    decreases frames.len(),
{
    if frames.len() == 0 {
        None
    } else {
        match crate::hir::types::latest(frames.last().0, key) {
            Some(v) => Some(v),
            None => lookup_frames(frames.drop_last(), key),
        }
    }
}

/// The scope is a portion of code that defines where local variable names are accessible.
///
/// Variables follow lexical scoping: only variables defined in the same scope or a parent
/// scope may be accessed. A scope is the stack of its own frame and its parents' frames, the
/// innermost last. Ids are taken from one counter for the whole nest: a child is made from its
/// parent and gives it back, so that no id is given out twice.
#[derive(Debug)]
pub struct Scope {
    frames: Vec<Frame>,
    latest_id: u32,
}

impl Scope {
    /// The frames, outermost first.
    pub closed spec fn spec_frames(&self) -> Seq<FrameView> {
        self.frames@.map_values(|f: Frame| (vars_view(f.vars@), f.loop_context))
    }

    /// The id the next variable gets.
    pub closed spec fn spec_next_id(&self) -> u32 {
        self.latest_id
    }

    /// The variable `key` denotes in this scope.
    pub open spec fn spec_lookup(&self, key: Seq<char>) -> Option<(VarId, TypeId)> {
        lookup_frames(self.spec_frames(), key)
    }

    /// Whether this scope is inside a loop.
    pub open spec fn spec_is_loop(&self) -> bool {
        self.spec_frames().last().1
    }

    /// There is a frame, and every id bound so far is below the next one.
    pub open spec fn wf(&self) -> bool {
        &&& self.spec_frames().len() > 0
        &&& ids_below(self.spec_frames(), self.spec_next_id())
    }

    /// Creates a new top-level scope.
    pub fn new() -> (r: Scope)
        ensures
            r.wf(),
            r.spec_frames() == seq![(Seq::<(Seq<char>, (VarId, TypeId))>::empty(), false)],
            r.spec_next_id() == 0,
    {
        let r = Scope { frames: vec![Frame { vars: Vec::new(), loop_context: false }], latest_id: 0 };
        proof {
            assert(vars_view(r.frames@[0].vars@) =~= Seq::<(Seq<char>, (VarId, TypeId))>::empty());
            assert(r.spec_frames() =~= seq![(Seq::<(Seq<char>, (VarId, TypeId))>::empty(), false)]);
        }
        r
    }

    /// Turns this scope into a child scope, inside a loop if this one is. The child continues
    /// this scope's ids; [Scope::parent] gives this scope back.
    pub fn child(self) -> (r: Scope)
        requires
            self.wf(),
        ensures
            r.wf(),
            r.spec_frames() == self.spec_frames().push((Seq::<(Seq<char>, (VarId, TypeId))>::empty(), self.spec_is_loop())),
            r.spec_next_id() == self.spec_next_id(),
    {
        let loop_context = self.frames[self.frames.len() - 1].loop_context;
        self.push_frame(loop_context)
    }

    /// Turns this scope into a child scope that is inside loop. The child continues this scope's
    /// ids; [Scope::parent] gives this scope back.
    pub fn child_loop(self) -> (r: Scope)
        requires
            self.wf(),
        ensures
            r.wf(),
            r.spec_frames() == self.spec_frames().push((Seq::<(Seq<char>, (VarId, TypeId))>::empty(), true)),
            r.spec_next_id() == self.spec_next_id(),
    {
        self.push_frame(true)
    }

    /// This scope with a new innermost frame.
    fn push_frame(self, loop_context: bool) -> (r: Scope)
        requires
            self.wf(),
        ensures
            r.wf(),
            r.spec_frames() == self.spec_frames().push((Seq::<(Seq<char>, (VarId, TypeId))>::empty(), loop_context)),
            r.spec_next_id() == self.spec_next_id(),
    {
        let mut r = self;
        let ghost before = r.spec_frames();
        r.frames.push(Frame { vars: Vec::new(), loop_context });
        proof {
            assert(vars_view(Seq::<Binding>::empty()) =~= Seq::<(Seq<char>, (VarId, TypeId))>::empty());
            assert(r.spec_frames() =~= before.push((Seq::<(Seq<char>, (VarId, TypeId))>::empty(), loop_context)));
        }
        r
    }

    /// Inserts variable in the scope, with a new id, and gives the id.
    pub fn insert(&mut self, var: Identifier, type_id: TypeId) -> (r: VarId)
        requires
            old(self).wf(),
            old(self).spec_next_id() < u32::MAX,
        ensures
            final(self).wf(),
            r == VarId(old(self).spec_next_id()),
            forall|i: int, j: int|
                0 <= i < old(self).spec_frames().len() && 0 <= j < old(self).spec_frames()[i].0.len()
                    ==> (#[trigger] old(self).spec_frames()[i].0[j]).1.0 != r,
            final(self).spec_next_id() == old(self).spec_next_id() + 1,
            final(self).spec_frames() == old(self).spec_frames().update(
                old(self).spec_frames().len() - 1,
                (
                    old(self).spec_frames().last().0.push((var@, (r, type_id))),
                    old(self).spec_frames().last().1,
                ),
            ),
    {
        let var_id = VarId(self.latest_id);
        let ghost v = var@;
        let last = self.frames.len() - 1;
        let mut frame = Frame { vars: Vec::new(), loop_context: false };
        std::mem::swap(&mut frame, &mut self.frames[last]);
        let ghost fv = frame.vars@;
        frame.vars.push((var, var_id, type_id));
        std::mem::swap(&mut frame, &mut self.frames[last]);
        self.latest_id = self.latest_id + 1;
        proof {
            let of = old(self).spec_frames();
            assert(vars_view(self.frames@[last as int].vars@) =~= vars_view(fv).push((v, (var_id, type_id))));
            assert(self.spec_frames() =~= of.update(
                of.len() - 1,
                (of.last().0.push((v, (var_id, type_id))), of.last().1),
            ));
            let nf = self.spec_frames();
            assert forall|i: int, j: int| 0 <= i < nf.len() && 0 <= j < nf[i].0.len() implies (
            #[trigger] nf[i].0[j]).1.0.0 < self.latest_id by {
                if i == of.len() - 1 && j == of.last().0.len() {
                } else {
                    assert(nf[i].0[j] == of[i].0[j]);
                }
            }
        }
        var_id
    }

    /// Looks variable up in the scope or one of its parents.
    pub fn lookup(&self, var: &Identifier) -> (r: Option<(VarId, TypeId)>)
        ensures
            r == self.spec_lookup(var@),
    {
        let mut i = self.frames.len();
        proof {
            assert(self.spec_frames().take(i as int) =~= self.spec_frames());
        }
        while i > 0
            invariant
                i <= self.frames@.len(),
                lookup_frames(self.spec_frames(), var@) == lookup_frames(
                    self.spec_frames().take(i as int),
                    var@,
                ),
            decreases i,
        {
            let frame = &self.frames[i - 1];
            let ghost fs = self.spec_frames().take(i as int);
            proof {
                assert(fs.drop_last() =~= self.spec_frames().take(i - 1));
                assert(fs.last() == self.spec_frames()[i - 1]);
            }
            let mut j = frame.vars.len();
            proof {
                assert(vars_view(frame.vars@).take(j as int) =~= vars_view(frame.vars@));
            }
            while j > 0
                invariant
                    j <= frame.vars@.len(),
                    0 < i <= self.frames@.len(),
                    *frame == self.frames@[i - 1],
                    lookup_frames(self.spec_frames(), var@) == lookup_frames(
                        self.spec_frames().take(i as int),
                        var@,
                    ),
                    self.spec_frames().take(i as int).drop_last() == self.spec_frames().take(i - 1),
                    self.spec_frames().take(i as int).last() == self.spec_frames()[i - 1],
                    crate::hir::types::latest(vars_view(frame.vars@), var@) == crate::hir::types::latest(
                        vars_view(frame.vars@).take(j as int),
                        var@,
                    ),
                decreases j,
            {
                proof {
                    assert(vars_view(frame.vars@).take(j as int).drop_last() =~= vars_view(frame.vars@).take(j - 1));
                }
                let b = &frame.vars[j - 1];
                if b.0.same(var) {
                    return Some((b.1, b.2));
                }
                j = j - 1;
            }
            proof {
                assert(vars_view(frame.vars@).take(0) =~= Seq::<(Seq<char>, (VarId, TypeId))>::empty());
            }
            i = i - 1;
        }
        None
    }

    /// Gets the parent scope if there is one; it continues this scope's ids, so that ids given
    /// out in the child are not given out again.
    pub fn parent(self) -> (r: Option<Scope>)
        requires
            self.wf(),
        ensures
            self.spec_frames().len() > 1 ==> (r matches Some(p) && p.wf() && p.spec_frames()
                == self.spec_frames().drop_last() && p.spec_next_id() == self.spec_next_id()),
            self.spec_frames().len() <= 1 ==> r is None,
    {
        if self.frames.len() > 1 {
            let mut r = self;
            let ghost before = r.spec_frames();
            let _ = r.frames.pop();
            proof {
                assert(r.spec_frames() =~= before.drop_last());
            }
            Some(r)
        } else {
            None
        }
    }

    /// Checks if current scope is in loop context.
    ///
    /// That, for example, defines if `break` may be used.
    pub fn is_loop(&self) -> (r: bool)
        requires
            self.wf(),
        ensures
            r == self.spec_is_loop(),
    {
        self.frames[self.frames.len() - 1].loop_context
    }
}

/// A variable inserted in a scope is what its name denotes there.
pub proof fn law_insert_then_lookup(frames: Seq<FrameView>, key: Seq<char>, v: (VarId, TypeId))
    requires
        frames.len() > 0,
    ensures
        lookup_frames(
            frames.update(frames.len() - 1, (frames.last().0.push((key, v)), frames.last().1)),
            key,
        ) == Some(v),
{
    let g = frames.update(frames.len() - 1, (frames.last().0.push((key, v)), frames.last().1));
    crate::hir::types::lemma_latest_push(frames.last().0, (key, v), key);
    assert(g.last() == (frames.last().0.push((key, v)), frames.last().1));
}

/// Inserting a variable leaves what every other name denotes as it was, and leaves the scope
/// inside a loop exactly when it was.
pub proof fn law_insert_keeps_others(frames: Seq<FrameView>, key: Seq<char>, v: (VarId, TypeId), other: Seq<char>)
    requires
        frames.len() > 0,
        other != key,
    ensures
        lookup_frames(
            frames.update(frames.len() - 1, (frames.last().0.push((key, v)), frames.last().1)),
            other,
        ) == lookup_frames(frames, other),
        frames.update(frames.len() - 1, (frames.last().0.push((key, v)), frames.last().1)).last().1
            == frames.last().1,
{
    let g = frames.update(frames.len() - 1, (frames.last().0.push((key, v)), frames.last().1));
    crate::hir::types::lemma_latest_push(frames.last().0, (key, v), other);
    assert(g.last() == (frames.last().0.push((key, v)), frames.last().1));
    assert(g.drop_last() =~= frames.drop_last());
}

/// Ids are fresh: the next id is bound nowhere in the scope, and once a variable takes it, every
/// id bound is below the one after it.
pub proof fn law_insert_fresh(frames: Seq<FrameView>, next: u32, key: Seq<char>, t: TypeId)
    requires
        frames.len() > 0,
        ids_below(frames, next),
        next < u32::MAX,
    ensures
        forall|i: int, j: int|
            0 <= i < frames.len() && 0 <= j < frames[i].0.len() ==> (#[trigger] frames[i].0[j]).1.0 != VarId(next),
        ids_below(
            frames.update(frames.len() - 1, (frames.last().0.push((key, (VarId(next), t))), frames.last().1)),
            (next + 1) as u32,
        ),
{
    let g = frames.update(frames.len() - 1, (frames.last().0.push((key, (VarId(next), t))), frames.last().1));
    assert forall|i: int, j: int| 0 <= i < g.len() && 0 <= j < g[i].0.len() implies (#[trigger] g[i].0[j]).1.0.0 < (
    next + 1) as u32 by {
        if i == frames.len() - 1 && j == frames.last().0.len() {
        } else {
            assert(g[i].0[j] == frames[i].0[j]);
        }
    }
}

/// A child scope and the parent it gives back keep every bound id below the next one, so that
/// the ids given out in the child are not given out again; a new scope is not in a loop, a
/// child made for a loop is, and any other child is in a loop exactly when its parent is.
pub proof fn law_child_keeps_ids(frames: Seq<FrameView>, next: u32, is_loop: bool)
    requires
        frames.len() > 0,
        ids_below(frames, next),
    ensures
        ids_below(frames.push((seq![], is_loop)), next),
        ids_below(frames.push((seq![], is_loop)).drop_last(), next),
        frames.push((seq![], is_loop)).last().1 == is_loop,
        seq![(Seq::<(Seq<char>, (VarId, TypeId))>::empty(), false)].last().1 == false,
{
    let g = frames.push((seq![], is_loop));
    assert forall|i: int, j: int| 0 <= i < g.len() && 0 <= j < g[i].0.len() implies (#[trigger] g[i].0[j]).1.0.0 < next by {
        assert(g[i] == frames[i]);
    }
    assert(g.drop_last() =~= frames);
}

/// A child scope sees the variables of its parent.
pub proof fn law_child_sees_parent(frames: Seq<FrameView>, is_loop: bool, key: Seq<char>)
    ensures
        lookup_frames(frames.push((seq![], is_loop)), key) == lookup_frames(frames, key),
{
    assert(frames.push((seq![], is_loop)).drop_last() =~= frames);
}

/// Going back to the parent hides what the child declared.
pub proof fn law_parent_hides_child(frames: Seq<FrameView>, child: FrameView, key: Seq<char>)
    ensures
        lookup_frames(frames.push(child).drop_last(), key) == lookup_frames(frames, key),
{
    assert(frames.push(child).drop_last() =~= frames);
}

} // verus!
