//! Table of items.
//!
//! Items have special scope and visibility rules as opposed to variable bindings. As such, they
//! are stored in a special data structure.

use vstd::prelude::*;

use crate::ast::item::Item;
use crate::path::AbsolutePath;

verus! {

/// An entry of the table, as plain values: the path's segments and the item.
pub type EntryView = (Seq<Seq<char>>, Item);

/// The entries as plain values.
pub open spec fn entries_view(s: Seq<(AbsolutePath, Item)>) -> Seq<EntryView> {
    s.map_values(|e: (AbsolutePath, Item)| (e.0@, e.1))
}

/// No two entries have the same path.
pub open spec fn keys_unique(s: Seq<EntryView>) -> bool {
    forall|i: int, j: int| 0 <= i < j < s.len() ==> s[i].0 != s[j].0
}

/// The item declared under `key`, if any.
pub open spec fn lookup(s: Seq<EntryView>, key: Seq<Seq<char>>) -> Option<Item>
    decreases s.len(),
{
    if s.len() == 0 {
        None
    } else if s.last().0 == key {
        Some(s.last().1)
    } else {
        lookup(s.drop_last(), key)
    }
}

/// The entries of `entries` whose path is not declared in `known`, in order.
pub open spec fn fresh_entries(entries: Seq<EntryView>, known: Seq<EntryView>) -> Seq<EntryView>
    decreases entries.len(),
{
    if entries.len() == 0 {
        seq![]
    } else if lookup(known, entries.last().0) is Some {
        fresh_entries(entries.drop_last(), known)
    } else {
        fresh_entries(entries.drop_last(), known).push(entries.last())
    }
}

/// The entries of `entries` whose path is already declared in `known`, in order.
pub open spec fn clashing_entries(entries: Seq<EntryView>, known: Seq<EntryView>) -> Seq<EntryView>
    decreases entries.len(),
{
    if entries.len() == 0 {
        seq![]
    } else if lookup(known, entries.last().0) is Some {
        clashing_entries(entries.drop_last(), known).push(entries.last())
    } else {
        clashing_entries(entries.drop_last(), known)
    }
}

pub proof fn lemma_lookup_push(s: Seq<EntryView>, e: EntryView, key: Seq<Seq<char>>)
    ensures
        lookup(s.push(e), key) == if e.0 == key {
            Some(e.1)
        } else {
            lookup(s, key)
        },
{
    assert(s.push(e).drop_last() =~= s);
}

pub proof fn lemma_lookup_some(s: Seq<EntryView>, key: Seq<Seq<char>>)
    ensures
        lookup(s, key) is Some <==> exists|i: int| 0 <= i < s.len() && s[i].0 == key,
    decreases s.len(),
{
    if s.len() > 0 {
        lemma_lookup_some(s.drop_last(), key);
        if lookup(s, key) is Some && s.last().0 != key {
            let i = choose|i: int| 0 <= i < s.len() - 1 && s.drop_last()[i].0 == key;
            assert(s[i].0 == key);
        }
        if exists|i: int| 0 <= i < s.len() && s[i].0 == key {
            let i = choose|i: int| 0 <= i < s.len() && s[i].0 == key;
            if i < s.len() - 1 {
                assert(s.drop_last()[i].0 == key);
            }
        }
    }
}

/// Table of all known items: the first item declared under each path, and the items declared
/// under a path that was taken already.
#[derive(Debug, PartialEq, Eq)]
pub struct ItemTable {
    declared: Vec<(AbsolutePath, Item)>,
    duplicated: Vec<(AbsolutePath, Item)>,
}

impl ItemTable {
    /// The declared entries, in the order they were declared.
    pub closed spec fn spec_declared(&self) -> Seq<EntryView> {
        entries_view(self.declared@)
    }

    /// Entries that clashed with an earlier declaration, in the order they were declared.
    pub closed spec fn spec_duplicated(&self) -> Seq<EntryView> {
        entries_view(self.duplicated@)
    }

    /// The item declared under `key`, if any.
    pub open spec fn spec_lookup(&self, key: Seq<Seq<char>>) -> Option<Item> {
        lookup(self.spec_declared(), key)
    }

    pub open spec fn wf(&self) -> bool {
        keys_unique(self.spec_declared())
    }

    /// An empty table.
    pub fn new() -> (r: ItemTable)
        ensures
            r.wf(),
            r.spec_declared().len() == 0,
            r.spec_duplicated().len() == 0,
    {
        ItemTable { declared: Vec::new(), duplicated: Vec::new() }
    }

    /// Adds `item` under `path`; if the path is taken, the item goes among the duplicates.
    fn try_insert(&mut self, path: AbsolutePath, item: Item)
        requires
            old(self).wf(),
        ensures
            final(self).wf(),
            old(self).spec_lookup(path@) is Some ==> final(self).spec_declared() == old(
                self,
            ).spec_declared() && final(self).spec_duplicated() == old(self).spec_duplicated().push(
                (path@, item),
            ),
            old(self).spec_lookup(path@) is None ==> final(self).spec_declared() == old(
                self,
            ).spec_declared().push((path@, item)) && final(self).spec_duplicated() == old(
                self,
            ).spec_duplicated(),
    {
        let pos = self.position(&path);
        proof {
            lemma_lookup_some(self.spec_declared(), path@);
        }
        match pos {
            Some(i) => {
                let key = self.declared[i].0.duplicate();
                let ghost dup0 = self.duplicated@;
                self.duplicated.push((key, item));
                proof {
                    assert(entries_view(self.duplicated@) =~= entries_view(dup0).push((path@, item)));
                }
            },
            None => {
                let ghost decl0 = self.declared@;
                self.declared.push((path, item));
                proof {
                    assert(entries_view(self.declared@) =~= entries_view(decl0).push((path@, item)));
                }
            },
        }
    }

    /// The index of the entry declared under `path`, if any.
    fn position(&self, path: &AbsolutePath) -> (r: Option<usize>)
        ensures
            match r {
                Some(i) => i < self.spec_declared().len() && self.spec_declared()[i as int].0
                    == path@,
                None => forall|k: int|
                    0 <= k < self.spec_declared().len() ==> self.spec_declared()[k].0 != path@,
            },
    {
        let mut i: usize = 0;
        while i < self.declared.len()
            invariant
                i <= self.declared@.len(),
                forall|k: int| 0 <= k < i ==> self.spec_declared()[k].0 != path@,
            decreases self.declared@.len() - i,
        {
            if self.declared[i].0.same(path) {
                return Some(i);
            }
            i = i + 1;
        }
        None
    }

    /// Adds `item` under its name in `scope`, the path of its parent.
    pub fn declare(&mut self, scope: AbsolutePath, item: Item)
        requires
            old(self).wf(),
        ensures
            final(self).wf(),
            ({
                let key = scope@.push(item.spec_name()@);
                &&& old(self).spec_lookup(key) is Some ==> final(self).spec_declared() == old(
                    self,
                ).spec_declared() && final(self).spec_duplicated() == old(
                    self,
                ).spec_duplicated().push((key, item))
                &&& old(self).spec_lookup(key) is None ==> final(self).spec_declared() == old(
                    self,
                ).spec_declared().push((key, item)) && final(self).spec_duplicated() == old(
                    self,
                ).spec_duplicated()
            }),
    {
        let mut scope = scope;
        scope.push(item.name().duplicate());
        self.try_insert(scope, item);
    }

    /// Adds `item` under `scope` itself.
    pub fn declare_anonymous(&mut self, scope: AbsolutePath, item: Item)
        requires
            old(self).wf(),
        ensures
            final(self).wf(),
            old(self).spec_lookup(scope@) is Some ==> final(self).spec_declared() == old(
                self,
            ).spec_declared() && final(self).spec_duplicated() == old(self).spec_duplicated().push(
                (scope@, item),
            ),
            old(self).spec_lookup(scope@) is None ==> final(self).spec_declared() == old(
                self,
            ).spec_declared().push((scope@, item)) && final(self).spec_duplicated() == old(
                self,
            ).spec_duplicated(),
    {
        self.try_insert(scope, item);
    }

    /// Merges another table into this one: its duplicates are kept, and each of its entries is
    /// declared here, among the duplicates if the path is taken here already.
    pub fn extend(&mut self, other: ItemTable)
        requires
            old(self).wf(),
            other.wf(),
        ensures
            final(self).wf(),
            final(self).spec_declared() == old(self).spec_declared() + fresh_entries(
                other.spec_declared(),
                old(self).spec_declared(),
            ),
            final(self).spec_duplicated() == old(self).spec_duplicated()
                + other.spec_duplicated() + clashing_entries(
                other.spec_declared(),
                old(self).spec_declared(),
            ),
    {
        let ItemTable { declared: mut entries, duplicated: mut other_dup } = other;
        let ghost od = entries_view(entries@);
        let ghost known = self.spec_declared();
        let ghost dup_base = self.spec_duplicated() + entries_view(other_dup@);
        let ghost dup0 = self.duplicated@;
        let ghost odup = other_dup@;
        self.duplicated.append(&mut other_dup);
        proof {
            assert(entries_view(self.duplicated@) =~= entries_view(dup0) + entries_view(odup));
            assert(od.take(0) =~= Seq::<EntryView>::empty());
            assert(known + fresh_entries(od.take(0), known) =~= known);
            assert(dup_base + clashing_entries(od.take(0), known) =~= dup_base);
        }
        let ghost mut j: int = 0;
        while entries.len() > 0
            invariant
                self.wf(),
                keys_unique(od),
                0 <= j <= od.len(),
                entries_view(entries@) == od.skip(j),
                self.spec_declared() == known + fresh_entries(od.take(j), known),
                self.spec_duplicated() == dup_base + clashing_entries(od.take(j), known),
            decreases entries@.len(),
        {
            let ghost e0 = entries@;
            let (path, item) = entries.remove(0);
            proof {
                assert(entries_view(e0)[0] == (path@, item));
                assert(od.skip(j).len() > 0);
                assert(od.skip(j)[0] == (path@, item));
                assert(od[j] == (path@, item));
                assert(od.take(j + 1).drop_last() =~= od.take(j));
                assert(od.take(j + 1).last() == od[j]);
                // the path is declared here iff it was declared before the merge
                lemma_lookup_some(known, path@);
                lemma_lookup_some(self.spec_declared(), path@);
                lemma_lookup_some(fresh_entries(od.take(j), known), path@);
                lemma_fresh_subset(od.take(j), known, path@);
                if lookup(known, path@) is Some {
                    let i = choose|i: int| 0 <= i < known.len() && known[i].0 == path@;
                    assert(self.spec_declared()[i].0 == path@);
                    assert(self.spec_lookup(path@) is Some);
                } else {
                    assert forall|k: int| 0 <= k < self.spec_declared().len() implies self.spec_declared()[k].0 != path@ by {
                        if k >= known.len() {
                            let f = fresh_entries(od.take(j), known);
                            assert(self.spec_declared()[k] == f[k - known.len()]);
                        }
                    }
                }
            }
            self.try_insert(path, item);
            proof {
                assert forall|k: int| 0 <= k < entries_view(entries@).len() implies entries_view(
                    entries@,
                )[k] == od.skip(j + 1)[k] by {
                    assert(entries@[k] == e0[k + 1]);
                    assert(entries_view(e0)[k + 1] == od.skip(j)[k + 1]);
                }
                assert(entries_view(entries@) =~= od.skip(j + 1));
                assert(known + fresh_entries(od.take(j), known).push((path@, item)) =~= (known
                    + fresh_entries(od.take(j), known)).push((path@, item)));
                assert(dup_base + clashing_entries(od.take(j), known).push((path@, item)) =~= (
                dup_base + clashing_entries(od.take(j), known)).push((path@, item)));
                j = j + 1;
            }
        }
        proof {
            assert(od.skip(j).len() == 0);
            assert(od.take(j) =~= od);
        }
    }

    /// The declared entries, to be changed in place. A change of an entry's path is the
    /// caller's to keep unique.
    pub fn iter_mut(&mut self) -> (r: &mut Vec<(AbsolutePath, Item)>)
        ensures
            entries_view(r@) == old(self).spec_declared(),
            entries_view(final(r)@) == final(self).spec_declared(),
            final(self).spec_duplicated() == old(self).spec_duplicated(),
    {
        &mut self.declared
    }

    /// The declared entries, in the order they were declared.
    pub fn iter(&self) -> (r: &Vec<(AbsolutePath, Item)>)
        ensures
            entries_view(r@) == self.spec_declared(),
    {
        &self.declared
    }

    /// The declared items, in the order they were declared.
    pub fn items(&self) -> (r: Vec<&Item>)
        ensures
            r@.len() == self.spec_declared().len(),
            forall|i: int| 0 <= i < r@.len() ==> *r@[i] == self.spec_declared()[i].1,
    {
        let mut r: Vec<&Item> = Vec::new();
        let mut i: usize = 0;
        while i < self.declared.len()
            invariant
                i <= self.declared@.len(),
                r@.len() == i,
                forall|k: int| 0 <= k < i ==> *r@[k] == self.spec_declared()[k].1,
            decreases self.declared@.len() - i,
        {
            r.push(&self.declared[i].1);
            i = i + 1;
        }
        r
    }

    /// The entries that clashed with an earlier declaration.
    pub fn duplicated(&self) -> (r: &Vec<(AbsolutePath, Item)>)
        ensures
            entries_view(r@) == self.spec_duplicated(),
    {
        &self.duplicated
    }

    /// The declared entries, consuming the table.
    pub fn into_entries(self) -> (r: Vec<(AbsolutePath, Item)>)
        ensures
            entries_view(r@) == self.spec_declared(),
    {
        self.declared
    }
}

impl Default for ItemTable {
    /// An empty table, as [ItemTable::new] makes it.
    fn default() -> (r: ItemTable)
        ensures
            r.wf(),
            r.spec_declared().len() == 0,
            r.spec_duplicated().len() == 0,
    {
        ItemTable::new()
    }
}

/// Entries taken fresh from `entries` have paths of `entries` not declared in `known`.
pub proof fn lemma_fresh_subset(entries: Seq<EntryView>, known: Seq<EntryView>, key: Seq<Seq<char>>)
    requires
        keys_unique(entries),
    ensures
        lookup(fresh_entries(entries, known), key) is Some ==> lookup(known, key) is None && exists|i: int|
            0 <= i < entries.len() && entries[i].0 == key,
        keys_unique(fresh_entries(entries, known)),
    decreases entries.len(),
{
    if entries.len() > 0 {
        assert(keys_unique(entries.drop_last()));
        lemma_fresh_subset(entries.drop_last(), known, key);
        lemma_fresh_subset(entries.drop_last(), known, entries.last().0);
        let f = fresh_entries(entries.drop_last(), known);
        lemma_lookup_push(f, entries.last(), key);
        lemma_lookup_some(f, entries.last().0);
        if lookup(fresh_entries(entries, known), key) is Some {
            if lookup(f, key) is Some {
                let i = choose|i: int| 0 <= i < entries.len() - 1 && entries.drop_last()[i].0 == key;
                assert(entries[i].0 == key);
            }
        }
        if lookup(known, entries.last().0) is None {
            assert forall|i: int, j: int| 0 <= i < j < f.len() + 1 implies f.push(entries.last())[i].0 != f.push(entries.last())[j].0 by {
                if j == f.len() {
                    if f[i].0 == entries.last().0 {
                        assert(lookup(f, entries.last().0) is Some);
                        let k = choose|k: int| 0 <= k < entries.len() - 1 && entries.drop_last()[k].0 == entries.last().0;
                        assert(entries[k].0 == entries[entries.len() - 1].0);
                    }
                }
            }
        }
    }
}

/// Declaring an item never replaces an earlier one: a path that resolved keeps resolving to the
/// same item, and a path that did not resolve now resolves to the new item.
pub proof fn declaration_keeps_first(before: Seq<EntryView>, entry: EntryView, key: Seq<Seq<char>>)
    ensures
        lookup(before, key) is Some ==> lookup(before, key) == lookup(
            if lookup(before, entry.0) is Some {
                before
            } else {
                before.push(entry)
            },
            key,
        ),
        lookup(before, entry.0) is None ==> lookup(before.push(entry), entry.0) == Some(entry.1),
{
    lemma_lookup_push(before, entry, key);
    lemma_lookup_push(before, entry, entry.0);
}

/// A path declared in a merged table stays declared after the merge.
pub proof fn lemma_extend_lookup(known: Seq<EntryView>, entries: Seq<EntryView>, key: Seq<Seq<char>>)
    requires
        lookup(entries, key) is Some,
    ensures
        lookup(known + fresh_entries(entries, known), key) is Some,
    decreases entries.len(),
{
    let f = fresh_entries(entries, known);
    lemma_lookup_some(known, key);
    lemma_lookup_some(known + f, key);
    if lookup(known, key) is Some {
        let i = choose|i: int| 0 <= i < known.len() && known[i].0 == key;
        assert((known + f)[i].0 == key);
    } else if entries.last().0 == key {
        assert(f == fresh_entries(entries.drop_last(), known).push(entries.last()));
        assert((known + f)[known.len() + f.len() - 1].0 == key);
    } else {
        lemma_extend_lookup(known, entries.drop_last(), key);
        let g = fresh_entries(entries.drop_last(), known);
        lemma_lookup_some(known + g, key);
        let i = choose|i: int| 0 <= i < (known + g).len() && (known + g)[i].0 == key;
        if lookup(known, entries.last().0) is Some {
            assert(f == g);
        } else {
            assert(f == g.push(entries.last()));
            assert((known + f)[i] == (known + g)[i]);
        }
    }
}

} // verus!
