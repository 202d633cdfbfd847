//! Building the high-level representation from the items of a package.

use vstd::prelude::*;

use crate::ast::Identifier;
use crate::ast::item::{Field, Function as AstFunction, ItemKind, Struct};
use crate::hir::body::{BodyBuilder, fn_supported, tr_function};
use crate::hir::types::{TypeError, TypeId, TypeTable, type_of};
use crate::hir::view::{ErrorView, FunctionView, error_view, function_view};
use crate::hir::{Function, FunctionId, Hir};
use crate::item_table::{EntryView, ItemTable, entries_view};
use crate::path::AbsolutePath;

verus! {

/// Why a function could not be translated.
#[derive(Debug, PartialEq, Eq)]
pub enum TranslationError {
    /// A variable was bound without its type.
    TypeInference,
    /// An expression's type is not the one expected.
    TypeMismatch { expected: Option<TypeId>, received: Option<TypeId> },
    /// A name that no variable in scope has.
    VariableNotDeclared(Identifier),
    /// A called function that is not known, or not translated yet.
    FunctionNotFound(AbsolutePath),
    /// `break` outside of a loop.
    InvalidBreak,
    /// A type that is not known.
    TypeError(TypeError),
}

/// Number of structures among the entries.
pub open spec fn count_structs(entries: Seq<EntryView>) -> nat
    decreases entries.len(),
{
    if entries.len() == 0 {
        0
    } else {
        count_structs(entries.drop_last()) + if entries.last().1.kind is Struct {
            1nat
        } else {
            0nat
        }
    }
}

/// Number of functions among the entries.
pub open spec fn count_functions(entries: Seq<EntryView>) -> nat
    decreases entries.len(),
{
    if entries.len() == 0 {
        0
    } else {
        count_functions(entries.drop_last()) + if entries.last().1.kind is Function {
            1nat
        } else {
            0nat
        }
    }
}

/// Every function among the entries can be translated in the module that holds it.
pub open spec fn functions_supported(entries: Seq<EntryView>) -> bool {
    forall|i: int|
        0 <= i < entries.len() ==> ((#[trigger] entries[i]).1.kind matches ItemKind::Function(f)
            ==> entries[i].0.len() > 0 && fn_supported(f, entries[i].0.drop_last()))
}

/// The function id bound to `key` last, if any.
pub open spec fn lookup_id(s: Seq<(Seq<Seq<char>>, FunctionId)>, key: Seq<Seq<char>>) -> Option<
    FunctionId,
>
    decreases s.len(),
{
    if s.len() == 0 {
        None
    } else if s.last().0 == key {
        Some(s.last().1)
    } else {
        lookup_id(s.drop_last(), key)
    }
}

/// The index of the last binding of `key` in `m`, if any.
pub open spec fn last_index(m: Seq<(Seq<Seq<char>>, FunctionId)>, key: Seq<Seq<char>>) -> Option<int>
    decreases m.len(),
{
    if m.len() == 0 {
        None
    } else if m.last().0 == key {
        Some(m.len() - 1)
    } else {
        last_index(m.drop_last(), key)
    }
}

/// `m` with `key` bound to `id`: its last binding replaced, or a new one at the end.
pub open spec fn bind_id(m: Seq<(Seq<Seq<char>>, FunctionId)>, key: Seq<Seq<char>>, id: FunctionId) -> Seq<
    (Seq<Seq<char>>, FunctionId),
> {
    match last_index(m, key) {
        Some(i) => m.update(i, (key, id)),
        None => m.push((key, id)),
    }
}

/// The structures among the entries, in order.
pub open spec fn structs_of(entries: Seq<EntryView>) -> Seq<Struct>
    decreases entries.len(),
{
    if entries.len() == 0 {
        Seq::empty()
    } else {
        let before = structs_of(entries.drop_last());
        match entries.last().1.kind {
            ItemKind::Struct(st) => before.push(st),
            _ => before,
        }
    }
}

/// The functions among the entries, with their paths, in order.
pub open spec fn functions_of(entries: Seq<EntryView>) -> Seq<(Seq<Seq<char>>, AstFunction)>
    decreases entries.len(),
{
    if entries.len() == 0 {
        Seq::empty()
    } else {
        let before = functions_of(entries.drop_last());
        match entries.last().1.kind {
            ItemKind::Function(f) => before.push((entries.last().0, f)),
            _ => before,
        }
    }
}

/// The names of the structures `structs`, bound to ids counted from `count`.
pub open spec fn struct_bindings(structs: Seq<Struct>, count: nat) -> Seq<(Seq<char>, TypeId)> {
    Seq::new(structs.len(), |j: int| (structs[j].name@, TypeId::Compound((count + j) as u32)))
}

/// The fields among `fields` whose type `names` knows, with that type.
pub open spec fn known_fields(fields: Seq<Field>, names: Seq<(Seq<char>, TypeId)>) -> Seq<
    (Seq<char>, TypeId),
>
    decreases fields.len(),
{
    if fields.len() == 0 {
        Seq::empty()
    } else {
        let before = known_fields(fields.drop_last(), names);
        match type_of(names, fields.last().type_@) {
            Some(t) => before.push((fields.last().name@, t)),
            None => before,
        }
    }
}

/// An error for each field among `fields` whose type `names` does not know.
pub open spec fn unknown_fields(fields: Seq<Field>, names: Seq<(Seq<char>, TypeId)>) -> Seq<ErrorView>
    decreases fields.len(),
{
    if fields.len() == 0 {
        Seq::empty()
    } else {
        let before = unknown_fields(fields.drop_last(), names);
        match type_of(names, fields.last().type_@) {
            Some(_) => before,
            None => before.push(ErrorView::TypeNotFound(fields.last().type_@)),
        }
    }
}

/// The errors of the fields of the structures `structs`, structure by structure.
pub open spec fn field_errors(structs: Seq<Struct>, names: Seq<(Seq<char>, TypeId)>) -> Seq<ErrorView>
    decreases structs.len(),
{
    if structs.len() == 0 {
        Seq::empty()
    } else {
        field_errors(structs.drop_last(), names) + unknown_fields(structs.last().fields@, names)
    }
}

/// The mapping `m` once each function of `fns` is bound, in order, to the id that is the
/// mapping's length at that time.
pub open spec fn mapping_after(
    m: Seq<(Seq<Seq<char>>, FunctionId)>,
    fns: Seq<(Seq<Seq<char>>, AstFunction)>,
) -> Seq<(Seq<Seq<char>>, FunctionId)>
    decreases fns.len(),
{
    if fns.len() == 0 {
        m
    } else {
        let before = mapping_after(m, fns.drop_last());
        bind_id(before, fns.last().0, FunctionId(before.len() as u32))
    }
}

/// The return types of translated functions.
pub open spec fn view_returns(fvs: Seq<FunctionView>) -> Seq<Option<TypeId>> {
    fvs.map_values(|fv: FunctionView| fv.return_type)
}

/// What translating each function of `fns` in order gives: the functions translated and the
/// errors, each function seeing the return types of those translated before it.
pub open spec fn translate_all(fns: Seq<(Seq<Seq<char>>, AstFunction)>, env: Env) -> (
    Seq<FunctionView>,
    Seq<ErrorView>,
)
    decreases fns.len(),
{
    if fns.len() == 0 {
        (Seq::empty(), Seq::empty())
    } else {
        let (done, errs) = translate_all(fns.drop_last(), env);
        let now = Env {
            types: env.types,
            mapping: env.mapping,
            returns: env.returns + view_returns(done),
        };
        match tr_function(fns.last().1, now, fns.last().0.drop_last()) {
            Ok(fv) => (done.push(fv), errs),
            Err(x) => (done, errs.push(x)),
        }
    }
}

/// Views of functions.
pub open spec fn functions_view(fs: Seq<Function>) -> Seq<FunctionView> {
    fs.map_values(|f: Function| function_view(f))
}

/// Views of errors.
pub open spec fn errors_view(es: Seq<TranslationError>) -> Seq<ErrorView> {
    es.map_values(|e: TranslationError| error_view(e))
}

/// What translating a function body needs to know of the program, as plain values: the type
/// names, the paths of the functions with their ids, and the return types of the functions
/// translated so far, by id.
pub struct Env {
    pub types: Seq<(Seq<char>, TypeId)>,
    pub mapping: Seq<(Seq<Seq<char>>, FunctionId)>,
    pub returns: Seq<Option<TypeId>>,
}

/// The return types of the functions `fs`.
pub open spec fn returns_of(fs: Seq<Function>) -> Seq<Option<TypeId>> {
    fs.map_values(|f: Function| f.signature.return_type)
}

/// Builds the high-level representation: types first, then the functions.
#[derive(Debug)]
pub struct HirBuilder {
    type_table: TypeTable,
    function_mapping: Vec<(AbsolutePath, FunctionId)>,
    functions: Vec<Function>,
    errors: Vec<TranslationError>,
}

impl HirBuilder {
    pub closed spec fn spec_type_table(&self) -> TypeTable {
        self.type_table
    }

    /// Paths of the functions and their ids.
    pub closed spec fn spec_mapping(&self) -> Seq<(Seq<Seq<char>>, FunctionId)> {
        self.function_mapping@.map_values(|e: (AbsolutePath, FunctionId)| (e.0@, e.1))
    }

    /// Functions translated so far.
    pub closed spec fn spec_functions(&self) -> Seq<Function> {
        self.functions@
    }

    /// Errors so far.
    pub closed spec fn spec_errors(&self) -> Seq<TranslationError> {
        self.errors@
    }

    pub open spec fn wf(&self) -> bool {
        self.spec_type_table().wf()
    }

    /// What translating a function body can know of this builder.
    pub open spec fn spec_env(&self) -> Env {
        Env {
            types: self.spec_type_table().spec_names(),
            mapping: self.spec_mapping(),
            returns: returns_of(self.spec_functions()),
        }
    }

    /// A builder with no type, function or error.
    pub fn new() -> (r: HirBuilder)
        ensures
            r.wf(),
            r.spec_type_table().spec_count() == 0,
            r.spec_type_table().spec_names().len() == 0,
            r.spec_mapping().len() == 0,
            r.spec_functions().len() == 0,
            r.spec_errors().len() == 0,
    {
        let r = HirBuilder {
            type_table: TypeTable::new(),
            function_mapping: Vec::new(),
            functions: Vec::new(),
            errors: Vec::new(),
        };
        proof {
            assert(r.spec_mapping() =~= Seq::<(Seq<Seq<char>>, FunctionId)>::empty());
        }
        r
    }

    /// The type table.
    pub fn type_table(&self) -> (r: &TypeTable)
        ensures
            *r == self.spec_type_table(),
    {
        &self.type_table
    }

    /// The function translated under `id`, if any.
    pub fn function(&self, id: FunctionId) -> (r: Option<&Function>)
        ensures
            (id.0 as int) < self.spec_functions().len() ==> r == Some(&self.spec_functions()[id.0 as int]),
            (id.0 as int) >= self.spec_functions().len() ==> r is None,
    {
        let i = id.0 as usize;
        if i < self.functions.len() {
            Some(&self.functions[i])
        } else {
            None
        }
    }

    /// The id of the function at `path`, if it is known.
    pub fn lookup_function(&self, path: &AbsolutePath) -> (r: Option<FunctionId>)
        ensures
            r == lookup_id(self.spec_mapping(), path@),
    {
        let mut i = self.function_mapping.len();
        proof {
            assert(self.spec_mapping().take(i as int) =~= self.spec_mapping());
        }
        while i > 0
            invariant
                i <= self.function_mapping@.len(),
                lookup_id(self.spec_mapping(), path@) == lookup_id(self.spec_mapping().take(i as int), path@),
            decreases i,
        {
            proof {
                assert(self.spec_mapping().take(i as int).drop_last() =~= self.spec_mapping().take(i - 1));
            }
            if self.function_mapping[i - 1].0.same(path) {
                return Some(self.function_mapping[i - 1].1);
            }
            i = i - 1;
        }
        proof {
            assert(self.spec_mapping().take(0) =~= Seq::<(Seq<Seq<char>>, FunctionId)>::empty());
        }
        None
    }

    /// Binds `path` to `id`, replacing the binding of the same path, if any.
    fn bind_function(&mut self, path: AbsolutePath, id: FunctionId)
        ensures
            final(self).spec_type_table() == old(self).spec_type_table(),
            final(self).spec_functions() == old(self).spec_functions(),
            final(self).spec_errors() == old(self).spec_errors(),
            lookup_id(final(self).spec_mapping(), path@) == Some(id),
            forall|p: Seq<Seq<char>>| p != path@ ==> #[trigger] lookup_id(final(self).spec_mapping(), p)
                == lookup_id(old(self).spec_mapping(), p),
            lookup_id(old(self).spec_mapping(), path@) is None ==> final(self).spec_mapping().len()
                == old(self).spec_mapping().len() + 1,
            lookup_id(old(self).spec_mapping(), path@) is Some ==> final(self).spec_mapping().len()
                == old(self).spec_mapping().len(),
            final(self).spec_mapping() == bind_id(old(self).spec_mapping(), path@, id),
    {
        let ghost m0 = self.spec_mapping();
        let ghost key = path@;
        let mut i = self.function_mapping.len();
        while i > 0
            invariant
                i <= self.function_mapping@.len(),
                self.spec_mapping() == m0,
                forall|k: int| i <= k < m0.len() ==> m0[k].0 != key,
                key == path@,
                self.type_table == old(self).type_table,
                self.functions == old(self).functions,
                self.errors == old(self).errors,
                m0 == old(self).spec_mapping(),
            decreases i,
        {
            if self.function_mapping[i - 1].0.same(&path) {
                let ghost v0 = self.function_mapping@;
                let entry = (path, id);
                let ghost ge = entry;
                self.function_mapping.set(i - 1, entry);
                proof {
                    assert(self.function_mapping@ == v0.update(i - 1, ge));
                    assert(m0[i - 1].0 == v0[i - 1].0@);
                    assert(self.spec_mapping() =~= m0.update(i - 1, (key, id)));
                    lemma_lookup_id_update(m0, i - 1, key, id);
                    lemma_lookup_id_some(m0, key, i - 1);
                    lemma_last_index(m0, key, i - 1);
                }
                return;
            }
            i = i - 1;
        }
        let entry = (path, id);
        let ghost ge = entry;
        self.function_mapping.push(entry);
        proof {
            assert(ge.0@ == key);
            assert(self.spec_mapping() =~= m0.push((key, id)));
            assert(m0.push((key, id)).drop_last() =~= m0);
            lemma_lookup_id_none(m0, key);
            lemma_last_index_none(m0, key);
        }
    }

    /// The representation built, if nothing failed; the errors otherwise.
    pub fn build(self) -> (r: Result<Hir, Vec<TranslationError>>)
        ensures
            self.spec_errors().len() == 0 ==> (r matches Ok(h) && h.type_table == self.spec_type_table()
                && h.functions@ == self.spec_functions()),
            self.spec_errors().len() > 0 ==> (r matches Err(e) && e@ == self.spec_errors()),
    {
        if self.errors.len() == 0 {
            Ok(Hir { type_table: self.type_table, functions: self.functions })
        } else {
            Err(self.errors)
        }
    }

    /// Adds the items of `item_table`: each structure becomes a type, then its fields are
    /// added, then each function is translated in the module that holds it. Problems are
    /// collected among the errors.
    ///
    /// Items are taken in the order they were declared. A structure is named first, so that any
    /// field may refer to any structure; a function gets as id the number of functions bound so
    /// far, and is translated after every structure has its fields, seeing the functions
    /// translated before it.
    pub fn populate(&mut self, item_table: ItemTable)
        requires
            old(self).wf(),
            old(self).spec_type_table().spec_count() + count_structs(item_table.spec_declared())
                < u32::MAX,
            functions_supported(item_table.spec_declared()),
        ensures
            final(self).wf(),
            final(self).spec_type_table().spec_count() == old(self).spec_type_table().spec_count()
                + count_structs(item_table.spec_declared()),
            final(self).spec_type_table().spec_names() == old(self).spec_type_table().spec_names()
                + struct_bindings(
                structs_of(item_table.spec_declared()),
                old(self).spec_type_table().spec_count() as nat,
            ),
            final(self).spec_type_table().spec_fields() == old(self).spec_type_table().spec_fields()
                + Seq::new(
                structs_of(item_table.spec_declared()).len(),
                |j: int|
                    known_fields(
                        structs_of(item_table.spec_declared())[j].fields@,
                        final(self).spec_type_table().spec_names(),
                    ),
            ),
            final(self).spec_mapping() == mapping_after(
                old(self).spec_mapping(),
                functions_of(item_table.spec_declared()),
            ),
            functions_view(final(self).spec_functions()) == functions_view(old(self).spec_functions())
                + translate_all(
                functions_of(item_table.spec_declared()),
                Env {
                    types: final(self).spec_type_table().spec_names(),
                    mapping: final(self).spec_mapping(),
                    returns: returns_of(old(self).spec_functions()),
                },
            ).0,
            errors_view(final(self).spec_errors()) == errors_view(old(self).spec_errors()) + field_errors(
                structs_of(item_table.spec_declared()),
                final(self).spec_type_table().spec_names(),
            ) + translate_all(
                functions_of(item_table.spec_declared()),
                Env {
                    types: final(self).spec_type_table().spec_names(),
                    mapping: final(self).spec_mapping(),
                    returns: returns_of(old(self).spec_functions()),
                },
            ).1,
    {
        let ghost entries = item_table.spec_declared();
        let mut items = item_table.into_entries();
        let mut strukts: Vec<(TypeId, Vec<Field>)> = Vec::new();
        let mut functions: Vec<(AbsolutePath, AstFunction)> = Vec::new();
        let ghost f0 = self.functions@;
        let ghost e0 = self.errors@;
        let ghost c0 = self.type_table.spec_count();
        let ghost n0 = self.type_table.spec_names();
        let ghost fl0 = self.type_table.spec_fields();
        let ghost m0 = self.spec_mapping();
        let ghost mut k: int = 0;
        proof {
            assert(entries.take(0) =~= Seq::<EntryView>::empty());
            assert(n0 + struct_bindings(Seq::<Struct>::empty(), c0 as nat) =~= n0);
            assert(fl0 + Seq::new(0, |j: int| Seq::<(Seq<char>, TypeId)>::empty()) =~= fl0);
            lemma_structs_count(entries);
        }
        while items.len() > 0
            invariant
                self.wf(),
                0 <= k <= entries.len(),
                entries_view(items@) == entries.skip(k),
                self.type_table.spec_count() == c0 + count_structs(entries.take(k)),
                c0 + count_structs(entries) < u32::MAX,
                functions_supported(entries),
                self.functions@ == f0,
                self.errors@ == e0,
                structs_of(entries.take(k)).len() == count_structs(entries.take(k)),
                self.type_table.spec_names() == n0 + struct_bindings(structs_of(entries.take(k)), c0 as nat),
                self.type_table.spec_fields() == fl0 + Seq::new(
                    structs_of(entries.take(k)).len(),
                    |j: int| Seq::<(Seq<char>, TypeId)>::empty(),
                ),
                fl0.len() == c0,
                strukts@.len() == structs_of(entries.take(k)).len(),
                forall|j: int|
                    0 <= j < strukts@.len() ==> (#[trigger] strukts@[j]).0 == TypeId::Compound((c0 + j) as u32)
                        && strukts@[j].1 == structs_of(entries.take(k))[j].fields,
                functions@.len() == functions_of(entries.take(k)).len(),
                forall|j: int| 0 <= j < functions@.len() ==> (#[trigger] functions@[j]).0@.len() > 0 && fn_supported(functions@[j].1, functions@[j].0@.drop_last()),
                forall|j: int|
                    0 <= j < functions@.len() ==> (#[trigger] functions@[j]).0@ == functions_of(entries.take(k))[j].0
                        && functions@[j].1 == functions_of(entries.take(k))[j].1,
                self.spec_mapping() == mapping_after(m0, functions_of(entries.take(k))),
            decreases items@.len(),
        {
            let ghost i0 = items@;
            let (path, item) = items.remove(0);
            proof {
                assert(entries_view(i0)[0] == (path@, item));
                assert(entries.skip(k).len() > 0);
                assert(entries[k] == (path@, item));
                assert(entries.take(k + 1).drop_last() =~= entries.take(k));
                assert(entries.take(k + 1).last() == entries[k]);
                lemma_count_structs_prefix(entries, k + 1);
                lemma_structs_count(entries.take(k + 1));
            }
            let ghost before_structs = structs_of(entries.take(k));
            let ghost before_fns = functions_of(entries.take(k));
            match item.kind {
                ItemKind::Module(_) => {},
                ItemKind::Struct(strukt) => {
                    let ghost st = strukt;
                    let id = self.type_table.define_name(strukt.name);
                    strukts.push((id, strukt.fields));
                    proof {
                        assert(structs_of(entries.take(k + 1)) == before_structs.push(st));
                        assert(struct_bindings(before_structs.push(st), c0 as nat) =~= struct_bindings(
                            before_structs,
                            c0 as nat,
                        ).push((st.name@, TypeId::Compound((c0 + before_structs.len()) as u32))));
                        assert(self.type_table.spec_names() =~= n0 + struct_bindings(
                            structs_of(entries.take(k + 1)),
                            c0 as nat,
                        ));
                        assert(self.type_table.spec_fields() =~= fl0 + Seq::new(
                            structs_of(entries.take(k + 1)).len(),
                            |j: int| Seq::<(Seq<char>, TypeId)>::empty(),
                        ));
                    }
                },
                ItemKind::Function(function) => {
                    let id = FunctionId(self.function_mapping.len() as u32);
                    self.bind_function(path.duplicate(), id);
                    proof {
                        assert(functions_supported(entries));
                        assert(entries[k].1.kind matches ItemKind::Function(f) ==> entries[k].0.len() > 0 && fn_supported(f, entries[k].0.drop_last()));
                        assert(functions_of(entries.take(k + 1)) == before_fns.push((path@, function)));
                        assert(before_fns.push((path@, function)).drop_last() =~= before_fns);
                    }
                    functions.push((path, function));
                },
            }
            proof {
                assert(entries_view(items@) =~= entries.skip(k + 1)) by {
                    assert forall|x: int| 0 <= x < entries_view(items@).len() implies entries_view(items@)[x] == entries.skip(k + 1)[x] by {
                        assert(items@[x] == i0[x + 1]);
                        assert(entries_view(i0)[x + 1] == entries.skip(k)[x + 1]);
                    }
                }
                k = k + 1;
            }
        }
        proof {
            assert(entries.take(k) =~= entries);
        }
        let ghost structs = structs_of(entries);
        let ghost fns = functions_of(entries);
        let ghost names1 = self.type_table.spec_names();
        let ghost m1 = self.spec_mapping();
        let ghost count_after_types = self.type_table.spec_count();
        proof {
            assert(field_errors(structs.take(0), names1) =~= Seq::<ErrorView>::empty()) by {
                assert(structs.take(0) =~= Seq::<Struct>::empty());
            }
            assert(errors_view(e0) + Seq::<ErrorView>::empty() =~= errors_view(e0));
            assert(self.type_table.spec_fields() =~= fl0 + Seq::new(
                structs.len(),
                |j: int| if j < 0 { known_fields(structs[j].fields@, names1) } else { Seq::<(Seq<char>, TypeId)>::empty() },
            ));
        }
        let mut s: usize = 0;
        while s < strukts.len()
            invariant
                self.wf(),
                s <= strukts@.len(),
                strukts@.len() == structs.len(),
                forall|j: int|
                    0 <= j < strukts@.len() ==> (#[trigger] strukts@[j]).0 == TypeId::Compound((c0 + j) as u32)
                        && strukts@[j].1 == structs[j].fields,
                c0 + structs.len() < u32::MAX,
                fl0.len() == c0,
                self.type_table.spec_count() == count_after_types,
                count_after_types == c0 + structs.len(),
                self.type_table.spec_names() == names1,
                self.spec_mapping() == m1,
                self.functions@ == f0,
                self.type_table.spec_fields() == fl0 + Seq::new(
                    structs.len(),
                    |j: int| if j < s { known_fields(structs[j].fields@, names1) } else { Seq::<(Seq<char>, TypeId)>::empty() },
                ),
                forall|j: int| 0 <= j < functions@.len() ==> (#[trigger] functions@[j]).0@.len() > 0 && fn_supported(functions@[j].1, functions@[j].0@.drop_last()),
                errors_view(self.errors@) == errors_view(e0) + field_errors(structs.take(s as int), names1),
            decreases strukts@.len() - s,
        {
            let id = strukts[s].0;
            let ghost fs = structs[s as int].fields@;
            let mut f: usize = 0;
            proof {
                assert(fs.take(0) =~= Seq::<Field>::empty());
                assert(errors_view(self.errors@) + Seq::<ErrorView>::empty() =~= errors_view(self.errors@));
                assert(self.type_table.spec_fields() =~= fl0 + Seq::new(
                    structs.len(),
                    |j: int| if j < s { known_fields(structs[j].fields@, names1) } else if j == s { known_fields(fs.take(0), names1) } else { Seq::<(Seq<char>, TypeId)>::empty() },
                ));
            }
            while f < strukts[s].1.len()
                invariant
                    self.wf(),
                    s < strukts@.len(),
                    strukts@.len() == structs.len(),
                    f <= fs.len(),
                    fs == strukts@[s as int].1@,
                    fs == structs[s as int].fields@,
                    id == strukts@[s as int].0,
                    id == TypeId::Compound((c0 + s) as u32),
                    c0 + structs.len() < u32::MAX,
                    fl0.len() == c0,
                    self.type_table.spec_count() == count_after_types,
                    count_after_types == c0 + structs.len(),
                    self.type_table.spec_names() == names1,
                    self.spec_mapping() == m1,
                    self.functions@ == f0,
                    self.type_table.spec_fields() == fl0 + Seq::new(
                        structs.len(),
                        |j: int| if j < s { known_fields(structs[j].fields@, names1) } else if j == s { known_fields(fs.take(f as int), names1) } else { Seq::<(Seq<char>, TypeId)>::empty() },
                    ),
                    forall|j: int| 0 <= j < functions@.len() ==> (#[trigger] functions@[j]).0@.len() > 0 && fn_supported(functions@[j].1, functions@[j].0@.drop_last()),
                    errors_view(self.errors@) == errors_view(e0) + field_errors(structs.take(s as int), names1)
                        + unknown_fields(fs.take(f as int), names1),
                decreases fs.len() - f,
            {
                let name = strukts[s].1[f].name.duplicate();
                let type_ = strukts[s].1[f].type_.duplicate();
                let ghost fields_before = self.type_table.spec_fields();
                let ghost errors_before = self.errors@;
                proof {
                    assert(fs.take(f + 1).drop_last() =~= fs.take(f as int));
                    assert(fs.take(f + 1).last() == fs[f as int]);
                }
                match self.type_table.add_field(id, name, type_) {
                    Ok(()) => {},
                    Err(err) => {
                        self.errors.push(TranslationError::TypeError(err));
                        proof {
                            assert(errors_view(self.errors@) =~= errors_view(errors_before).push(error_view(
                                TranslationError::TypeError(err),
                            )));
                        }
                    },
                }
                proof {
                    assert(self.type_table.spec_fields() =~= fl0 + Seq::new(
                        structs.len(),
                        |j: int| if j < s { known_fields(structs[j].fields@, names1) } else if j == s { known_fields(fs.take(f + 1), names1) } else { Seq::<(Seq<char>, TypeId)>::empty() },
                    ));
                    assert(errors_view(self.errors@) =~= errors_view(e0) + field_errors(structs.take(s as int), names1)
                        + unknown_fields(fs.take(f + 1), names1));
                }
                f = f + 1;
            }
            proof {
                assert(fs.take(f as int) =~= fs);
                assert(structs.take(s + 1).drop_last() =~= structs.take(s as int));
                assert(structs.take(s + 1).last() == structs[s as int]);
                assert(errors_view(self.errors@) =~= errors_view(e0) + field_errors(structs.take(s + 1), names1));
                assert(self.type_table.spec_fields() =~= fl0 + Seq::new(
                    structs.len(),
                    |j: int| if j < s + 1 { known_fields(structs[j].fields@, names1) } else { Seq::<(Seq<char>, TypeId)>::empty() },
                ));
            }
            s = s + 1;
        }
        let ghost env0 = Env { types: names1, mapping: m1, returns: returns_of(f0) };
        let ghost e1 = self.errors@;
        proof {
            assert(structs.take(s as int) =~= structs);
            assert(fns.take(0) =~= Seq::<(Seq<Seq<char>>, AstFunction)>::empty());
            assert(functions_view(f0) + Seq::<FunctionView>::empty() =~= functions_view(f0));
            assert(errors_view(e1) + Seq::<ErrorView>::empty() =~= errors_view(e1));
            assert(returns_of(f0) + view_returns(Seq::<FunctionView>::empty()) =~= returns_of(f0));
        }
        let mut n: usize = 0;
        while n < functions.len()
            invariant
                self.wf(),
                n <= functions@.len(),
                functions@.len() == fns.len(),
                forall|j: int|
                    0 <= j < functions@.len() ==> (#[trigger] functions@[j]).0@ == fns[j].0
                        && functions@[j].1 == fns[j].1,
                forall|j: int| 0 <= j < functions@.len() ==> (#[trigger] functions@[j]).0@.len() > 0 && fn_supported(functions@[j].1, functions@[j].0@.drop_last()),
                self.type_table.spec_names() == names1,
                self.type_table.spec_fields() == fl0 + Seq::new(
                    structs.len(),
                    |j: int| known_fields(structs[j].fields@, names1),
                ),
                self.type_table.spec_count() == count_after_types,
                self.spec_mapping() == m1,
                env0 == (Env { types: names1, mapping: m1, returns: returns_of(f0) }),
                functions_view(self.functions@) == functions_view(f0) + translate_all(fns.take(n as int), env0).0,
                returns_of(self.functions@) == returns_of(f0) + view_returns(translate_all(fns.take(n as int), env0).0),
                errors_view(self.errors@) == errors_view(e1) + translate_all(fns.take(n as int), env0).1,
            decreases functions@.len() - n,
        {
            let mut module = functions[n].0.duplicate();
            let _ = module.pop();
            let ghost fs = self.functions@;
            let ghost es = self.errors@;
            let ghost done = translate_all(fns.take(n as int), env0);
            proof {
                assert(fns.take(n + 1).drop_last() =~= fns.take(n as int));
                assert(fns.take(n + 1).last() == fns[n as int]);
                assert(self.spec_env() == (Env { types: names1, mapping: m1, returns: returns_of(f0) + view_returns(done.0) }));
            }
            match BodyBuilder::translate(&*self, module, &functions[n].1) {
                Ok(function) => {
                    self.functions.push(function);
                    proof {
                        assert(functions_view(self.functions@) =~= functions_view(fs).push(function_view(function)));
                        assert(returns_of(self.functions@) =~= returns_of(fs).push(function.signature.return_type));
                        assert(view_returns(done.0.push(function_view(function))) =~= view_returns(done.0).push(function.signature.return_type));
                    }
                },
                Err(error) => {
                    self.errors.push(error);
                    proof {
                        assert(errors_view(self.errors@) =~= errors_view(es).push(error_view(error)));
                    }
                },
            }
            proof {
                assert(functions_view(self.functions@) =~= functions_view(f0) + translate_all(fns.take(n + 1), env0).0);
                assert(returns_of(self.functions@) =~= returns_of(f0) + view_returns(translate_all(fns.take(n + 1), env0).0));
                assert(errors_view(self.errors@) =~= errors_view(e1) + translate_all(fns.take(n + 1), env0).1);
            }
            n = n + 1;
        }
        proof {
            assert(fns.take(n as int) =~= fns);
            lemma_structs_count(entries);
            assert(errors_view(self.errors@) =~= errors_view(e0) + field_errors(structs, names1) + translate_all(fns, env0).1);
        }
    }
}

pub proof fn lemma_count_structs_prefix(entries: Seq<EntryView>, k: int)
    requires
        0 <= k <= entries.len(),
    ensures
        count_structs(entries.take(k)) <= count_structs(entries),
        count_functions(entries.take(k)) <= count_functions(entries),
    decreases entries.len() - k,
{
    if k < entries.len() {
        lemma_count_structs_prefix(entries, k + 1);
        assert(entries.take(k + 1).drop_last() =~= entries.take(k));
    } else {
        assert(entries.take(k) =~= entries);
    }
}

pub proof fn lemma_lookup_id_update(
    s: Seq<(Seq<Seq<char>>, FunctionId)>,
    i: int,
    key: Seq<Seq<char>>,
    id: FunctionId,
)
    requires
        0 <= i < s.len(),
        s[i].0 == key,
        forall|k: int| i < k < s.len() ==> s[k].0 != key,
    ensures
        lookup_id(s.update(i, (key, id)), key) == Some(id),
        forall|p: Seq<Seq<char>>| p != key ==> #[trigger] lookup_id(s.update(i, (key, id)), p) == lookup_id(s, p),
    decreases s.len(),
{
    let t = s.update(i, (key, id));
    if i < s.len() - 1 {
        lemma_lookup_id_update(s.drop_last(), i, key, id);
        assert(t.drop_last() =~= s.drop_last().update(i, (key, id)));
        assert(t.last() == s.last());
        assert forall|p: Seq<Seq<char>>| p != key implies #[trigger] lookup_id(t, p) == lookup_id(s, p) by {
            assert(lookup_id(s.drop_last().update(i, (key, id)), p) == lookup_id(s.drop_last(), p));
        }
    } else {
        assert(t.drop_last() =~= s.drop_last());
        assert forall|p: Seq<Seq<char>>| p != key implies #[trigger] lookup_id(t, p) == lookup_id(s, p) by {
            assert(t.last().0 == key);
        }
    }
}

pub proof fn lemma_lookup_id_some(s: Seq<(Seq<Seq<char>>, FunctionId)>, key: Seq<Seq<char>>, i: int)
    requires
        0 <= i < s.len(),
        s[i].0 == key,
    ensures
        lookup_id(s, key) is Some,
    decreases s.len(),
{
    if s.last().0 != key {
        lemma_lookup_id_some(s.drop_last(), key, i);
    }
}

pub proof fn lemma_lookup_id_none(s: Seq<(Seq<Seq<char>>, FunctionId)>, key: Seq<Seq<char>>)
    requires
        forall|k: int| 0 <= k < s.len() ==> s[k].0 != key,
    ensures
        lookup_id(s, key) is None,
    decreases s.len(),
{
    if s.len() > 0 {
        lemma_lookup_id_none(s.drop_last(), key);
    }
}


pub proof fn lemma_last_index(m: Seq<(Seq<Seq<char>>, FunctionId)>, key: Seq<Seq<char>>, i: int)
    requires
        0 <= i < m.len(),
        m[i].0 == key,
        forall|k: int| i < k < m.len() ==> m[k].0 != key,
    ensures
        last_index(m, key) == Some(i),
    decreases m.len(),
{
    if i < m.len() - 1 {
        lemma_last_index(m.drop_last(), key, i);
    }
}

pub proof fn lemma_last_index_none(m: Seq<(Seq<Seq<char>>, FunctionId)>, key: Seq<Seq<char>>)
    requires
        forall|k: int| 0 <= k < m.len() ==> m[k].0 != key,
    ensures
        last_index(m, key) is None,
    decreases m.len(),
{
    if m.len() > 0 {
        lemma_last_index_none(m.drop_last(), key);
    }
}

pub proof fn lemma_structs_count(entries: Seq<EntryView>)
    ensures
        structs_of(entries).len() == count_structs(entries),
        functions_of(entries).len() == count_functions(entries),
    decreases entries.len(),
{
    if entries.len() > 0 {
        lemma_structs_count(entries.drop_last());
    }
}

} // verus!
