//! Types of the high-level representation.

use vstd::prelude::*;
use crate::ast::Identifier;
use crate::text::str_is;

verus! {

/// Identifier of a type: a primitive type, or the index of a user-defined (compound) type.
#[derive(Debug, Clone, Copy, PartialEq, Eq, Hash, Structural)]
pub enum TypeId {
    Primitive(PrimitiveType),
    Compound(u32),
}

/// Types built into the language.
#[derive(Debug, Clone, Copy, PartialEq, Eq, Hash, Structural)]
pub enum PrimitiveType {
    Bool,
    I8,
    I16,
    I32,
    I64,
    Isize,
    U8,
    U16,
    U32,
    U64,
    Usize,
    F32,
}

impl TypeId {
    /// The boolean type.
    pub fn bool_type() -> (r: TypeId)
        ensures
            r == TypeId::Primitive(PrimitiveType::Bool),
    {
        TypeId::Primitive(PrimitiveType::Bool)
    }

    /// The 32-bit signed integer type.
    pub fn i32_type() -> (r: TypeId)
        ensures
            r == TypeId::Primitive(PrimitiveType::I32),
    {
        TypeId::Primitive(PrimitiveType::I32)
    }
}

impl PrimitiveType {
    /// Name of the primitive type in source code.
    pub open spec fn spec_name(self) -> Seq<char> {
        match self {
            PrimitiveType::Bool => seq!['b', 'o', 'o', 'l'],
            PrimitiveType::U8 => seq!['u', '8'],
            PrimitiveType::U16 => seq!['u', '1', '6'],
            PrimitiveType::U32 => seq!['u', '3', '2'],
            PrimitiveType::U64 => seq!['u', '6', '4'],
            PrimitiveType::Usize => seq!['u', 's', 'i', 'z', 'e'],
            PrimitiveType::I8 => seq!['i', '8'],
            PrimitiveType::I16 => seq!['i', '1', '6'],
            PrimitiveType::I32 => seq!['i', '3', '2'],
            PrimitiveType::I64 => seq!['i', '6', '4'],
            PrimitiveType::Isize => seq!['i', 's', 'i', 'z', 'e'],
            PrimitiveType::F32 => seq!['f', '3', '2'],
        }
    }

    /// The primitive type with the given name, if any.
    pub open spec fn spec_from_name(s: Seq<char>) -> Option<PrimitiveType> {
        if s == (PrimitiveType::Bool).spec_name() {
            Some(PrimitiveType::Bool)
        } else if s == (PrimitiveType::U8).spec_name() {
            Some(PrimitiveType::U8)
        } else if s == (PrimitiveType::U16).spec_name() {
            Some(PrimitiveType::U16)
        } else if s == (PrimitiveType::U32).spec_name() {
            Some(PrimitiveType::U32)
        } else if s == (PrimitiveType::U64).spec_name() {
            Some(PrimitiveType::U64)
        } else if s == (PrimitiveType::Usize).spec_name() {
            Some(PrimitiveType::Usize)
        } else if s == (PrimitiveType::I8).spec_name() {
            Some(PrimitiveType::I8)
        } else if s == (PrimitiveType::I16).spec_name() {
            Some(PrimitiveType::I16)
        } else if s == (PrimitiveType::I32).spec_name() {
            Some(PrimitiveType::I32)
        } else if s == (PrimitiveType::I64).spec_name() {
            Some(PrimitiveType::I64)
        } else if s == (PrimitiveType::Isize).spec_name() {
            Some(PrimitiveType::Isize)
        } else if s == (PrimitiveType::F32).spec_name() {
            Some(PrimitiveType::F32)
        } else {
            None
        }
    }

    /// Parses a primitive type from its name.
    pub fn from_str(s: &str) -> (r: Result<PrimitiveType, ()>)
        ensures
            r is Ok <==> Self::spec_from_name(s@) is Some,
            r matches Ok(t) ==> Self::spec_from_name(s@) == Some(t),
    {
        if str_is(s, &['b', 'o', 'o', 'l']) {
            Ok(PrimitiveType::Bool)
        } else if str_is(s, &['u', '8']) {
            Ok(PrimitiveType::U8)
        } else if str_is(s, &['u', '1', '6']) {
            Ok(PrimitiveType::U16)
        } else if str_is(s, &['u', '3', '2']) {
            Ok(PrimitiveType::U32)
        } else if str_is(s, &['u', '6', '4']) {
            Ok(PrimitiveType::U64)
        } else if str_is(s, &['u', 's', 'i', 'z', 'e']) {
            Ok(PrimitiveType::Usize)
        } else if str_is(s, &['i', '8']) {
            Ok(PrimitiveType::I8)
        } else if str_is(s, &['i', '1', '6']) {
            Ok(PrimitiveType::I16)
        } else if str_is(s, &['i', '3', '2']) {
            Ok(PrimitiveType::I32)
        } else if str_is(s, &['i', '6', '4']) {
            Ok(PrimitiveType::I64)
        } else if str_is(s, &['i', 's', 'i', 'z', 'e']) {
            Ok(PrimitiveType::Isize)
        } else if str_is(s, &['f', '3', '2']) {
            Ok(PrimitiveType::F32)
        } else {
            Err(())
        }
    }
}

/// Reading a primitive type's name back gives the type.
pub proof fn primitive_name_roundtrip(t: PrimitiveType)
    ensures
        PrimitiveType::spec_from_name(t.spec_name()) == Some(t),
{
}

/// Why a type could not be used.
#[derive(Debug, PartialEq, Eq)]
pub enum TypeError {
    NotFound(Identifier),
    AlreadyDefined(Identifier),
}

/// The value bound to `key` last, if any: a later binding of a name hides earlier ones.
pub open spec fn latest<V>(s: Seq<(Seq<char>, V)>, key: Seq<char>) -> Option<V>
    decreases s.len(),
{
    if s.len() == 0 {
        None
    } else if s.last().0 == key {
        Some(s.last().1)
    } else {
        latest(s.drop_last(), key)
    }
}

pub proof fn lemma_latest_push<V>(s: Seq<(Seq<char>, V)>, e: (Seq<char>, V), key: Seq<char>)
    ensures
        latest(s.push(e), key) == if e.0 == key {
            Some(e.1)
        } else {
            latest(s, key)
        },
{
    assert(s.push(e).drop_last() =~= s);
}

/// The type `name` denotes with the bindings `names`: the type bound to it last, or else the
/// primitive type so named.
pub open spec fn type_of(names: Seq<(Seq<char>, TypeId)>, name: Seq<char>) -> Option<TypeId> {
    match latest(names, name) {
        Some(t) => Some(t),
        None => match PrimitiveType::spec_from_name(name) {
            Some(p) => Some(TypeId::Primitive(p)),
            None => None,
        },
    }
}

/// Type bindings as plain values.
pub open spec fn bindings_view(s: Seq<(Identifier, TypeId)>) -> Seq<(Seq<char>, TypeId)> {
    s.map_values(|e: (Identifier, TypeId)| (e.0@, e.1))
}

/// Type table is a representation of all types defined in the program: names of user-defined
/// types, and the fields of each.
#[derive(Debug)]
pub struct TypeTable {
    latest_compound: u32,
    mapping: Vec<(Identifier, TypeId)>,
    fields: Vec<Vec<(Identifier, TypeId)>>,
}

impl TypeTable {
    /// Names bound to types, in the order they were defined.
    pub closed spec fn spec_names(&self) -> Seq<(Seq<char>, TypeId)> {
        bindings_view(self.mapping@)
    }

    /// Fields of each user-defined type, by its index, in the order they were added.
    pub closed spec fn spec_fields(&self) -> Seq<Seq<(Seq<char>, TypeId)>> {
        self.fields@.map_values(|f: Vec<(Identifier, TypeId)>| bindings_view(f@))
    }

    /// Number of user-defined types.
    pub closed spec fn spec_count(&self) -> u32 {
        self.latest_compound
    }

    pub open spec fn wf(&self) -> bool {
        self.spec_fields().len() == self.spec_count()
    }

    /// The type a name denotes: see [type_of].
    pub open spec fn spec_get(&self, name: Seq<char>) -> Option<TypeId> {
        type_of(self.spec_names(), name)
    }

    /// An empty table.
    pub fn new() -> (r: TypeTable)
        ensures
            r.wf(),
            r.spec_names().len() == 0,
            r.spec_fields().len() == 0,
            r.spec_count() == 0,
    {
        let r = TypeTable { latest_compound: 0, mapping: Vec::new(), fields: Vec::new() };
        proof {
            assert(r.spec_fields() =~= Seq::<Seq<(Seq<char>, TypeId)>>::empty());
            assert(r.spec_names() =~= Seq::<(Seq<char>, TypeId)>::empty());
        }
        r
    }

    /// The type that `id` denotes.
    pub fn get(&self, id: &Identifier) -> (r: Result<TypeId, TypeError>)
        ensures
            match self.spec_get(id@) {
                Some(t) => r == Ok::<TypeId, TypeError>(t),
                None => r matches Err(TypeError::NotFound(n)) && n@ == id@,
            },
    {
        let mut i = self.mapping.len();
        proof {
            assert(self.spec_names().take(i as int) =~= self.spec_names());
        }
        while i > 0
            invariant
                i <= self.mapping@.len(),
                latest(self.spec_names(), id@) == latest(self.spec_names().take(i as int), id@),
            decreases i,
        {
            let ghost t = self.spec_names().take(i as int);
            proof {
                assert(t.drop_last() =~= self.spec_names().take(i - 1));
            }
            if self.mapping[i - 1].0.same(id) {
                return Ok(self.mapping[i - 1].1);
            }
            i = i - 1;
        }
        proof {
            assert(self.spec_names().take(0) =~= Seq::<(Seq<char>, TypeId)>::empty());
        }
        match PrimitiveType::from_str(id.as_str()) {
            Ok(p) => Ok(TypeId::Primitive(p)),
            Err(_) => Err(TypeError::NotFound(id.duplicate())),
        }
    }

    /// Adds a user-defined type's name to the table, with no field yet, and gives its id.
    pub fn define_name(&mut self, name: Identifier) -> (r: TypeId)
        requires
            old(self).wf(),
            old(self).spec_count() < u32::MAX,
        ensures
            final(self).wf(),
            r == TypeId::Compound(old(self).spec_count()),
            final(self).spec_count() == old(self).spec_count() + 1,
            final(self).spec_names() == old(self).spec_names().push((name@, r)),
            final(self).spec_fields() == old(self).spec_fields().push(seq![]),
    {
        let id = TypeId::Compound(self.latest_compound);
        let ghost n0 = self.mapping@;
        let ghost f0 = self.fields@;
        let ghost v = name@;
        self.mapping.push((name, id));
        self.fields.push(Vec::new());
        self.latest_compound = self.latest_compound + 1;
        proof {
            assert(bindings_view(self.mapping@) =~= bindings_view(n0).push((v, id)));
            assert(bindings_view(self.fields@.last()@) =~= seq![]);
            assert(self.spec_fields() =~= old(self).spec_fields().push(seq![]));
        }
        id
    }

    /// Adds a field named `name`, of the type that `type_` denotes, to the user-defined type
    /// `strukt`.
    pub fn add_field(&mut self, strukt: TypeId, name: Identifier, type_: Identifier) -> (r: Result<
        (),
        TypeError,
    >)
        requires
            old(self).wf(),
            strukt matches TypeId::Compound(i) ==> i < old(self).spec_count(),
        ensures
            final(self).wf(),
            final(self).spec_names() == old(self).spec_names(),
            final(self).spec_count() == old(self).spec_count(),
            match old(self).spec_get(type_@) {
                None => r matches Err(TypeError::NotFound(n)) && n@ == type_@
                    && final(self).spec_fields() == old(self).spec_fields(),
                Some(t) => r is Ok && match strukt {
                    TypeId::Compound(i) => final(self).spec_fields() == old(self).spec_fields().update(
                        i as int,
                        old(self).spec_fields()[i as int].push((name@, t)),
                    ),
                    TypeId::Primitive(_) => final(self).spec_fields() == old(self).spec_fields(),
                },
            },
    {
        let t = match self.get(&type_) {
            Ok(t) => t,
            Err(e) => {
                return Err(e);
            },
        };
        match strukt {
            TypeId::Compound(index) => {
                let ghost v = name@;
                let i = index as usize;
                let mut entry: Vec<(Identifier, TypeId)> = Vec::new();
                std::mem::swap(&mut entry, &mut self.fields[i]);
                let ghost e0 = entry@;
                entry.push((name, t));
                std::mem::swap(&mut entry, &mut self.fields[i]);
                proof {
                    assert(bindings_view(self.fields@[i as int]@) =~= bindings_view(e0).push((v, t)));
                    assert(self.spec_fields() =~= old(self).spec_fields().update(
                        i as int,
                        old(self).spec_fields()[i as int].push((v, t)),
                    ));
                }
            },
            TypeId::Primitive(_) => {},
        }
        Ok(())
    }
}

/// A name defined last denotes the type defined under it, whatever was defined before and
/// whatever primitive type has that name; other names denote what they denoted.
pub proof fn law_define_then_get(
    names: Seq<(Seq<char>, TypeId)>,
    name: Seq<char>,
    id: TypeId,
    other: Seq<char>,
)
    ensures
        latest(names.push((name, id)), name) == Some(id),
        other != name ==> latest(names.push((name, id)), other) == latest(names, other),
{
    lemma_latest_push(names, (name, id), name);
    lemma_latest_push(names, (name, id), other);
}

} // verus!
