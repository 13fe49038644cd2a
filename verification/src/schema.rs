//! Schemas and the registry that binds stream-local identifiers to them.

use crate::error::GobError;
use crate::types::{fields_view, FieldType, MapType, MapTypeView, StructType, StructTypeView};
use std::collections::HashMap;
use vstd::prelude::*;

verus! {

broadcast use vstd::std_specs::hash::group_hash_axioms;

/// What the registry knows of one identifier.
#[derive(Debug)]
pub enum TypeSchema {
    Bool,
    Int,
    Uint,
    Float,
    ByteSlice,
    String,
    /// Reserved: recognised, never decoded.
    Complex,
    Interface,
    /// A map from keys of one type to elements of another.
    MapOf(MapType),
    Struct(StructType),
    /// Stands for an identifier that the registry does not hold.
    Custom(i64),
}

/// A [`TypeSchema`] as mathematics.
pub ghost enum SchemaView {
    Bool,
    Int,
    Uint,
    Float,
    ByteSlice,
    String,
    Complex,
    Interface,
    MapOf(MapTypeView),
    Struct(StructTypeView),
    Custom(i64),
}

impl View for TypeSchema {
    type V = SchemaView;

    open spec fn view(&self) -> SchemaView {
        match self {
            TypeSchema::Bool => SchemaView::Bool,
            TypeSchema::Int => SchemaView::Int,
            TypeSchema::Uint => SchemaView::Uint,
            TypeSchema::Float => SchemaView::Float,
            TypeSchema::ByteSlice => SchemaView::ByteSlice,
            TypeSchema::String => SchemaView::String,
            TypeSchema::Complex => SchemaView::Complex,
            TypeSchema::Interface => SchemaView::Interface,
            TypeSchema::MapOf(m) => SchemaView::MapOf(m@),
            TypeSchema::Struct(s) => SchemaView::Struct(s@),
            TypeSchema::Custom(id) => SchemaView::Custom(*id),
        }
    }
}

impl Clone for TypeSchema {
    fn clone(&self) -> (c: Self)
        ensures
            c@ == self@,
    {
        match self {
            TypeSchema::Bool => TypeSchema::Bool,
            TypeSchema::Int => TypeSchema::Int,
            TypeSchema::Uint => TypeSchema::Uint,
            TypeSchema::Float => TypeSchema::Float,
            TypeSchema::ByteSlice => TypeSchema::ByteSlice,
            TypeSchema::String => TypeSchema::String,
            TypeSchema::Complex => TypeSchema::Complex,
            TypeSchema::Interface => TypeSchema::Interface,
            TypeSchema::MapOf(m) => TypeSchema::MapOf(m.clone()),
            TypeSchema::Struct(s) => TypeSchema::Struct(s.clone()),
            TypeSchema::Custom(id) => TypeSchema::Custom(*id),
        }
    }
}

/// Whether two lists of fields have the same names and types in the same
/// order.
pub fn same_fields(a: &Vec<FieldType>, b: &Vec<FieldType>) -> (r: bool)
    ensures
        r == (fields_view(a@) == fields_view(b@)),
{
    if a.len() != b.len() {
        assert(fields_view(a@).len() != fields_view(b@).len());
        return false;
    }
    let mut i: usize = 0;
    while i < a.len()
        invariant
            i <= a.len(),
            a.len() == b.len(),
            forall|j: int| 0 <= j < i ==> a[j]@ == b[j]@,
        decreases a.len() - i,
    {
        if a[i].id != b[i].id || a[i].name != b[i].name {
            assert(fields_view(a@)[i as int] != fields_view(b@)[i as int]);
            return false;
        }
        i = i + 1;
    }
    assert(fields_view(a@) =~= fields_view(b@));
    true
}

impl TypeSchema {
    /// Whether two schemas are the same: the same kind, names, identifiers
    /// and fields.
    pub fn same(&self, other: &TypeSchema) -> (r: bool)
        ensures
            r == (self@ == other@),
    {
        match (self, other) {
            (TypeSchema::Bool, TypeSchema::Bool) => true,
            (TypeSchema::Int, TypeSchema::Int) => true,
            (TypeSchema::Uint, TypeSchema::Uint) => true,
            (TypeSchema::Float, TypeSchema::Float) => true,
            (TypeSchema::ByteSlice, TypeSchema::ByteSlice) => true,
            (TypeSchema::String, TypeSchema::String) => true,
            (TypeSchema::Complex, TypeSchema::Complex) => true,
            (TypeSchema::Interface, TypeSchema::Interface) => true,
            (TypeSchema::MapOf(a), TypeSchema::MapOf(b)) => {
                a.common.name == b.common.name && a.common.id == b.common.id && a.key == b.key
                    && a.elem == b.elem
            },
            (TypeSchema::Struct(a), TypeSchema::Struct(b)) => {
                a.common.name == b.common.name && a.common.id == b.common.id && same_fields(
                    &a.fields,
                    &b.fields,
                )
            },
            (TypeSchema::Custom(a), TypeSchema::Custom(b)) => *a == *b,
            _ => false,
        }
    }
}

/// The identifiers that every registry holds from the start.
pub open spec fn predeclared() -> Map<i64, SchemaView> {
    map![
        1i64 => SchemaView::Bool,
        2i64 => SchemaView::Int,
        3i64 => SchemaView::Uint,
        4i64 => SchemaView::Float,
        5i64 => SchemaView::ByteSlice,
        6i64 => SchemaView::String,
        7i64 => SchemaView::Complex,
        8i64 => SchemaView::Interface,
    ]
}

/// The first identifier that a writer gives to a type of its own.
pub const FIRST_USER_ID: u64 = 65;

/// A registry as mathematics: the schemas by identifier, and the cap on
/// their number, if there is one.
pub ghost struct RegistryView {
    pub types: Map<i64, SchemaView>,
    pub limit: Option<nat>,
}

/// The schema that stands for `id`: the registered one, or a placeholder.
pub open spec fn lookup(types: Map<i64, SchemaView>, id: i64) -> SchemaView {
    if types.contains_key(id) {
        types[id]
    } else {
        SchemaView::Custom(id)
    }
}

/// What registering `schema` under `id` does: nothing if `id` already means
/// `schema`; a `Redefinition` if it means something else; `TooManyTypes` if
/// it is new and the registry is full; else the registry grows by one.
pub open spec fn register(reg: RegistryView, id: i64, schema: SchemaView) -> Result<
    RegistryView,
    GobError,
> {
    if reg.types.contains_key(id) {
        if reg.types[id] == schema {
            Ok(reg)
        } else {
            Err(GobError::Redefinition)
        }
    } else if reg.limit is Some && reg.types.len() >= reg.limit->0 {
        Err(GobError::TooManyTypes)
    } else {
        Ok(RegistryView { types: reg.types.insert(id, schema), limit: reg.limit })
    }
}

/// The table from identifiers to schemas that a stream builds up.
pub struct Registry {
    types: HashMap<i64, TypeSchema>,
    limit: Option<usize>,
}

impl View for Registry {
    type V = RegistryView;

    closed spec fn view(&self) -> RegistryView {
        RegistryView {
            types: Map::new(|id: i64| self.types@.contains_key(id), |id: i64| self.types@[id]@),
            limit: match self.limit {
                Some(l) => Some(l as nat),
                None => None,
            },
        }
    }
}

impl Registry {
    /// A registry that holds the predeclared identifiers, with the given
    /// cap.
    fn seeded(limit: Option<usize>) -> (r: Self)
        ensures
            r@.types == predeclared(),
            r.limit == limit,
    {
        let mut types: HashMap<i64, TypeSchema> = HashMap::new();
        types.insert(1, TypeSchema::Bool);
        types.insert(2, TypeSchema::Int);
        types.insert(3, TypeSchema::Uint);
        types.insert(4, TypeSchema::Float);
        types.insert(5, TypeSchema::ByteSlice);
        types.insert(6, TypeSchema::String);
        types.insert(7, TypeSchema::Complex);
        types.insert(8, TypeSchema::Interface);
        let r = Registry { types, limit };
        assert(r@.types =~= predeclared());
        r
    }

    /// A registry that holds the predeclared identifiers and may grow
    /// without bound.
    pub fn new() -> (r: Self)
        ensures
            r@ == (RegistryView { types: predeclared(), limit: None }),
    {
        Self::seeded(None)
    }

    /// A registry that holds the predeclared identifiers and never more
    /// than `limit` identifiers in all.
    pub fn with_limit(limit: usize) -> (r: Self)
        ensures
            r@ == (RegistryView { types: predeclared(), limit: Some(limit as nat) }),
    {
        Self::seeded(Some(limit))
    }

    /// Whether `id` is bound.
    pub fn contains(&self, id: i64) -> (b: bool)
        ensures
            b == self@.types.contains_key(id),
    {
        self.types.contains_key(&id)
    }

    /// The number of identifiers bound.
    pub fn len(&self) -> (n: usize)
        ensures
            n == self@.types.len(),
    {
        assert(self@.types.dom() =~= self.types@.dom());
        self.types.len()
    }

    /// The schema bound to `id`, or the placeholder `Custom(id)`.
    pub fn lookup(&self, id: i64) -> (s: TypeSchema)
        ensures
            s@ == lookup(self@.types, id),
    {
        match self.types.get(&id) {
            Some(s) => s.clone(),
            None => TypeSchema::Custom(id),
        }
    }

    /// Binds `id` to `schema`, as [`register`] says. On an error the
    /// registry is as it was.
    pub fn register(&mut self, id: i64, schema: TypeSchema) -> (r: Result<(), GobError>)
        ensures
            match register(old(self)@, id, schema@) {
                Ok(after) => r is Ok && final(self)@ == after,
                Err(e) => r == Err::<(), GobError>(e) && final(self)@ == old(self)@,
            },
    {
        match self.types.get(&id) {
            Some(present) => {
                if present.same(&schema) {
                    Ok(())
                } else {
                    Err(GobError::Redefinition)
                }
            },
            None => {
                assert(self@.types.dom() =~= self.types@.dom());
                let full = match self.limit {
                    Some(l) => self.types.len() >= l,
                    None => false,
                };
                if full {
                    Err(GobError::TooManyTypes)
                } else {
                    self.types.insert(id, schema);
                    assert(final(self)@.types =~= old(self)@.types.insert(id, schema@));
                    Ok(())
                }
            },
        }
    }
}

} // verus!
