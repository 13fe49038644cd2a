//! Descriptors of composite types, as they travel in a definition message.

use vstd::prelude::*;

verus! {

/// The name and identifier that every composite descriptor starts with.
#[derive(Debug)]
pub struct CommonType {
    pub name: String,
    pub id: i64,
}

/// A [`CommonType`] as mathematics.
pub ghost struct CommonTypeView {
    pub name: Seq<char>,
    pub id: i64,
}

impl View for CommonType {
    type V = CommonTypeView;

    open spec fn view(&self) -> CommonTypeView {
        CommonTypeView { name: self.name@, id: self.id }
    }
}

impl CommonType {
    /// A descriptor header with an empty name and identifier zero.
    pub fn new() -> (c: Self)
        ensures
            c@ == (CommonTypeView { name: Seq::empty(), id: 0 }),
    {
        Self { name: String::new(), id: 0 }
    }
}

impl Clone for CommonType {
    fn clone(&self) -> (c: Self)
        ensures
            c@ == self@,
    {
        CommonType { name: self.name.clone(), id: self.id }
    }
}

/// A map type: the identifiers of its key and element types.
#[derive(Debug)]
pub struct MapType {
    pub common: CommonType,
    pub key: i64,
    pub elem: i64,
}

/// A [`MapType`] as mathematics.
pub ghost struct MapTypeView {
    pub common: CommonTypeView,
    pub key: i64,
    pub elem: i64,
}

impl View for MapType {
    type V = MapTypeView;

    open spec fn view(&self) -> MapTypeView {
        MapTypeView { common: self.common@, key: self.key, elem: self.elem }
    }
}

impl Clone for MapType {
    fn clone(&self) -> (c: Self)
        ensures
            c@ == self@,
    {
        MapType { common: self.common.clone(), key: self.key, elem: self.elem }
    }
}

/// One field of a struct type: its name and the identifier of its type.
#[derive(Debug)]
pub struct FieldType {
    pub name: String,
    pub id: i64,
}

/// A [`FieldType`] as mathematics.
pub ghost struct FieldTypeView {
    pub name: Seq<char>,
    pub id: i64,
}

impl View for FieldType {
    type V = FieldTypeView;

    open spec fn view(&self) -> FieldTypeView {
        FieldTypeView { name: self.name@, id: self.id }
    }
}

impl Clone for FieldType {
    fn clone(&self) -> (c: Self)
        ensures
            c@ == self@,
    {
        FieldType { name: self.name.clone(), id: self.id }
    }
}

/// The views of a list of fields, in order.
pub open spec fn fields_view(fields: Seq<FieldType>) -> Seq<FieldTypeView> {
    Seq::new(fields.len(), |i: int| fields[i]@)
}

/// A struct type: its fields in declaration order. The position of a field
/// in the list is its index on the wire.
#[derive(Debug)]
pub struct StructType {
    pub common: CommonType,
    pub fields: Vec<FieldType>,
}

/// A [`StructType`] as mathematics.
pub ghost struct StructTypeView {
    pub common: CommonTypeView,
    pub fields: Seq<FieldTypeView>,
}

impl View for StructType {
    type V = StructTypeView;

    open spec fn view(&self) -> StructTypeView {
        StructTypeView { common: self.common@, fields: fields_view(self.fields@) }
    }
}

/// A copy of a list of fields.
pub fn clone_fields(fields: &Vec<FieldType>) -> (c: Vec<FieldType>)
    ensures
        fields_view(c@) == fields_view(fields@),
{
    let mut c: Vec<FieldType> = Vec::new();
    let mut i: usize = 0;
    while i < fields.len()
        invariant
            i <= fields.len(),
            c.len() == i,
            forall|j: int| 0 <= j < i ==> c[j]@ == fields[j]@,
        decreases fields.len() - i,
    {
        c.push(fields[i].clone());
        i = i + 1;
    }
    assert(fields_view(c@) =~= fields_view(fields@));
    c
}

impl Clone for StructType {
    fn clone(&self) -> (c: Self)
        ensures
            c@ == self@,
    {
        StructType { common: self.common.clone(), fields: clone_fields(&self.fields) }
    }
}

/// A slice type: the identifier of its element type.
#[derive(Debug)]
pub struct SliceType {
    pub common: CommonType,
    pub elem: i64,
}

/// An array type: the identifier of its element type, and its length.
#[derive(Debug)]
pub struct ArrayType {
    pub common: CommonType,
    pub elem: i64,
    pub len: i64,
}

/// The descriptor that a definition message carries: exactly one of the
/// seven kinds of composite type.
#[derive(Debug)]
pub enum WireType {
    Array(ArrayType),
    Slice(SliceType),
    Struct(StructType),
    /// A map type. (The wire calls this field `MapT`.)
    MapT(MapType),
    GobEncoder(CommonType),
    BinaryMarshaler(CommonType),
    TextMarshaler(CommonType),
}

impl WireType {
    /// The header of a descriptor, whatever its kind.
    pub open spec fn spec_common(&self) -> CommonType {
        match self {
            WireType::Array(t) => t.common,
            WireType::Slice(t) => t.common,
            WireType::Struct(t) => t.common,
            WireType::MapT(t) => t.common,
            WireType::GobEncoder(t) => *t,
            WireType::BinaryMarshaler(t) => *t,
            WireType::TextMarshaler(t) => *t,
        }
    }

    /// The header of this descriptor.
    pub fn common(&self) -> (c: &CommonType)
        ensures
            *c == self.spec_common(),
    {
        match self {
            WireType::Array(t) => &t.common,
            WireType::Slice(t) => &t.common,
            WireType::Struct(t) => &t.common,
            WireType::MapT(t) => &t.common,
            WireType::GobEncoder(t) => t,
            WireType::BinaryMarshaler(t) => t,
            WireType::TextMarshaler(t) => t,
        }
    }
}

} // verus!
