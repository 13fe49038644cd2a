//! The record layer: a record type bound to its form on the wire.
//!
//! A record is a list of values, one for each field of the binding, in the
//! order in which the binding declares them. On the wire it is either a
//! struct, its fields in that order, or a map from interface to interface
//! whose keys are the wire names of the fields.

use crate::decode::Decoder;
use crate::encode::Encoder;
use crate::error::GobError;
use crate::framer::string_from_utf8;
use crate::layout::{dict_name, encode_body};
use crate::object::Type;
use crate::schema::{SchemaView, TypeSchema};
use crate::types::{
    fields_view, CommonType, CommonTypeView, FieldType, FieldTypeView, MapType, MapTypeView,
    StructType, StructTypeView,
};
use crate::value::{
    dict_put, entries_view, items_view, named_view, put_entry, same_str, Value, ValueView,
};
use crate::writer::GobWriter;
use vstd::prelude::*;

verus! {

/// The index of the first `]` from index `from` on.
pub open spec fn closing_bracket(b: Seq<u8>, from: int) -> Option<int>
    decreases b.len() - from,
{
    if from < 0 || from >= b.len() {
        None
    } else if b[from] == 93 {
        Some(from)
    } else {
        closing_bracket(b, from + 1)
    }
}

/// Whether the bytes start with `map[`.
pub open spec fn is_map_form(b: Seq<u8>) -> bool {
    b.len() >= 4 && b[0] == 109 && b[1] == 97 && b[2] == 112 && b[3] == 91
}

/// The key type and the element type that `map[K]V` names: what stands
/// between `map[` and the first `]`, and what follows that bracket.
pub open spec fn map_types(b: Seq<u8>) -> Option<(Seq<u8>, Seq<u8>)> {
    if !is_map_form(b) {
        None
    } else {
        match closing_bracket(b, 4) {
            None => None,
            Some(k) => Some((b.subrange(4, k), b.subrange(k + 1, b.len() as int))),
        }
    }
}

/// Whether a description of a wire form asks for the map form.
pub fn interpret_as_map(interpret_as: &str) -> (r: bool)
    ensures
        r == is_map_form(vstd::utf8::encode_utf8(interpret_as@)),
{
    let b = interpret_as.as_bytes();
    b.len() >= 4 && b[0] == 109 && b[1] == 97 && b[2] == 112 && b[3] == 91
}

/// Splits `map[K]V` into `K` and `V`. `None` where the text is not of that
/// form.
pub fn parse_map_types(interpret_as: &str) -> (r: Option<(String, String)>)
    ensures
        match map_types(vstd::utf8::encode_utf8(interpret_as@)) {
            Some((k, v)) => if vstd::utf8::valid_utf8(k) && vstd::utf8::valid_utf8(v) {
                r matches Some(p) && p.0@ == vstd::utf8::decode_utf8(k) && p.1@
                    == vstd::utf8::decode_utf8(v)
            } else {
                r is None
            },
            None => r is None,
        },
{
    if !interpret_as_map(interpret_as) {
        return None;
    }
    let b = interpret_as.as_bytes();
    let mut i: usize = 4;
    while i < b.len()
        invariant
            4 <= i <= b.len(),
            b@ == vstd::utf8::encode_utf8(interpret_as@),
            is_map_form(b@),
            closing_bracket(b@, 4) == closing_bracket(b@, i as int),
        decreases b.len() - i,
    {
        if b[i] == 93 {
            let key = vstd::slice::slice_to_vec(vstd::slice::slice_subrange(b, 4, i));
            let elem = vstd::slice::slice_to_vec(vstd::slice::slice_subrange(b, i + 1, b.len()));
            assert(closing_bracket(b@, 4) == Some(i as int));
            assert(key@ == b@.subrange(4, i as int));
            assert(elem@ == b@.subrange(i + 1, b@.len() as int));
            return match (string_from_utf8(key), string_from_utf8(elem)) {
                (Some(k), Some(v)) => Some((k, v)),
                _ => None,
            };
        }
        i = i + 1;
    }
    None
}

/// One field of a record, as it is declared.
#[derive(Debug)]
pub struct Field {
    /// The name of the field in the record.
    pub name: String,
    /// The name of the field on the wire, where it is not that same name.
    pub wire_name: Option<String>,
    /// The type of the field.
    pub kind: Type,
}

/// The name that a field has on the wire.
pub open spec fn wire_name(f: Field) -> Seq<char> {
    match f.wire_name {
        Some(n) => n@,
        None => f.name@,
    }
}

/// A field of a binding as mathematics: its wire name and its type.
pub ghost struct BoundField {
    pub name: Seq<char>,
    pub kind: Type,
}

/// The fields of a declaration as a binding holds them.
pub open spec fn bound_fields(fields: Seq<Field>) -> Seq<BoundField> {
    Seq::new(fields.len(), |i: int| BoundField { name: wire_name(fields[i]), kind: fields[i].kind })
}

/// Whether no two fields have the same wire name.
pub open spec fn distinct(fields: Seq<BoundField>) -> bool {
    forall|i: int, j: int| 0 <= i < j < fields.len() ==> fields[i].name != fields[j].name
}

/// A binding as mathematics.
pub ghost struct BindingView {
    /// The identifier that is reserved for the record type, if one is.
    pub id: Option<i64>,
    /// Whether the record goes as a map; else it goes as a struct.
    pub as_map: bool,
    /// The fields, in the order of their declaration.
    pub fields: Seq<BoundField>,
}

/// How a record type goes on the wire.
pub struct Binding {
    id: Option<i64>,
    as_map: bool,
    fields: Vec<(String, Type)>,
}

/// The fields that a binding holds, as mathematics.
pub open spec fn held_fields(fields: Seq<(String, Type)>) -> Seq<BoundField> {
    Seq::new(fields.len(), |i: int| BoundField { name: fields[i].0@, kind: fields[i].1 })
}

impl View for Binding {
    type V = BindingView;

    closed spec fn view(&self) -> BindingView {
        BindingView { id: self.id, as_map: self.as_map, fields: held_fields(self.fields@) }
    }
}

/// The value that stands for a record on the wire.
///
/// The record must have a value for each field, and each value must be one
/// that the field's type holds; else it is a mismatch. As a struct, the
/// value has the fields under their wire names, in the order of their
/// declaration. As a map, it has an entry for each field, from the wire
/// name to the field's value, in the canonical order of the keys.
pub open spec fn record_value(b: BindingView, record: Seq<ValueView>) -> Result<ValueView, GobError> {
    if record.len() != b.fields.len() || exists|i: int|
        0 <= i < record.len() && !(#[trigger] b.fields[i]).kind.holds(record[i]) {
        Err(GobError::TypeMismatch)
    } else if b.as_map {
        Ok(ValueView::Dict(record_entries(b.fields, record, b.fields.len() as int)))
    } else {
        Ok(
            ValueView::Struct(
                Seq::empty(),
                Seq::new(b.fields.len(), |i: int| (b.fields[i].name, record[i])),
            ),
        )
    }
}

/// The entries for the first `n` fields of a record.
pub open spec fn record_entries(fields: Seq<BoundField>, record: Seq<ValueView>, n: int) -> Seq<
    (ValueView, ValueView),
>
    decreases n,
{
    if n <= 0 {
        Seq::empty()
    } else {
        dict_put(
            record_entries(fields, record, n - 1),
            ValueView::String(fields[n - 1].name),
            record[n - 1],
        )
    }
}

/// The index of the first field from `from` on that is called `name`.
pub open spec fn find_named(fields: Seq<(Seq<char>, ValueView)>, name: Seq<char>, from: int) -> Option<
    int,
>
    decreases fields.len() - from,
{
    if from < 0 || from >= fields.len() {
        None
    } else if fields[from].0 == name {
        Some(from)
    } else {
        find_named(fields, name, from + 1)
    }
}

/// The index of the first entry from `from` on whose key is `key`.
pub open spec fn find_key(entries: Seq<(ValueView, ValueView)>, key: ValueView, from: int) -> Option<
    int,
>
    decreases entries.len() - from,
{
    if from < 0 || from >= entries.len() {
        None
    } else if entries[from].0 == key {
        Some(from)
    } else {
        find_key(entries, key, from + 1)
    }
}

/// What a field of a record becomes, given the value that arrived for the
/// record: the value under the field's wire name, fitted to the field's
/// type; the zero value of the type where nothing arrived under that name;
/// a mismatch where what arrived does not fit.
pub open spec fn field_value(f: BoundField, v: ValueView) -> Result<ValueView, GobError> {
    let found = match v {
        ValueView::Struct(_, fields) => match find_named(fields, f.name, 0) {
            Some(i) => Some(fields[i].1),
            None => None,
        },
        ValueView::Dict(entries) => match find_key(entries, ValueView::String(f.name), 0) {
            Some(i) => Some(entries[i].1),
            None => None,
        },
        _ => None,
    };
    match found {
        None => Ok(f.kind.spec_zero()),
        Some(x) => match f.kind.spec_coerce(x) {
            Some(c) => Ok(c),
            None => Err(GobError::TypeMismatch),
        },
    }
}

/// The values of the fields from index `i` on, added to `acc`.
pub open spec fn field_values(fields: Seq<BoundField>, v: ValueView, i: int, acc: Seq<ValueView>) -> Result<
    Seq<ValueView>,
    GobError,
>
    decreases fields.len() - i,
{
    if i < 0 || i >= fields.len() {
        Ok(acc)
    } else {
        match field_value(fields[i], v) {
            Err(e) => Err(e),
            Ok(x) => field_values(fields, v, i + 1, acc.push(x)),
        }
    }
}

/// The record that a value from the wire stands for: a struct where the
/// record goes as a struct, a map where it goes as a map, and a mismatch
/// otherwise. A name or a key that no field has is passed over.
pub open spec fn record_of(b: BindingView, v: ValueView) -> Result<Seq<ValueView>, GobError> {
    if (b.as_map && !(v is Dict)) || (!b.as_map && !(v is Struct)) {
        Err(GobError::TypeMismatch)
    } else {
        field_values(b.fields, v, 0, Seq::empty())
    }
}

/// The schema by which a record is read from the wire.
pub open spec fn wire_schema(b: BindingView) -> SchemaView {
    let id = match b.id {
        Some(id) => id,
        None => 0,
    };
    if b.as_map {
        SchemaView::MapOf(
            MapTypeView { common: CommonTypeView { name: dict_name(), id }, key: 8, elem: 8 },
        )
    } else {
        SchemaView::Struct(
            StructTypeView {
                common: CommonTypeView { name: Seq::empty(), id },
                fields: Seq::new(
                    b.fields.len(),
                    |i: int| FieldTypeView { name: b.fields[i].name, id: b.fields[i].kind.spec_id() },
                ),
            },
        )
    }
}

impl Binding {
    /// Binds a record type: `id` reserves an identifier for it;
    /// `interpret_as` asks for the map form where it starts with `map[`, and
    /// for the struct form otherwise; `fields` are the fields of the record.
    /// Two fields with one wire name are refused.
    pub fn new(id: Option<i64>, interpret_as: Option<&str>, fields: Vec<Field>) -> (r: Result<
        Binding,
        GobError,
    >)
        ensures
            match r {
                Ok(b) => distinct(bound_fields(fields@)) && b@ == (BindingView {
                    id,
                    as_map: interpret_as is Some && is_map_form(
                        vstd::utf8::encode_utf8(interpret_as->0@),
                    ),
                    fields: bound_fields(fields@),
                }),
                Err(e) => e == GobError::DuplicateFieldName && !distinct(bound_fields(fields@)),
            },
    {
        let as_map = match interpret_as {
            Some(s) => interpret_as_map(s),
            None => false,
        };
        let ghost bf = bound_fields(fields@);
        let mut held: Vec<(String, Type)> = Vec::new();
        let mut i: usize = 0;
        while i < fields.len()
            invariant
                i <= fields.len(),
                bf == bound_fields(fields@),
                held.len() == i,
                held_fields(held@) == bf.subrange(0, i as int),
                forall|a: int, b: int| 0 <= a < b < i ==> bf[a].name != bf[b].name,
            decreases fields.len() - i,
        {
            let name = match &fields[i].wire_name {
                Some(n) => n.clone(),
                None => fields[i].name.clone(),
            };
            assert(name@ == bf[i as int].name);
            let mut j: usize = 0;
            while j < i
                invariant
                    j <= i,
                    i < fields.len(),
                    held.len() == i,
                    bf == bound_fields(fields@),
                    held_fields(held@) == bf.subrange(0, i as int),
                    name@ == bf[i as int].name,
                    forall|a: int| 0 <= a < j ==> bf[a].name != bf[i as int].name,
                decreases i - j,
            {
                assert(held_fields(held@)[j as int] == bf[j as int]);
                if held[j].0 == name {
                    return Err(GobError::DuplicateFieldName);
                }
                j = j + 1;
            }
            let ghost before = held_fields(held@);
            held.push((name, fields[i].kind));
            assert(held_fields(held@) =~= bf.subrange(0, i + 1));
            i = i + 1;
        }
        assert(bf.subrange(0, i as int) =~= bf);
        Ok(Binding { id, as_map, fields: held })
    }

    /// The identifier that is reserved for the record type, if one is.
    pub fn id(&self) -> (id: Option<i64>)
        ensures
            id == self@.id,
    {
        self.id
    }

    /// The value that stands for `record` on the wire.
    pub fn to_value(&self, record: &Vec<Value>) -> (r: Result<Value, GobError>)
        ensures
            match record_value(self@, items_view(record@)) {
                Ok(v) => r is Ok && r->Ok_0@ == v,
                Err(e) => r == Err::<Value, GobError>(e),
            },
    {
        let n = self.fields.len();
        let ghost b = self@;
        let ghost rv = items_view(record@);
        if record.len() != n {
            return Err(GobError::TypeMismatch);
        }
        let mut named: Vec<(String, Value)> = Vec::new();
        let mut entries: Vec<(Value, Value)> = Vec::new();
        let mut i: usize = 0;
        proof {
            assert(entries_view(entries@) =~= record_entries(b.fields, rv, 0));
        }
        while i < n
            invariant
                i <= n,
                n == self.fields.len(),
                n == record.len(),
                b == self@,
                rv == items_view(record@),
                named.len() == i,
                forall|k: int| 0 <= k < i ==> (#[trigger] b.fields[k]).kind.holds(rv[k]),
                forall|k: int|
                    0 <= k < i ==> (#[trigger] named[k]).0@ == b.fields[k].name && named[k].1@
                        == rv[k],
                entries_view(entries@) == record_entries(b.fields, rv, i as int),
            decreases n - i,
        {
            let kind = self.fields[i].1;
            assert(b.fields[i as int].kind == kind);
            if !kind_holds(kind, &record[i]) {
                return Err(GobError::TypeMismatch);
            }
            named.push((self.fields[i].0.clone(), record[i].clone()));
            put_entry(&mut entries, Value::String(self.fields[i].0.clone()), record[i].clone());
            i = i + 1;
        }
        if self.as_map {
            Ok(Value::Dict(entries))
        } else {
            assert(named_view(named@) =~= Seq::new(
                b.fields.len(),
                |i: int| (b.fields[i].name, rv[i]),
            ));
            Ok(Value::Struct(String::new(), named))
        }
    }

    /// Appends `record` to `encoder` in its wire form: as a struct, each
    /// field with a delta of one in front and a zero delta at the end; as a
    /// map, the count and the entries as interface values. No type is
    /// defined, so a field of interface type may hold a primitive or nil.
    pub fn encode(&self, record: &Vec<Value>, encoder: &mut Encoder) -> (r: Result<(), GobError>)
        ensures
            match record_value(self@, items_view(record@)) {
                Err(e) => r == Err::<(), GobError>(e) && final(encoder)@ == old(encoder)@,
                Ok(v) => match encode_body(Seq::empty(), v) {
                    Ok(b) => r is Ok && final(encoder)@ == old(encoder)@ + b,
                    Err(e) => r == Err::<(), GobError>(e),
                },
            },
    {
        let v = self.to_value(record)?;
        let w = GobWriter::new(Vec::new());
        w.encode_value_body(encoder, &v)
    }

    /// The schema by which the record is read from the wire.
    pub fn schema(&self) -> (s: TypeSchema)
        ensures
            s@ == wire_schema(self@),
    {
        let id = match self.id {
            Some(id) => id,
            None => 0,
        };
        if self.as_map {
            TypeSchema::MapOf(
                MapType {
                    common: CommonType {
                        name: String::from_str("map[interface{}]interface{}"),
                        id,
                    },
                    key: 8,
                    elem: 8,
                },
            )
        } else {
            let ghost b = self@;
            let mut fields: Vec<FieldType> = Vec::new();
            let mut i: usize = 0;
            while i < self.fields.len()
                invariant
                    i <= self.fields.len(),
                    b == self@,
                    fields.len() == i,
                    forall|k: int|
                        0 <= k < i ==> (#[trigger] fields[k])@ == (FieldTypeView {
                            name: b.fields[k].name,
                            id: b.fields[k].kind.spec_id(),
                        }),
                decreases self.fields.len() - i,
            {
                fields.push(
                    FieldType { name: self.fields[i].0.clone(), id: self.fields[i].1.id() },
                );
                i = i + 1;
            }
            assert(fields_view(fields@) =~= Seq::new(
                b.fields.len(),
                |i: int| FieldTypeView { name: b.fields[i].name, id: b.fields[i].kind.spec_id() },
            ));
            TypeSchema::Struct(
                StructType { common: CommonType { name: String::new(), id }, fields },
            )
        }
    }

    /// The record that `v` stands for. A field for which nothing arrived
    /// has the zero value of its type; a name or a key that no field has is
    /// passed over; an unsigned integer that arrives for a signed field is
    /// taken where it fits; anything else that does not fit is a mismatch.
    pub fn from_value(&self, v: &Value) -> (r: Result<Vec<Value>, GobError>)
        ensures
            match record_of(self@, v@) {
                Ok(rec) => r is Ok && items_view(r->Ok_0@) == rec,
                Err(e) => r == Err::<Vec<Value>, GobError>(e),
            },
    {
        let ghost b = self@;
        match v {
            Value::Dict(_) => {
                if !self.as_map {
                    return Err(GobError::TypeMismatch);
                }
            },
            Value::Struct(_, _) => {
                if self.as_map {
                    return Err(GobError::TypeMismatch);
                }
            },
            _ => {
                return Err(GobError::TypeMismatch);
            },
        }
        let mut record: Vec<Value> = Vec::new();
        let mut i: usize = 0;
        proof {
            assert(items_view(record@) =~= Seq::<ValueView>::empty());
        }
        while i < self.fields.len()
            invariant
                i <= self.fields.len(),
                b == self@,
                field_values(b.fields, v@, 0, Seq::empty()) == field_values(
                    b.fields,
                    v@,
                    i as int,
                    items_view(record@),
                ),
            decreases self.fields.len() - i,
        {
            let ghost before = items_view(record@);
            assert(b.fields[i as int] == (BoundField {
                name: self.fields[i as int].0@,
                kind: self.fields[i as int].1,
            }));
            let x = field_of(self.fields[i].0.as_str(), self.fields[i].1, v)?;
            proof {
                assert(items_view(record@.push(x)) =~= before.push(x@));
            }
            record.push(x);
            i = i + 1;
        }
        Ok(record)
    }

    /// Reads a record from what is left of the open message: the value that
    /// the wire holds, by the schema of the binding, and the record that it
    /// stands for.
    pub fn decode(&self, decoder: &mut Decoder) -> (r: Result<Vec<Value>, GobError>)
        ensures
            match crate::grammar::decode_value(
                old(decoder)@.registry,
                wire_schema(self@),
                old(decoder)@.window,
            ) {
                Err(e) => r == Err::<Vec<Value>, GobError>(e),
                Ok(step) => match record_of(self@, step.value) {
                    Err(e) => r == Err::<Vec<Value>, GobError>(e),
                    Ok(rec) => {
                        &&& r is Ok
                        &&& items_view(r->Ok_0@) == rec
                        &&& final(decoder)@ == old(decoder)@.advance_with(
                            step.used,
                            step.registry,
                        )
                    },
                },
            },
    {
        let schema = self.schema();
        let v = decoder.decode_value(&schema)?;
        self.from_value(&v)
    }
}

/// Whether a field of type `kind` can hold `v` as it is.
pub fn kind_holds(kind: Type, v: &Value) -> (r: bool)
    ensures
        r == kind.holds(v@),
{
    match (kind, v) {
        (Type::Bool, Value::Bool(_)) => true,
        (Type::Int, Value::Int(_)) => true,
        (Type::UInt, Value::Uint(_)) => true,
        (Type::Float, Value::Float(_)) => true,
        (Type::Bytes, Value::Bytes(_)) => true,
        (Type::String, Value::String(_)) => true,
        (Type::Interface, _) => true,
        _ => false,
    }
}

/// What the field `name` of type `kind` becomes, given the value that
/// arrived for the record.
fn field_of(name: &str, kind: Type, v: &Value) -> (r: Result<Value, GobError>)
    ensures
        match field_value(BoundField { name: name@, kind }, v@) {
            Ok(x) => r is Ok && r->Ok_0@ == x,
            Err(e) => r == Err::<Value, GobError>(e),
        },
{
    match v {
        Value::Struct(_, fields) => {
            let ghost fv = named_view(fields@);
            let mut i: usize = 0;
            while i < fields.len()
                invariant
                    i <= fields.len(),
                    fv == named_view(fields@),
                    v@ is Struct,
                    v@->Struct_1 == fv,
                    find_named(fv, name@, 0) == find_named(fv, name@, i as int),
                decreases fields.len() - i,
            {
                assert(fv[i as int] == (fields[i as int].0@, fields[i as int].1@));
                if same_str(fields[i].0.as_str(), name) {
                    return match kind.coerce(&fields[i].1) {
                        Some(c) => Ok(c),
                        None => Err(GobError::TypeMismatch),
                    };
                }
                i = i + 1;
            }
            Ok(kind.zero())
        },
        Value::Dict(entries) => {
            let ghost ev = entries_view(entries@);
            let key = Value::String(String::from_str(name));
            let mut i: usize = 0;
            while i < entries.len()
                invariant
                    i <= entries.len(),
                    ev == entries_view(entries@),
                    v@ is Dict,
                    v@->Dict_0 == ev,
                    key@ == ValueView::String(name@),
                    find_key(ev, key@, 0) == find_key(ev, key@, i as int),
                decreases entries.len() - i,
            {
                assert(ev[i as int] == (entries[i as int].0@, entries[i as int].1@));
                if entries[i].0 == key {
                    return match kind.coerce(&entries[i].1) {
                        Some(c) => Ok(c),
                        None => Err(GobError::TypeMismatch),
                    };
                }
                i = i + 1;
            }
            Ok(kind.zero())
        },
        _ => Ok(kind.zero()),
    }
}

} // verus!
