//! The wire format as mathematics: the bytes that a message, a type
//! definition and a value are written as.

use crate::error::GobError;
use crate::schema::SchemaView;
use crate::types::{CommonTypeView, FieldTypeView, MapTypeView, StructTypeView};
use crate::value::ValueView;
use crate::wire::{
    encode_bool, encode_bytes, encode_float, encode_int, encode_string, encode_uvarint,
};
use vstd::prelude::*;

verus! {

/// A message: the length of what follows, the identifier, the body.
pub open spec fn frame(id: i64, body: Seq<u8>) -> Seq<u8> {
    encode_uvarint((encode_int(id).len() + body.len()) as u64) + encode_int(id) + body
}

/// A message, where its length can be said: in an unsigned 64-bit integer.
pub open spec fn message(id: i64, body: Seq<u8>) -> Option<Seq<u8>> {
    if encode_int(id).len() + body.len() <= u64::MAX {
        Some(frame(id, body))
    } else {
        None
    }
}

/// A (name, identifier) struct with both fields sent.
pub open spec fn encode_name_id(name: Seq<char>, id: i64) -> Seq<u8> {
    encode_uvarint(1) + encode_string(name) + encode_uvarint(1) + encode_int(id) + encode_uvarint(
        0,
    )
}

/// The descriptors of a list of fields, one after the other.
pub open spec fn encode_field_list(fields: Seq<FieldTypeView>) -> Seq<u8>
    decreases fields.len(),
{
    if fields.len() == 0 {
        Seq::empty()
    } else {
        encode_name_id(fields[0].name, fields[0].id) + encode_field_list(fields.drop_first())
    }
}

/// The descriptors of a list with one more field are those of the list and
/// then that of the field.
pub proof fn lemma_field_list_push(fields: Seq<FieldTypeView>, f: FieldTypeView)
    ensures
        encode_field_list(fields.push(f)) == encode_field_list(fields) + encode_name_id(f.name, f.id),
    decreases fields.len(),
{
    if fields.len() == 0 {
        assert(fields.push(f).drop_first() =~= Seq::<FieldTypeView>::empty());
        assert(encode_field_list(Seq::<FieldTypeView>::empty()) =~= Seq::<u8>::empty());
        assert(encode_field_list(fields.push(f)) =~= encode_name_id(f.name, f.id));
        assert(encode_field_list(fields) + encode_name_id(f.name, f.id) =~= encode_name_id(
            f.name,
            f.id,
        ));
    } else {
        lemma_field_list_push(fields.drop_first(), f);
        assert(fields.push(f).drop_first() =~= fields.drop_first().push(f));
        assert(encode_field_list(fields.push(f)) =~= encode_field_list(fields) + encode_name_id(
            f.name,
            f.id,
        ));
    }
}

/// A struct descriptor: its header, then the count and the list of its
/// fields.
pub open spec fn encode_struct_type(t: StructTypeView) -> Seq<u8> {
    encode_uvarint(1) + encode_name_id(t.common.name, t.common.id) + encode_uvarint(1)
        + encode_uvarint(t.fields.len() as u64) + encode_field_list(t.fields) + encode_uvarint(0)
}

/// A map descriptor: its header, then the identifiers of its key and element
/// types.
pub open spec fn encode_map_type(m: MapTypeView) -> Seq<u8> {
    encode_uvarint(1) + encode_name_id(m.common.name, m.common.id) + encode_uvarint(1)
        + encode_int(m.key) + encode_uvarint(1) + encode_int(m.elem) + encode_uvarint(0)
}

/// The body of a definition message: the one field of the descriptor that
/// says what kind of type is defined (index 2 for a struct, 3 for a map),
/// and the zero delta that ends it. Only struct and map types are written.
pub open spec fn encode_wire_type(schema: SchemaView) -> Seq<u8> {
    match schema {
        SchemaView::Struct(t) => encode_uvarint(3) + encode_struct_type(t) + encode_uvarint(0),
        SchemaView::MapOf(m) => encode_uvarint(4) + encode_map_type(m) + encode_uvarint(0),
        _ => Seq::empty(),
    }
}

/// The type that a dynamic map is written as: interface keys and interface
/// elements.
pub open spec fn dict_type(id: i64) -> SchemaView {
    SchemaView::MapOf(
        MapTypeView { common: CommonTypeView { name: dict_name(), id }, key: 8, elem: 8 },
    )
}

/// The name that the type of a dynamic map goes by.
pub open spec fn dict_name() -> Seq<char> {
    "map[interface{}]interface{}"@
}

/// Whether two composite schemas describe the same type, their identifiers
/// aside.
pub open spec fn same_shape(a: SchemaView, b: SchemaView) -> bool {
    match (a, b) {
        (SchemaView::MapOf(x), SchemaView::MapOf(y)) => x.common.name == y.common.name && x.key
            == y.key && x.elem == y.elem,
        (SchemaView::Struct(x), SchemaView::Struct(y)) => x.common.name == y.common.name
            && x.fields == y.fields,
        _ => false,
    }
}

/// The identifier that a composite schema holds.
pub open spec fn schema_id(s: SchemaView) -> i64 {
    match s {
        SchemaView::MapOf(m) => m.common.id,
        SchemaView::Struct(t) => t.common.id,
        _ => 0,
    }
}

/// The identifier of the first type from index `from` on that has the shape
/// of `shape`.
pub open spec fn find_sent(sent: Seq<SchemaView>, shape: SchemaView, from: int) -> Option<i64>
    decreases sent.len() - from,
{
    if from < 0 || from >= sent.len() {
        None
    } else if same_shape(sent[from], shape) {
        Some(schema_id(sent[from]))
    } else {
        find_sent(sent, shape, from + 1)
    }
}

/// A writer as mathematics.
pub ghost struct WriterView {
    /// Everything written so far.
    pub out: Seq<u8>,
    /// The types defined so far, in the order of their definition.
    pub sent: Seq<SchemaView>,
    /// The identifier that the next new type gets.
    pub next_id: u64,
}

/// What making sure that `schema`, of identifier zero, is defined does: the
/// identifier of a type of the same shape that was sent before; else the
/// next identifier, under which the schema is now defined in a message of
/// its own. There are no more identifiers after `i64::MAX`, and a message
/// too long for its length to be said is unsupported.
pub open spec fn ensure_sent(w: WriterView, schema: SchemaView) -> Result<
    (i64, WriterView),
    GobError,
> {
    match find_sent(w.sent, schema, 0) {
        Some(id) => Ok((id, w)),
        None => if w.next_id >= i64::MAX {
            Err(GobError::TooManyTypes)
        } else {
            let id = w.next_id as i64;
            let named = with_id(schema, id);
            match message((-id) as i64, encode_wire_type(named)) {
                None => Err(GobError::Unsupported),
                Some(m) => Ok(
                    (
                        id,
                        WriterView {
                            out: w.out + m,
                            sent: w.sent.push(named),
                            next_id: (w.next_id + 1) as u64,
                        },
                    ),
                ),
            }
        },
    }
}

/// A composite schema with its identifier set to `id`.
pub open spec fn with_id(schema: SchemaView, id: i64) -> SchemaView {
    match schema {
        SchemaView::MapOf(m) => SchemaView::MapOf(
            MapTypeView { common: CommonTypeView { name: m.common.name, id }, ..m },
        ),
        SchemaView::Struct(t) => SchemaView::Struct(
            StructTypeView { common: CommonTypeView { name: t.common.name, id }, ..t },
        ),
        other => other,
    }
}

/// What making sure that the type of a value is defined does, and the
/// identifier of that type.
///
/// A primitive has its predeclared identifier, and nil has identifier 0. A
/// map is a map from interface to interface; the types of its keys and
/// elements are defined after its own. A struct has the type of its name
/// and of its fields' names and types; the types of its fields are defined
/// before its own. An array is unsupported.
#[verifier::opaque]
pub open spec fn ensure_defined(w: WriterView, v: ValueView) -> Result<(i64, WriterView), GobError>
    decreases v, 1nat, 0nat,
{
    match v {
        ValueView::Nil => Ok((0, w)),
        ValueView::Bool(_) => Ok((1, w)),
        ValueView::Int(_) => Ok((2, w)),
        ValueView::Uint(_) => Ok((3, w)),
        ValueView::Float(_) => Ok((4, w)),
        ValueView::Bytes(_) => Ok((5, w)),
        ValueView::String(_) => Ok((6, w)),
        ValueView::Array(_) => Err(GobError::Unsupported),
        ValueView::Dict(entries) => match ensure_sent(w, dict_type(0)) {
            Err(e) => Err(e),
            Ok((id, w1)) => match ensure_entries(w1, entries, 0) {
                Err(e) => Err(e),
                Ok(w2) => Ok((id, w2)),
            },
        },
        ValueView::Struct(name, fields) => match ensure_fields(w, fields, 0, Seq::empty()) {
            Err(e) => Err(e),
            Ok((types, w1)) => ensure_sent(
                w1,
                SchemaView::Struct(
                    StructTypeView { common: CommonTypeView { name, id: 0 }, fields: types },
                ),
            ),
        },
    }
}

/// Makes sure that the types of the keys and elements of the entries from
/// index `i` on are defined.
#[verifier::opaque]
pub open spec fn ensure_entries(w: WriterView, entries: Seq<(ValueView, ValueView)>, i: int) -> Result<
    WriterView,
    GobError,
>
    decreases entries, 0nat, entries.len() - i,
{
    if i < 0 || i >= entries.len() {
        Ok(w)
    } else {
        match ensure_defined(w, entries[i].0) {
            Err(e) => Err(e),
            Ok((_, w1)) => match ensure_defined(w1, entries[i].1) {
                Err(e) => Err(e),
                Ok((_, w2)) => ensure_entries(w2, entries, i + 1),
            },
        }
    }
}

/// Makes sure that the types of the fields from index `i` on are defined,
/// and adds their descriptors to `acc`.
#[verifier::opaque]
pub open spec fn ensure_fields(
    w: WriterView,
    fields: Seq<(Seq<char>, ValueView)>,
    i: int,
    acc: Seq<FieldTypeView>,
) -> Result<(Seq<FieldTypeView>, WriterView), GobError>
    decreases fields, 0nat, fields.len() - i,
{
    if i < 0 || i >= fields.len() {
        Ok((acc, w))
    } else {
        match ensure_defined(w, fields[i].1) {
            Err(e) => Err(e),
            Ok((id, w1)) => ensure_fields(
                w1,
                fields,
                i + 1,
                acc.push(FieldTypeView { name: fields[i].0, id }),
            ),
        }
    }
}

/// The identifier under which the type of a value has been defined, if it
/// has, and the value is of a type that can be sent.
#[verifier::opaque]
pub open spec fn type_id(sent: Seq<SchemaView>, v: ValueView) -> Option<i64>
    decreases v, 1nat, 0nat,
{
    match v {
        ValueView::Nil => Some(0),
        ValueView::Bool(_) => Some(1),
        ValueView::Int(_) => Some(2),
        ValueView::Uint(_) => Some(3),
        ValueView::Float(_) => Some(4),
        ValueView::Bytes(_) => Some(5),
        ValueView::String(_) => Some(6),
        ValueView::Array(_) => None,
        ValueView::Dict(_) => find_sent(sent, dict_type(0), 0),
        ValueView::Struct(name, fields) => match field_types(sent, fields, 0, Seq::empty()) {
            None => None,
            Some(types) => find_sent(
                sent,
                SchemaView::Struct(
                    StructTypeView { common: CommonTypeView { name, id: 0 }, fields: types },
                ),
                0,
            ),
        },
    }
}

/// The descriptors of the fields from index `i` on, added to `acc`.
#[verifier::opaque]
pub open spec fn field_types(
    sent: Seq<SchemaView>,
    fields: Seq<(Seq<char>, ValueView)>,
    i: int,
    acc: Seq<FieldTypeView>,
) -> Option<Seq<FieldTypeView>>
    decreases fields, 0nat, fields.len() - i,
{
    if i < 0 || i >= fields.len() {
        Some(acc)
    } else {
        match type_id(sent, fields[i].1) {
            None => None,
            Some(id) => field_types(
                sent,
                fields,
                i + 1,
                acc.push(FieldTypeView { name: fields[i].0, id }),
            ),
        }
    }
}

/// The name that an interface value gives for the type of `v`.
pub open spec fn concrete_name(v: ValueView) -> Seq<char> {
    match v {
        ValueView::Nil => Seq::empty(),
        ValueView::Bool(_) => "bool"@,
        ValueView::Int(_) => "int64"@,
        ValueView::Uint(_) => "uint"@,
        ValueView::Float(_) => "float64"@,
        ValueView::String(_) => "string"@,
        ValueView::Bytes(_) => "[]byte"@,
        ValueView::Array(_) => "unknown"@,
        ValueView::Dict(_) => dict_name(),
        ValueView::Struct(name, _) => name,
    }
}

/// A value's bytes as they stand in an interface value: with a zero byte in
/// front where the first of them is zero.
pub open spec fn guarded(payload: Seq<u8>) -> Seq<u8> {
    if payload.len() > 0 && payload[0] == 0 {
        seq![0u8] + payload
    } else {
        payload
    }
}

/// A value's bytes with their length in front, as they stand in an
/// interface value, where that length can be said.
pub open spec fn payload(body: Seq<u8>) -> Option<Seq<u8>> {
    if guarded(body).len() <= u64::MAX {
        Some(encode_bytes(guarded(body)))
    } else {
        None
    }
}

/// The body of a value: what follows the identifier in its message.
///
/// A primitive is written by the bit codec, and nil as nothing. A map is its
/// count and its entries in order, key and element each as an interface
/// value. A struct is its fields in order, each with a delta of one in
/// front, and a zero delta at the end. An array is unsupported, and a value
/// whose type is not defined is of unknown type.
#[verifier::opaque]
pub open spec fn encode_body(sent: Seq<SchemaView>, v: ValueView) -> Result<Seq<u8>, GobError>
    decreases v, 1nat, 0nat,
{
    match v {
        ValueView::Nil => Ok(Seq::empty()),
        ValueView::Bool(b) => Ok(encode_bool(b)),
        ValueView::Int(i) => Ok(encode_int(i)),
        ValueView::Uint(u) => Ok(encode_uvarint(u)),
        ValueView::Float(f) => Ok(encode_float(f)),
        ValueView::String(s) => Ok(encode_string(s)),
        ValueView::Bytes(b) => Ok(encode_bytes(b)),
        ValueView::Array(_) => Err(GobError::Unsupported),
        ValueView::Dict(entries) => match encode_entries(sent, entries, 0) {
            Err(e) => Err(e),
            Ok(b) => Ok(encode_uvarint(entries.len() as u64) + b),
        },
        ValueView::Struct(_, fields) => match encode_fields(sent, fields, 0) {
            Err(e) => Err(e),
            Ok(b) => Ok(b + encode_uvarint(0)),
        },
    }
}

/// The entries from index `i` on.
#[verifier::opaque]
pub open spec fn encode_entries(
    sent: Seq<SchemaView>,
    entries: Seq<(ValueView, ValueView)>,
    i: int,
) -> Result<Seq<u8>, GobError>
    decreases entries, 0nat, entries.len() - i,
{
    if i < 0 || i >= entries.len() {
        Ok(Seq::empty())
    } else {
        match encode_interface(sent, entries[i].0) {
            Err(e) => Err(e),
            Ok(k) => match encode_interface(sent, entries[i].1) {
                Err(e) => Err(e),
                Ok(v) => match encode_entries(sent, entries, i + 1) {
                    Err(e) => Err(e),
                    Ok(rest) => Ok(k + v + rest),
                },
            },
        }
    }
}

/// The fields from index `i` on.
#[verifier::opaque]
pub open spec fn encode_fields(
    sent: Seq<SchemaView>,
    fields: Seq<(Seq<char>, ValueView)>,
    i: int,
) -> Result<Seq<u8>, GobError>
    decreases fields, 0nat, fields.len() - i,
{
    if i < 0 || i >= fields.len() {
        Ok(Seq::empty())
    } else {
        match encode_body(sent, fields[i].1) {
            Err(e) => Err(e),
            Ok(b) => match encode_fields(sent, fields, i + 1) {
                Err(e) => Err(e),
                Ok(rest) => Ok(encode_uvarint(1) + b + rest),
            },
        }
    }
}

/// An interface value: the name of the value's type, empty for nil and then
/// all there is; the identifier of the type; the length of what follows;
/// and the value's body, with a zero byte in front where its first byte is
/// zero. A body too long for its length to be said is unsupported.
#[verifier::opaque]
pub open spec fn encode_interface(sent: Seq<SchemaView>, v: ValueView) -> Result<Seq<u8>, GobError>
    decreases v, 2nat, 0nat,
{
    if v is Nil {
        Ok(encode_string(Seq::empty()))
    } else {
        match type_id(sent, v) {
            None => if v is Array {
                Err(GobError::Unsupported)
            } else {
                Err(GobError::UnknownType)
            },
            Some(id) => match encode_body(sent, v) {
                Err(e) => Err(e),
                Ok(b) => match payload(b) {
                    None => Err(GobError::Unsupported),
                    Some(p) => Ok(encode_string(concrete_name(v)) + encode_int(id) + p),
                },
            },
        }
    }
}

/// What writing a value does: the types in it are defined, and the value
/// follows in a message of its own. A message too long for its length to be
/// said is unsupported.
pub open spec fn encode_value(w: WriterView, v: ValueView) -> Result<WriterView, GobError> {
    match ensure_defined(w, v) {
        Err(e) => Err(e),
        Ok((id, w1)) => match encode_body(w1.sent, v) {
            Err(e) => Err(e),
            Ok(b) => match message(id, b) {
                None => Err(GobError::Unsupported),
                Some(m) => Ok(WriterView { out: w1.out + m, ..w1 }),
            },
        },
    }
}

/// An outcome with `head` in front of its bytes.
pub open spec fn prepend(head: Seq<u8>, r: Result<Seq<u8>, GobError>) -> Result<Seq<u8>, GobError> {
    match r {
        Ok(b) => Ok(head + b),
        Err(e) => Err(e),
    }
}

/// One step of [`ensure_entries`], spelled out.
pub proof fn lemma_ensure_entries_step(w: WriterView, entries: Seq<(ValueView, ValueView)>, i: int)
    ensures
        ensure_entries(w, entries, i) == if i < 0 || i >= entries.len() {
            Ok::<WriterView, GobError>(w)
        } else {
            match ensure_defined(w, entries[i].0) {
                Err(e) => Err(e),
                Ok((_, w1)) => match ensure_defined(w1, entries[i].1) {
                    Err(e) => Err(e),
                    Ok((_, w2)) => ensure_entries(w2, entries, i + 1),
                },
            }
        },
{
    reveal(ensure_entries);
    reveal(ensure_defined);
}

/// One step of [`ensure_fields`], spelled out.
pub proof fn lemma_ensure_fields_step(
    w: WriterView,
    fields: Seq<(Seq<char>, ValueView)>,
    i: int,
    acc: Seq<FieldTypeView>,
)
    ensures
        ensure_fields(w, fields, i, acc) == if i < 0 || i >= fields.len() {
            Ok::<(Seq<FieldTypeView>, WriterView), GobError>((acc, w))
        } else {
            match ensure_defined(w, fields[i].1) {
                Err(e) => Err(e),
                Ok((id, w1)) => ensure_fields(
                    w1,
                    fields,
                    i + 1,
                    acc.push(FieldTypeView { name: fields[i].0, id }),
                ),
            }
        },
{
    reveal(ensure_fields);
    reveal(ensure_defined);
}

/// One step of [`field_types`], spelled out.
pub proof fn lemma_field_types_step(
    sent: Seq<SchemaView>,
    fields: Seq<(Seq<char>, ValueView)>,
    i: int,
    acc: Seq<FieldTypeView>,
)
    ensures
        field_types(sent, fields, i, acc) == if i < 0 || i >= fields.len() {
            Some(acc)
        } else {
            match type_id(sent, fields[i].1) {
                None => None,
                Some(id) => field_types(
                    sent,
                    fields,
                    i + 1,
                    acc.push(FieldTypeView { name: fields[i].0, id }),
                ),
            }
        },
{
    reveal(field_types);
    reveal(type_id);
}

/// One step of [`encode_entries`], spelled out.
pub proof fn lemma_encode_entries_step(
    sent: Seq<SchemaView>,
    entries: Seq<(ValueView, ValueView)>,
    i: int,
)
    ensures
        encode_entries(sent, entries, i) == if i < 0 || i >= entries.len() {
            Ok::<Seq<u8>, GobError>(Seq::empty())
        } else {
            match encode_interface(sent, entries[i].0) {
                Err(e) => Err(e),
                Ok(k) => match encode_interface(sent, entries[i].1) {
                    Err(e) => Err(e),
                    Ok(v) => prepend(k + v, encode_entries(sent, entries, i + 1)),
                },
            }
        },
{
    reveal(encode_entries);
    reveal(encode_interface);
}

/// One step of [`encode_fields`], spelled out.
pub proof fn lemma_encode_fields_step(
    sent: Seq<SchemaView>,
    fields: Seq<(Seq<char>, ValueView)>,
    i: int,
)
    ensures
        encode_fields(sent, fields, i) == if i < 0 || i >= fields.len() {
            Ok::<Seq<u8>, GobError>(Seq::empty())
        } else {
            match encode_body(sent, fields[i].1) {
                Err(e) => Err(e),
                Ok(b) => prepend(encode_uvarint(1) + b, encode_fields(sent, fields, i + 1)),
            }
        },
{
    reveal(encode_fields);
    reveal(encode_body);
    match encode_body(sent, fields[i].1) {
        Ok(b) => match encode_fields(sent, fields, i + 1) {
            Ok(rest) => {
                assert(encode_uvarint(1) + b + rest =~= (encode_uvarint(1) + b) + rest);
            },
            Err(_) => {},
        },
        Err(_) => {},
    }
}

/// [`encode_interface`], spelled out.
pub proof fn lemma_encode_interface_step(sent: Seq<SchemaView>, v: ValueView)
    ensures
        encode_interface(sent, v) == if v is Nil {
            Ok::<Seq<u8>, GobError>(encode_string(Seq::empty()))
        } else {
            match type_id(sent, v) {
                None => if v is Array {
                    Err(GobError::Unsupported)
                } else {
                    Err(GobError::UnknownType)
                },
                Some(id) => match encode_body(sent, v) {
                    Err(e) => Err(e),
                    Ok(b) => match payload(b) {
                        None => Err(GobError::Unsupported),
                        Some(p) => Ok(encode_string(concrete_name(v)) + encode_int(id) + p),
                    },
                },
            }
        },
{
    reveal(encode_interface);
    reveal(encode_body);
}

} // verus!
