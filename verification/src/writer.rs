//! The writer: values go out as messages, each type defined ahead of the
//! first value that needs it.

use crate::encode::Encoder;
use crate::error::GobError;
use crate::layout::{
    dict_name, dict_type, encode_body, encode_entries, encode_fields, encode_interface,
    encode_value, encode_wire_type, ensure_defined, ensure_entries, ensure_fields, ensure_sent,
    field_types, find_sent, lemma_encode_entries_step, lemma_encode_fields_step,
    lemma_ensure_entries_step, lemma_ensure_fields_step, lemma_field_types_step, message, prepend,
    same_shape, schema_id, type_id, with_id, WriterView,
};
use crate::schema::{same_fields, SchemaView, TypeSchema, FIRST_USER_ID};
use crate::types::{
    fields_view, CommonType, CommonTypeView, FieldType, FieldTypeView, MapType, StructType,
    StructTypeView,
};
use crate::value::{entries_view, named_view, Value};
use crate::wire::encode_uvarint;
use vstd::prelude::*;

verus! {

/// The views of a list of schemas, in order.
pub open spec fn schemas_view(schemas: Seq<TypeSchema>) -> Seq<SchemaView> {
    Seq::new(schemas.len(), |i: int| schemas[i]@)
}

/// Whether two schemas describe the same composite type, their identifiers
/// aside.
pub fn shape_matches(a: &TypeSchema, b: &TypeSchema) -> (r: bool)
    ensures
        r == same_shape(a@, b@),
{
    match (a, b) {
        (TypeSchema::MapOf(x), TypeSchema::MapOf(y)) => {
            x.common.name == y.common.name && x.key == y.key && x.elem == y.elem
        },
        (TypeSchema::Struct(x), TypeSchema::Struct(y)) => {
            x.common.name == y.common.name && same_fields(&x.fields, &y.fields)
        },
        _ => false,
    }
}

/// The identifier that a composite schema holds.
pub fn id_of_schema(s: &TypeSchema) -> (id: i64)
    ensures
        id == schema_id(s@),
{
    match s {
        TypeSchema::MapOf(m) => m.common.id,
        TypeSchema::Struct(t) => t.common.id,
        _ => 0,
    }
}

/// Writes a stream of values, with the definitions of their types.
pub struct GobWriter {
    encoder: Encoder,
    /// The types defined so far, each with its identifier.
    sent: Vec<TypeSchema>,
    next_id: u64,
}

impl View for GobWriter {
    type V = WriterView;

    closed spec fn view(&self) -> WriterView {
        WriterView { out: self.encoder@, sent: schemas_view(self.sent@), next_id: self.next_id }
    }
}

impl GobWriter {
    /// A writer that appends to `writer`, has defined no type yet, and
    /// gives its first type the identifier 65.
    pub fn new(writer: Vec<u8>) -> (w: Self)
        ensures
            w@ == (WriterView { out: writer@, sent: Seq::empty(), next_id: FIRST_USER_ID }),
    {
        let w = Self { encoder: Encoder::new(writer), sent: Vec::new(), next_id: FIRST_USER_ID };
        assert(w@.sent =~= Seq::<SchemaView>::empty());
        w
    }

    /// Hands on what was written: see [`Encoder::flush`].
    pub fn flush(&mut self) -> (r: Result<(), GobError>)
        ensures
            r is Ok,
            final(self)@ == old(self)@,
    {
        self.encoder.flush()
    }

    /// Gives back the bytes written.
    pub fn into_inner(self) -> (bytes: Vec<u8>)
        ensures
            bytes@ == self@.out,
    {
        self.encoder.into_inner()
    }

    /// The identifier under which a type of the shape of `shape` was
    /// defined, if one was.
    pub fn get_type_id(&self, shape: &TypeSchema) -> (r: Option<i64>)
        ensures
            r == find_sent(self@.sent, shape@, 0),
    {
        let ghost sv = self@.sent;
        let mut i: usize = 0;
        while i < self.sent.len()
            invariant
                i <= self.sent.len(),
                sv == schemas_view(self.sent@),
                find_sent(sv, shape@, 0) == find_sent(sv, shape@, i as int),
            decreases self.sent.len() - i,
        {
            if shape_matches(&self.sent[i], shape) {
                return Some(id_of_schema(&self.sent[i]));
            }
            i = i + 1;
        }
        None
    }

    /// Records `schema` as defined and moves on to the next identifier.
    fn assign_type_id(&mut self, schema: TypeSchema)
        requires
            old(self).next_id < u64::MAX,
        ensures
            final(self)@ == (WriterView {
                out: old(self)@.out,
                sent: old(self)@.sent.push(schema@),
                next_id: (old(self)@.next_id + 1) as u64,
            }),
    {
        self.sent.push(schema);
        self.next_id = self.next_id + 1;
        assert(self@.sent =~= old(self)@.sent.push(schema@));
    }

    /// Writes the definition message of `schema` under `id`.
    fn send_type_def(&mut self, id: i64, schema: &TypeSchema) -> (r: Result<(), GobError>)
        requires
            schema is Struct || schema is MapOf,
            id > i64::MIN,
        ensures
            match message((-id) as i64, encode_wire_type(schema@)) {
                Some(m) => r is Ok && final(self)@ == (WriterView {
                    out: old(self)@.out + m,
                    ..old(self)@
                }),
                None => r == Err::<(), GobError>(GobError::Unsupported) && final(self)@ == old(self)@,
            },
    {
        let mut enc = Encoder::new(Vec::new());
        let _ = enc.write_wire_type(schema);
        let content = enc.into_inner();
        assert(content@ =~= encode_wire_type(schema@));
        self.encoder.write_message(-id, content.as_slice())
    }

    /// Writes the definition of a map type from keys of type `key_id` to
    /// elements of type `elem_id`, named as the type of dynamic maps is.
    pub fn send_map_type_def(&mut self, id: i64, key_id: i64, elem_id: i64) -> (r: Result<
        (),
        GobError,
    >)
        requires
            id > i64::MIN,
        ensures
            match message(
                (-id) as i64,
                encode_wire_type(
                    SchemaView::MapOf(
                        crate::types::MapTypeView {
                            common: CommonTypeView { name: dict_name(), id },
                            key: key_id,
                            elem: elem_id,
                        },
                    ),
                ),
            ) {
                Some(m) => r is Ok && final(self)@ == (WriterView {
                    out: old(self)@.out + m,
                    ..old(self)@
                }),
                None => r == Err::<(), GobError>(GobError::Unsupported) && final(self)@ == old(self)@,
            },
    {
        let schema = TypeSchema::MapOf(
            MapType {
                common: CommonType {
                    name: String::from_str("map[interface{}]interface{}"),
                    id,
                },
                key: key_id,
                elem: elem_id,
            },
        );
        self.send_type_def(id, &schema)
    }

    /// Writes the definition of a struct type with the given name and
    /// fields.
    pub fn send_struct_type_def(&mut self, id: i64, name: &str, fields: Vec<FieldType>) -> (r:
        Result<(), GobError>)
        requires
            id > i64::MIN,
        ensures
            match message(
                (-id) as i64,
                encode_wire_type(
                    SchemaView::Struct(
                        StructTypeView {
                            common: CommonTypeView { name: name@, id },
                            fields: fields_view(fields@),
                        },
                    ),
                ),
            ) {
                Some(m) => r is Ok && final(self)@ == (WriterView {
                    out: old(self)@.out + m,
                    ..old(self)@
                }),
                None => r == Err::<(), GobError>(GobError::Unsupported) && final(self)@ == old(self)@,
            },
    {
        let schema = TypeSchema::Struct(
            StructType { common: CommonType { name: String::from_str(name), id }, fields },
        );
        self.send_type_def(id, &schema)
    }

    /// Makes sure that a type of the shape of `shape` is defined: gives the
    /// identifier of one defined before, or defines it under the next
    /// identifier.
    fn ensure_sent(&mut self, shape: TypeSchema) -> (r: Result<i64, GobError>)
        requires
            shape is Struct || shape is MapOf,
        ensures
            match ensure_sent(old(self)@, shape@) {
                Ok((id, after)) => r == Ok::<i64, GobError>(id) && final(self)@ == after,
                Err(e) => r == Err::<i64, GobError>(e),
            },
    {
        if let Some(id) = self.get_type_id(&shape) {
            return Ok(id);
        }
        if self.next_id >= i64::MAX as u64 {
            return Err(GobError::TooManyTypes);
        }
        let id = self.next_id as i64;
        let named = match shape {
            TypeSchema::MapOf(m) => TypeSchema::MapOf(
                MapType { common: CommonType { name: m.common.name, id }, key: m.key, elem: m.elem },
            ),
            TypeSchema::Struct(t) => TypeSchema::Struct(
                StructType { common: CommonType { name: t.common.name, id }, fields: t.fields },
            ),
            other => other,
        };
        assert(named@ == with_id(shape@, id));
        self.send_type_def(id, &named)?;
        self.assign_type_id(named);
        Ok(id)
    }

    /// Appends a value's message to the stream.
    fn send_value(&mut self, id: i64, body: &[u8]) -> (r: Result<(), GobError>)
        ensures
            match message(id, body@) {
                Some(m) => r is Ok && final(self)@ == (WriterView {
                    out: old(self)@.out + m,
                    ..old(self)@
                }),
                None => r == Err::<(), GobError>(GobError::Unsupported) && final(self)@ == old(self)@,
            },
    {
        self.encoder.write_message(id, body)
    }

    /// Makes sure that the type of `value`, and of every value in it, is
    /// defined, and gives the identifier of the type of `value`: the
    /// predeclared one of a primitive, 0 for nil, and for a map or a struct
    /// the one of a type of the same shape that was defined before, or the
    /// next one, with its definition written. An array is unsupported.
    pub fn ensure_type_defined(&mut self, value: &Value) -> (r: Result<i64, GobError>)
        ensures
            match ensure_defined(old(self)@, value@) {
                Ok((id, after)) => r == Ok::<i64, GobError>(id) && final(self)@ == after,
                Err(e) => r == Err::<i64, GobError>(e),
            },
        decreases value, 1nat,
    {
        proof {
            reveal(ensure_defined);
            reveal(ensure_entries);
            reveal(ensure_fields);
        }
        match value {
            Value::Nil => Ok(0),
            Value::Bool(_) => Ok(1),
            Value::Int(_) => Ok(2),
            Value::Uint(_) => Ok(3),
            Value::Float(_) => Ok(4),
            Value::Bytes(_) => Ok(5),
            Value::String(_) => Ok(6),
            Value::Array(_) => Err(GobError::Unsupported),
            Value::Dict(entries) => {
                let shape = TypeSchema::MapOf(
                    MapType {
                        common: CommonType {
                            name: String::from_str("map[interface{}]interface{}"),
                            id: 0,
                        },
                        key: 8,
                        elem: 8,
                    },
                );
                assert(shape@ == dict_type(0));
                let id = self.ensure_sent(shape)?;
                self.ensure_entries_defined(entries)?;
                Ok(id)
            },
            Value::Struct(name, fields) => {
                let types = self.ensure_fields_defined(fields)?;
                let shape = TypeSchema::Struct(
                    StructType { common: CommonType { name: name.clone(), id: 0 }, fields: types },
                );
                self.ensure_sent(shape)
            },
        }
    }

    /// Makes sure that the types of the keys and elements of `entries` are
    /// defined.
    fn ensure_entries_defined(&mut self, entries: &Vec<(Value, Value)>) -> (r: Result<
        (),
        GobError,
    >)
        ensures
            match ensure_entries(old(self)@, entries_view(entries@), 0) {
                Ok(after) => r is Ok && final(self)@ == after,
                Err(e) => r == Err::<(), GobError>(e),
            },
        decreases entries, 0nat,
    {
        let ghost ev = entries_view(entries@);
        let mut i: usize = 0;
        while i < entries.len()
            invariant
                i <= entries.len(),
                ev == entries_view(entries@),
                ensure_entries(old(self)@, ev, 0) == ensure_entries(self@, ev, i as int),
            decreases entries.len() - i,
        {
            proof {
                lemma_ensure_entries_step(self@, ev, i as int);
            }
            self.ensure_type_defined(&entries[i].0)?;
            self.ensure_type_defined(&entries[i].1)?;
            i = i + 1;
        }
        proof {
            lemma_ensure_entries_step(self@, ev, i as int);
        }
        Ok(())
    }

    /// Makes sure that the types of `fields` are defined, and gives their
    /// descriptors.
    fn ensure_fields_defined(&mut self, fields: &Vec<(String, Value)>) -> (r: Result<
        Vec<FieldType>,
        GobError,
    >)
        ensures
            match ensure_fields(old(self)@, named_view(fields@), 0, Seq::empty()) {
                Ok((types, after)) => r is Ok && fields_view(r->Ok_0@) == types && final(self)@
                    == after,
                Err(e) => r == Err::<Vec<FieldType>, GobError>(e),
            },
        decreases fields, 0nat,
    {
        let ghost fv = named_view(fields@);
        let mut types: Vec<FieldType> = Vec::new();
        let mut i: usize = 0;
        proof {
            assert(fields_view(types@) =~= Seq::<FieldTypeView>::empty());
        }
        while i < fields.len()
            invariant
                i <= fields.len(),
                fv == named_view(fields@),
                ensure_fields(old(self)@, fv, 0, Seq::empty()) == ensure_fields(
                    self@,
                    fv,
                    i as int,
                    fields_view(types@),
                ),
            decreases fields.len() - i,
        {
            let ghost before = fields_view(types@);
            proof {
                lemma_ensure_fields_step(self@, fv, i as int, before);
            }
            let id = self.ensure_type_defined(&fields[i].1)?;
            let f = FieldType { name: fields[i].0.clone(), id };
            proof {
                assert(fields_view(types@.push(f)) =~= before.push(
                    FieldTypeView { name: fv[i as int].0, id },
                ));
            }
            types.push(f);
            i = i + 1;
        }
        proof {
            lemma_ensure_fields_step(self@, fv, i as int, fields_view(types@));
        }
        Ok(types)
    }

    /// The identifier under which the type of `value` is defined, if it is
    /// and can be sent.
    pub fn type_id_of(&self, value: &Value) -> (r: Option<i64>)
        ensures
            r == type_id(self@.sent, value@),
        decreases value, 1nat,
    {
        proof {
            reveal(type_id);
            reveal(field_types);
        }
        match value {
            Value::Nil => Some(0),
            Value::Bool(_) => Some(1),
            Value::Int(_) => Some(2),
            Value::Uint(_) => Some(3),
            Value::Float(_) => Some(4),
            Value::Bytes(_) => Some(5),
            Value::String(_) => Some(6),
            Value::Array(_) => None,
            Value::Dict(_) => {
                let shape = TypeSchema::MapOf(
                    MapType {
                        common: CommonType {
                            name: String::from_str("map[interface{}]interface{}"),
                            id: 0,
                        },
                        key: 8,
                        elem: 8,
                    },
                );
                assert(shape@ == dict_type(0));
                self.get_type_id(&shape)
            },
            Value::Struct(name, fields) => {
                match self.field_types_of(fields) {
                    None => None,
                    Some(types) => {
                        let shape = TypeSchema::Struct(
                            StructType {
                                common: CommonType { name: name.clone(), id: 0 },
                                fields: types,
                            },
                        );
                        self.get_type_id(&shape)
                    },
                }
            },
        }
    }

    /// The descriptors of `fields`, if the types of all of them are defined.
    fn field_types_of(&self, fields: &Vec<(String, Value)>) -> (r: Option<Vec<FieldType>>)
        ensures
            match field_types(self@.sent, named_view(fields@), 0, Seq::empty()) {
                Some(types) => r is Some && fields_view(r->0@) == types,
                None => r is None,
            },
        decreases fields, 0nat,
    {
        let ghost fv = named_view(fields@);
        let ghost sent = self@.sent;
        let mut types: Vec<FieldType> = Vec::new();
        let mut i: usize = 0;
        proof {
            assert(fields_view(types@) =~= Seq::<FieldTypeView>::empty());
        }
        while i < fields.len()
            invariant
                i <= fields.len(),
                fv == named_view(fields@),
                sent == self@.sent,
                field_types(sent, fv, 0, Seq::empty()) == field_types(
                    sent,
                    fv,
                    i as int,
                    fields_view(types@),
                ),
            decreases fields.len() - i,
        {
            let ghost before = fields_view(types@);
            proof {
                lemma_field_types_step(sent, fv, i as int, before);
            }
            let id = match self.type_id_of(&fields[i].1) {
                Some(id) => id,
                None => {
                    return None;
                },
            };
            let f = FieldType { name: fields[i].0.clone(), id };
            proof {
                assert(fields_view(types@.push(f)) =~= before.push(
                    FieldTypeView { name: fv[i as int].0, id },
                ));
            }
            types.push(f);
            i = i + 1;
        }
        proof {
            lemma_field_types_step(sent, fv, i as int, fields_view(types@));
        }
        Some(types)
    }

    /// Appends the body of `value` to `enc`: a primitive by the bit codec,
    /// nil as nothing, a map as its count and its entries as interface
    /// values, a struct as its fields with a delta of one before each and a
    /// zero delta at the end. Defines nothing: a value whose type is not
    /// defined is of unknown type. An array is unsupported.
    pub fn encode_value_body(&self, enc: &mut Encoder, value: &Value) -> (r: Result<(), GobError>)
        ensures
            match encode_body(self@.sent, value@) {
                Ok(b) => r is Ok && final(enc)@ == old(enc)@ + b,
                Err(e) => r == Err::<(), GobError>(e),
            },
        decreases value, 1nat,
    {
        proof {
            reveal(encode_body);
            reveal(encode_entries);
            reveal(encode_fields);
        }
        match value {
            Value::Nil => {
                assert(enc@ =~= enc@ + Seq::<u8>::empty());
                Ok(())
            },
            Value::Bool(v) => enc.write_bool(*v),
            Value::Int(v) => enc.write_int(*v),
            Value::Uint(v) => enc.write_uint(*v),
            Value::Float(v) => enc.write_float(*v),
            Value::String(v) => enc.write_string(v.as_str()),
            Value::Bytes(v) => enc.write_bytes(v.as_slice()),
            Value::Array(_) => Err(GobError::Unsupported),
            Value::Dict(m) => {
                let mut staged = Encoder::new(Vec::new());
                self.encode_entries(&mut staged, m)?;
                let staged = staged.into_inner();
                let _ = enc.write_uint(m.len() as u64);
                let _ = enc.write_all(staged.as_slice());
                proof {
                    let b = encode_entries(self@.sent, entries_view(m@), 0)->Ok_0;
                    assert(staged@ =~= b);
                    assert(enc@ =~= old(enc)@ + (encode_uvarint(m.len() as u64) + b));
                }
                Ok(())
            },
            Value::Struct(_, fields) => {
                self.encode_fields(enc, fields)?;
                let _ = enc.write_uint(0);
                proof {
                    let b = encode_fields(self@.sent, named_view(fields@), 0)->Ok_0;
                    assert(enc@ =~= old(enc)@ + (b + encode_uvarint(0)));
                }
                Ok(())
            },
        }
    }

    /// Appends the entries of a map, key and element each as an interface
    /// value.
    fn encode_entries(&self, enc: &mut Encoder, entries: &Vec<(Value, Value)>) -> (r: Result<
        (),
        GobError,
    >)
        ensures
            match encode_entries(self@.sent, entries_view(entries@), 0) {
                Ok(b) => r is Ok && final(enc)@ == old(enc)@ + b,
                Err(e) => r == Err::<(), GobError>(e),
            },
        decreases entries, 0nat,
    {
        let ghost ev = entries_view(entries@);
        let ghost sent = self@.sent;
        let ghost mut acc: Seq<u8> = Seq::empty();
        let mut i: usize = 0;
        proof {
            assert(enc@ =~= old(enc)@ + acc);
            match encode_entries(sent, ev, 0) {
                Ok(b) => {
                    assert(acc + b =~= b);
                },
                Err(_) => {},
            }
        }
        while i < entries.len()
            invariant
                i <= entries.len(),
                ev == entries_view(entries@),
                sent == self@.sent,
                enc@ == old(enc)@ + acc,
                encode_entries(sent, ev, 0) == prepend(acc, encode_entries(sent, ev, i as int)),
            decreases entries.len() - i,
        {
            let ghost start = enc@;
            proof {
                lemma_encode_entries_step(sent, ev, i as int);
            }
            self.encode_interface_value(enc, &entries[i].0)?;
            self.encode_interface_value(enc, &entries[i].1)?;
            proof {
                let k = encode_interface(sent, ev[i as int].0)->Ok_0;
                let v = encode_interface(sent, ev[i as int].1)->Ok_0;
                assert(enc@ =~= old(enc)@ + (acc + (k + v)));
                match encode_entries(sent, ev, i + 1) {
                    Ok(rest) => {
                        assert(acc + ((k + v) + rest) =~= (acc + (k + v)) + rest);
                    },
                    Err(_) => {},
                }
                acc = acc + (k + v);
            }
            i = i + 1;
        }
        proof {
            lemma_encode_entries_step(sent, ev, i as int);
            assert(acc + Seq::<u8>::empty() =~= acc);
        }
        Ok(())
    }

    /// Appends the fields of a struct, each with a delta of one in front.
    fn encode_fields(&self, enc: &mut Encoder, fields: &Vec<(String, Value)>) -> (r: Result<
        (),
        GobError,
    >)
        ensures
            match encode_fields(self@.sent, named_view(fields@), 0) {
                Ok(b) => r is Ok && final(enc)@ == old(enc)@ + b,
                Err(e) => r == Err::<(), GobError>(e),
            },
        decreases fields, 0nat,
    {
        let ghost fv = named_view(fields@);
        let ghost sent = self@.sent;
        let ghost mut acc: Seq<u8> = Seq::empty();
        let mut i: usize = 0;
        proof {
            assert(enc@ =~= old(enc)@ + acc);
            match encode_fields(sent, fv, 0) {
                Ok(b) => {
                    assert(acc + b =~= b);
                },
                Err(_) => {},
            }
        }
        while i < fields.len()
            invariant
                i <= fields.len(),
                fv == named_view(fields@),
                sent == self@.sent,
                enc@ == old(enc)@ + acc,
                encode_fields(sent, fv, 0) == prepend(acc, encode_fields(sent, fv, i as int)),
            decreases fields.len() - i,
        {
            proof {
                lemma_encode_fields_step(sent, fv, i as int);
            }
            let _ = enc.write_uint(1);
            self.encode_value_body(enc, &fields[i].1)?;
            proof {
                let b = encode_body(sent, fv[i as int].1)->Ok_0;
                assert(enc@ =~= old(enc)@ + (acc + (encode_uvarint(1) + b)));
                match encode_fields(sent, fv, i + 1) {
                    Ok(rest) => {
                        assert(acc + ((encode_uvarint(1) + b) + rest) =~= (acc + (encode_uvarint(1)
                            + b)) + rest);
                    },
                    Err(_) => {},
                }
                acc = acc + (encode_uvarint(1) + b);
            }
            i = i + 1;
        }
        proof {
            lemma_encode_fields_step(sent, fv, i as int);
            assert(acc + Seq::<u8>::empty() =~= acc);
        }
        Ok(())
    }

    /// Appends `value` to `enc` as an interface value: the name of its
    /// type, empty for nil and then all there is; the identifier of the
    /// type; and the value's body with its length in front, and with a zero
    /// byte before it where its first byte is zero.
    pub fn encode_interface_value(&self, enc: &mut Encoder, value: &Value) -> (r: Result<
        (),
        GobError,
    >)
        ensures
            match encode_interface(self@.sent, value@) {
                Ok(b) => r is Ok && final(enc)@ == old(enc)@ + b,
                Err(e) => r == Err::<(), GobError>(e),
            },
        decreases value, 2nat,
    {
        proof {
            reveal(encode_interface);
            reveal(encode_body);
            reveal_strlit("");
            assert(""@ =~= Seq::<char>::empty());
        }
        let name: &str = match value {
            Value::Nil => {
                return enc.write_string("");
            },
            Value::Bool(_) => "bool",
            Value::Int(_) => "int64",
            Value::Uint(_) => "uint",
            Value::Float(_) => "float64",
            Value::String(_) => "string",
            Value::Bytes(_) => "[]byte",
            Value::Struct(n, _) => n.as_str(),
            Value::Dict(_) => "map[interface{}]interface{}",
            Value::Array(_) => {
                return Err(GobError::Unsupported);
            },
        };
        let type_id = match self.type_id_of(value) {
            Some(id) => id,
            None => {
                return Err(GobError::UnknownType);
            },
        };
        let mut val_enc = Encoder::new(Vec::new());
        self.encode_value_body(&mut val_enc, value)?;
        let val_buf = val_enc.into_inner();
        proof {
            let b = encode_body(self@.sent, value@)->Ok_0;
            assert(val_buf@ =~= b);
        }
        if val_buf.len() > 0 && val_buf[0] == 0 && val_buf.len() as u64 == u64::MAX {
            return Err(GobError::Unsupported);
        }
        let _ = enc.write_string(name);
        let _ = enc.write_int(type_id);
        let _ = enc.write_guarded(val_buf.as_slice());
        proof {
            let p = crate::layout::payload(val_buf@)->0;
            assert(enc@ =~= old(enc)@ + (crate::wire::encode_string(name@)
                + crate::wire::encode_int(type_id) + p));
        }
        Ok(())
    }

    /// Writes `value` to the stream: first the definitions of the types in
    /// it that were not defined before, each in a message of its own, then
    /// the value in a message under the identifier of its type.
    pub fn encode(&mut self, value: &Value) -> (r: Result<(), GobError>)
        ensures
            match encode_value(old(self)@, value@) {
                Ok(after) => r is Ok && final(self)@ == after,
                Err(e) => r == Err::<(), GobError>(e),
            },
    {
        let type_id = self.ensure_type_defined(value)?;
        let mut content = Encoder::new(Vec::new());
        self.encode_value_body(&mut content, value)?;
        let content_buf = content.into_inner();
        proof {
            let b = encode_body(self@.sent, value@)->Ok_0;
            assert(content_buf@ =~= b);
        }
        self.send_value(type_id, content_buf.as_slice())
    }
}

} // verus!
