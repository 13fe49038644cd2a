//! The wire format as mathematics: how a message, a type descriptor and a
//! value are read from a byte string.
//!
//! Every reader here takes the bytes it may read and gives back what it read
//! with the number of bytes it took, or the error it met.

use crate::error::GobError;
use crate::schema::{lookup, register, RegistryView, SchemaView};
use crate::types::{CommonTypeView, FieldTypeView, MapTypeView, StructTypeView};
use crate::value::{dict_put, named_put, ValueView};
use crate::wire::{
    be_value, decode_bool, decode_bytes, decode_float, decode_int, decode_string, decode_uvarint,
    lemma_decode_bounds,
};
use vstd::prelude::*;

verus! {

/// `s` without its first `n` bytes; nothing where it has fewer.
pub open spec fn after(s: Seq<u8>, n: nat) -> Seq<u8> {
    if n <= s.len() {
        s.skip(n as int)
    } else {
        Seq::empty()
    }
}

/// Dropping `a` bytes and then `b` is dropping `a + b`.
pub proof fn lemma_after_after(s: Seq<u8>, a: nat, b: nat)
    ensures
        after(after(s, a), b) == after(s, a + b),
{
    assert(after(after(s, a), b) =~= after(s, a + b));
}

/// The same outcome, counted from `k` bytes further back.
pub open spec fn shift<T>(r: Result<(T, nat), GobError>, k: nat) -> Result<(T, nat), GobError> {
    match r {
        Ok((v, n)) => Ok((v, n + k)),
        Err(e) => Err(e),
    }
}

/// A name and an identifier, as both a descriptor's header and a field
/// descriptor hold them.
pub ghost struct NameId {
    pub name: Seq<char>,
    pub id: i64,
}

/// Reads the rest of a (name, identifier) struct, `idx` being the index of
/// the field read last: field 0 is the name, field 1 the identifier, and a
/// zero delta ends the struct.
pub open spec fn decode_name_id_from(idx: int, acc: NameId, s: Seq<u8>) -> Result<
    (NameId, nat),
    GobError,
>
    decreases s.len(),
{
    proof {
        lemma_decode_bounds(s);
    }
    match decode_uvarint(s) {
        Err(e) => Err(e),
        Ok((delta, n)) => if delta == 0 {
            Ok((acc, n))
        } else if idx + delta == 0 {
            match decode_string(after(s, n)) {
                Err(e) => Err(e),
                Ok((name, k)) => shift(
                    decode_name_id_from(0, NameId { name, id: acc.id }, after(s, n + k)),
                    n + k,
                ),
            }
        } else if idx + delta == 1 {
            match decode_int(after(s, n)) {
                Err(e) => Err(e),
                Ok((id, k)) => shift(
                    decode_name_id_from(1, NameId { name: acc.name, id }, after(s, n + k)),
                    n + k,
                ),
            }
        } else {
            Err(GobError::InvalidData)
        },
    }
}

/// Reads a (name, identifier) struct; a field that is not sent is empty or
/// zero.
pub open spec fn decode_name_id(s: Seq<u8>) -> Result<(NameId, nat), GobError> {
    decode_name_id_from(-1, NameId { name: Seq::empty(), id: 0 }, s)
}

/// Reads `count` field descriptors, one after the other.
pub open spec fn decode_field_list(count: nat, acc: Seq<FieldTypeView>, s: Seq<u8>) -> Result<
    (Seq<FieldTypeView>, nat),
    GobError,
>
    decreases count,
{
    if count == 0 {
        Ok((acc, 0))
    } else {
        match decode_name_id(s) {
            Err(e) => Err(e),
            Ok((f, k)) => shift(
                decode_field_list(
                    (count - 1) as nat,
                    acc.push(FieldTypeView { name: f.name, id: f.id }),
                    after(s, k),
                ),
                k,
            ),
        }
    }
}

/// Reads a list of field descriptors with its count in front. A count
/// larger than the number of bytes left is refused.
pub open spec fn decode_counted_fields(s: Seq<u8>) -> Result<(Seq<FieldTypeView>, nat), GobError> {
    match decode_uvarint(s) {
        Err(e) => Err(e),
        Ok((count, m)) => if count > after(s, m).len() {
            Err(GobError::InvalidData)
        } else {
            shift(decode_field_list(count as nat, Seq::empty(), after(s, m)), m)
        },
    }
}

/// Reads the rest of a struct descriptor: field 0 is its header, field 1
/// the list of its fields.
pub open spec fn decode_struct_type_from(idx: int, acc: StructTypeView, s: Seq<u8>) -> Result<
    (StructTypeView, nat),
    GobError,
>
    decreases s.len(),
{
    proof {
        lemma_decode_bounds(s);
    }
    match decode_uvarint(s) {
        Err(e) => Err(e),
        Ok((delta, n)) => if delta == 0 {
            Ok((acc, n))
        } else if idx + delta == 0 {
            match decode_name_id(after(s, n)) {
                Err(e) => Err(e),
                Ok((c, k)) => shift(
                    decode_struct_type_from(
                        0,
                        StructTypeView {
                            common: CommonTypeView { name: c.name, id: c.id },
                            fields: acc.fields,
                        },
                        after(s, n + k),
                    ),
                    n + k,
                ),
            }
        } else if idx + delta == 1 {
            match decode_counted_fields(after(s, n)) {
                Err(e) => Err(e),
                Ok((fields, k)) => shift(
                    decode_struct_type_from(
                        1,
                        StructTypeView { common: acc.common, fields },
                        after(s, n + k),
                    ),
                    n + k,
                ),
            }
        } else {
            Err(GobError::InvalidData)
        },
    }
}

/// A struct descriptor with nothing in it.
pub open spec fn empty_struct_type() -> StructTypeView {
    StructTypeView {
        common: CommonTypeView { name: Seq::empty(), id: 0 },
        fields: Seq::empty(),
    }
}

/// Reads a struct descriptor.
pub open spec fn decode_struct_type(s: Seq<u8>) -> Result<(StructTypeView, nat), GobError> {
    decode_struct_type_from(-1, empty_struct_type(), s)
}

/// Reads the rest of a map descriptor: field 0 is its header, field 1 the
/// identifier of the key type, field 2 that of the element type.
pub open spec fn decode_map_type_from(idx: int, acc: MapTypeView, s: Seq<u8>) -> Result<
    (MapTypeView, nat),
    GobError,
>
    decreases s.len(),
{
    proof {
        lemma_decode_bounds(s);
    }
    match decode_uvarint(s) {
        Err(e) => Err(e),
        Ok((delta, n)) => if delta == 0 {
            Ok((acc, n))
        } else if idx + delta == 0 {
            match decode_name_id(after(s, n)) {
                Err(e) => Err(e),
                Ok((c, k)) => shift(
                    decode_map_type_from(
                        0,
                        MapTypeView {
                            common: CommonTypeView { name: c.name, id: c.id },
                            key: acc.key,
                            elem: acc.elem,
                        },
                        after(s, n + k),
                    ),
                    n + k,
                ),
            }
        } else if idx + delta == 1 {
            match decode_int(after(s, n)) {
                Err(e) => Err(e),
                Ok((key, k)) => shift(
                    decode_map_type_from(
                        1,
                        MapTypeView { common: acc.common, key, elem: acc.elem },
                        after(s, n + k),
                    ),
                    n + k,
                ),
            }
        } else if idx + delta == 2 {
            match decode_int(after(s, n)) {
                Err(e) => Err(e),
                Ok((elem, k)) => shift(
                    decode_map_type_from(
                        2,
                        MapTypeView { common: acc.common, key: acc.key, elem },
                        after(s, n + k),
                    ),
                    n + k,
                ),
            }
        } else {
            Err(GobError::InvalidData)
        },
    }
}

/// A map descriptor with nothing in it.
pub open spec fn empty_map_type() -> MapTypeView {
    MapTypeView { common: CommonTypeView { name: Seq::empty(), id: 0 }, key: 0, elem: 0 }
}

/// Reads a map descriptor.
pub open spec fn decode_map_type(s: Seq<u8>) -> Result<(MapTypeView, nat), GobError> {
    decode_map_type_from(-1, empty_map_type(), s)
}

/// What must follow the one descriptor of a definition: the zero delta
/// that ends it.
pub open spec fn decode_end(s: Seq<u8>) -> Result<nat, GobError> {
    match decode_uvarint(s) {
        Err(e) => Err(e),
        Ok((delta, n)) => if delta == 0 {
            Ok(n)
        } else {
            Err(GobError::InvalidData)
        },
    }
}

/// Reads a type definition: a struct with one field set, whose index says
/// what kind of type is defined. Index 2 is a struct and 3 a map; an array
/// (0), a slice (1) and the three kinds with encoders of their own (4, 5, 6)
/// are unsupported; no field at all, a second field or an index past 6 is
/// invalid.
pub open spec fn decode_wire_type(s: Seq<u8>) -> Result<(SchemaView, nat), GobError> {
    match decode_uvarint(s) {
        Err(e) => Err(e),
        Ok((delta, n)) => if delta == 0 || delta > 7 {
            Err(GobError::InvalidData)
        } else if delta == 3 {
            match decode_struct_type(after(s, n)) {
                Err(e) => Err(e),
                Ok((t, k)) => match decode_end(after(s, n + k)) {
                    Err(e) => Err(e),
                    Ok(m) => Ok((SchemaView::Struct(t), n + k + m)),
                },
            }
        } else if delta == 4 {
            match decode_map_type(after(s, n)) {
                Err(e) => Err(e),
                Ok((t, k)) => match decode_end(after(s, n + k)) {
                    Err(e) => Err(e),
                    Ok(m) => Ok((SchemaView::MapOf(t), n + k + m)),
                },
            }
        } else {
            Err(GobError::Unsupported)
        },
    }
}

/// Reads the length that a message starts with, from a source that is not
/// empty. A count byte that announces more than eight bytes is invalid; a
/// source that ends inside the length is truncated.
pub open spec fn decode_length(stream: Seq<u8>) -> Result<(u64, nat), GobError> {
    if stream.len() == 0 {
        Err(GobError::TruncatedStream)
    } else if stream[0] < 128 {
        Ok((stream[0] as u64, 1))
    } else {
        let n = (256 - stream[0]) as nat;
        if n > 8 {
            Err(GobError::InvalidData)
        } else if stream.len() < 1 + n {
            Err(GobError::TruncatedStream)
        } else {
            Ok((be_value(stream.subrange(1, 1 + n as int)) as u64, 1 + n))
        }
    }
}

/// The start of a message.
pub ghost struct Header {
    /// The type identifier: negative for a definition.
    pub id: i64,
    /// Where the body starts in the source.
    pub body: nat,
    /// Where the message ends in the source, or the source itself if that
    /// comes first.
    pub end: nat,
    /// Whether the source ends before the message does.
    pub cut: bool,
}

/// Reads the length and the identifier of a message. The identifier is the
/// first thing in the message, and is read like any part of it.
pub open spec fn decode_header(stream: Seq<u8>) -> Result<Header, GobError> {
    match decode_length(stream) {
        Err(e) => Err(e),
        Ok((len, n)) => {
            let cut = len > stream.len() - n;
            let end = if cut {
                stream.len()
            } else {
                n + len as nat
            };
            match decode_int(stream.subrange(n as int, end as int)) {
                Err(e) => Err(e),
                Ok((id, k)) => Ok(Header { id, body: n + k, end, cut }),
            }
        },
    }
}

/// What a definition message does to the registry: the schema that its body
/// describes is registered under the negation of its identifier.
pub open spec fn define(registry: RegistryView, id: i64, body: Seq<u8>) -> Result<
    RegistryView,
    GobError,
>
    recommends
        id < 0,
{
    if id == i64::MIN {
        Err(GobError::InvalidData)
    } else {
        match decode_wire_type(body) {
            Err(e) => Err(e),
            Ok((schema, _)) => register(registry, (-id) as i64, schema),
        }
    }
}

/// A value message that has been opened.
pub ghost struct Message {
    /// The identifier of the value's type.
    pub id: i64,
    /// The body of the message, as far as the source holds it.
    pub body: Seq<u8>,
    /// The source after the message.
    pub rest: Seq<u8>,
    /// Whether the source ends before the message does.
    pub cut: bool,
}

/// Where a stream stands once its next value message is opened, or its end
/// is reached.
pub ghost struct Arrival {
    /// The registry, with the definitions that were passed on the way.
    pub registry: RegistryView,
    /// The message, or `None` at the end of the source.
    pub message: Option<Message>,
}

/// Goes to the next value message: every definition message on the way is
/// registered, and the first message that is none is opened. No message
/// where the source ends at a message boundary; `TruncatedStream` where it
/// ends inside a definition.
#[verifier::opaque]
pub open spec fn next_message(registry: RegistryView, stream: Seq<u8>) -> Result<
    Arrival,
    GobError,
>
    decreases stream.len(),
{
    if stream.len() == 0 {
        Ok(Arrival { registry, message: None })
    } else {
        match decode_header(stream) {
            Err(e) => Err(e),
            Ok(h) => {
                let body = stream.subrange(h.body as int, h.end as int);
                let rest = stream.skip(h.end as int);
                if h.id >= 0 {
                    Ok(
                        Arrival {
                            registry,
                            message: Some(Message { id: h.id, body, rest, cut: h.cut }),
                        },
                    )
                } else {
                    match define(registry, h.id, body) {
                        Err(e) => Err(e),
                        Ok(defined) => if h.cut {
                            Err(GobError::TruncatedStream)
                        } else {
                            next_message(defined, rest)
                        },
                    }
                }
            },
        }
    }
}

/// A header lies within the source, and takes at least two bytes of it.
pub proof fn lemma_header_bounds(stream: Seq<u8>)
    ensures
        decode_header(stream) matches Ok(h) ==> 2 <= h.body <= h.end <= stream.len(),
{
    match decode_length(stream) {
        Ok((len, n)) => {
            let cut = len > stream.len() - n;
            let end = if cut {
                stream.len()
            } else {
                n + len as nat
            };
            lemma_decode_bounds(stream.subrange(n as int, end as int));
        },
        Err(_) => {},
    }
}

/// What reading a value yields: the value, the bytes it took, and the
/// registry afterwards (an interface value may carry a definition).
pub ghost struct ValueStep {
    pub value: ValueView,
    pub used: nat,
    pub registry: RegistryView,
}

/// The same outcome, counted from `k` bytes further back.
pub open spec fn shift_step(r: Result<ValueStep, GobError>, k: nat) -> Result<ValueStep, GobError> {
    match r {
        Ok(step) => Ok(ValueStep { value: step.value, used: step.used + k, registry: step.registry }),
        Err(e) => Err(e),
    }
}

/// A value read in `used` bytes, the registry being as it was.
pub open spec fn done(value: ValueView, used: nat, registry: RegistryView) -> Result<
    ValueStep,
    GobError,
> {
    Ok(ValueStep { value, used, registry })
}

/// Reads a value of the given schema.
///
/// A primitive is read by the bit codec. A struct is a run of (delta, field
/// value) pairs that a zero delta ends. A map is a count and that many
/// (key, element) pairs; a count larger than the number of bytes left is
/// refused. `Complex` is unsupported, and a placeholder is an unknown type.
#[verifier::opaque]
pub open spec fn decode_value(registry: RegistryView, schema: SchemaView, s: Seq<u8>) -> Result<
    ValueStep,
    GobError,
>
    decreases s.len(), 1nat, 0nat,
{
    proof {
        lemma_decode_bounds(s);
    }
    match schema {
        SchemaView::Bool => match decode_bool(s) {
            Err(e) => Err(e),
            Ok((b, n)) => done(ValueView::Bool(b), n, registry),
        },
        SchemaView::Int => match decode_int(s) {
            Err(e) => Err(e),
            Ok((i, n)) => done(ValueView::Int(i), n, registry),
        },
        SchemaView::Uint => match decode_uvarint(s) {
            Err(e) => Err(e),
            Ok((u, n)) => done(ValueView::Uint(u), n, registry),
        },
        SchemaView::Float => match decode_float(s) {
            Err(e) => Err(e),
            Ok((f, n)) => done(ValueView::Float(f), n, registry),
        },
        SchemaView::String => match decode_string(s) {
            Err(e) => Err(e),
            Ok((t, n)) => done(ValueView::String(t), n, registry),
        },
        SchemaView::ByteSlice => match decode_bytes(s) {
            Err(e) => Err(e),
            Ok((b, n)) => done(ValueView::Bytes(b), n, registry),
        },
        SchemaView::MapOf(m) => match decode_uvarint(s) {
            Err(e) => Err(e),
            Ok((count, n)) => if count > after(s, n).len() {
                Err(GobError::InvalidData)
            } else {
                shift_step(
                    decode_entries(
                        registry,
                        lookup(registry.types, m.key),
                        lookup(registry.types, m.elem),
                        count as nat,
                        Seq::empty(),
                        after(s, n),
                    ),
                    n,
                )
            },
        },
        SchemaView::Struct(t) => decode_fields(registry, t, -1, Seq::empty(), s),
        SchemaView::Interface => decode_interface(registry, s),
        SchemaView::Complex => Err(GobError::Unsupported),
        SchemaView::Custom(_) => Err(GobError::UnknownType),
    }
}

/// Reads the rest of a struct value, `idx` being the index of the field
/// read last and `acc` the fields read so far. A delta that leads past the
/// last field of the schema is invalid; a field whose type the registry does
/// not hold is of unknown type.
#[verifier::opaque]
pub open spec fn decode_fields(
    registry: RegistryView,
    t: StructTypeView,
    idx: int,
    acc: Seq<(Seq<char>, ValueView)>,
    s: Seq<u8>,
) -> Result<ValueStep, GobError>
    decreases s.len(), 0nat, 0nat,
{
    proof {
        lemma_decode_bounds(s);
    }
    match decode_uvarint(s) {
        Err(e) => Err(e),
        Ok((delta, n)) => if delta == 0 {
            Ok(ValueStep { value: ValueView::Struct(t.common.name, acc), used: n, registry })
        } else if idx + delta >= t.fields.len() {
            Err(GobError::InvalidData)
        } else {
            let f = t.fields[idx + delta];
            if !registry.types.contains_key(f.id) {
                Err(GobError::UnknownType)
            } else {
                match decode_value(registry, registry.types[f.id], after(s, n)) {
                    Err(e) => Err(e),
                    Ok(step) => shift_step(
                        decode_fields(
                            step.registry,
                            t,
                            idx + delta,
                            named_put(acc, f.name, step.value),
                            after(s, n + step.used),
                        ),
                        n + step.used,
                    ),
                }
            }
        },
    }
}

/// Reads `count` (key, element) pairs of a map value, `acc` being the
/// entries read so far.
#[verifier::opaque]
pub open spec fn decode_entries(
    registry: RegistryView,
    key: SchemaView,
    elem: SchemaView,
    count: nat,
    acc: Seq<(ValueView, ValueView)>,
    s: Seq<u8>,
) -> Result<ValueStep, GobError>
    decreases s.len(), 2nat, count,
{
    if count == 0 {
        Ok(ValueStep { value: ValueView::Dict(acc), used: 0, registry })
    } else {
        match decode_value(registry, key, s) {
            Err(e) => Err(e),
            Ok(k) => match decode_value(k.registry, elem, after(s, k.used)) {
                Err(e) => Err(e),
                Ok(v) => shift_step(
                    decode_entries(
                        v.registry,
                        key,
                        elem,
                        (count - 1) as nat,
                        dict_put(acc, k.value, v.value),
                        after(s, k.used + v.used),
                    ),
                    k.used + v.used,
                ),
            },
        }
    }
}

/// What an interface value says of its concrete type: the registry after a
/// definition that it may carry, the identifier of the type, and the bytes
/// this took.
pub ghost struct Concrete {
    pub registry: RegistryView,
    pub id: i64,
    pub used: nat,
}

/// Reads the type identifier of an interface value. A negative one is
/// followed by the definition of the type, which is registered under the
/// identifier's negation.
pub open spec fn decode_concrete(registry: RegistryView, s: Seq<u8>) -> Result<Concrete, GobError> {
    match decode_int(s) {
        Err(e) => Err(e),
        Ok((id, n)) => if id >= 0 {
            Ok(Concrete { registry, id, used: n })
        } else if id == i64::MIN {
            Err(GobError::InvalidData)
        } else {
            match decode_wire_type(after(s, n)) {
                Err(e) => Err(e),
                Ok((schema, k)) => match register(registry, (-id) as i64, schema) {
                    Err(e) => Err(e),
                    Ok(after_def) => Ok(
                        Concrete { registry: after_def, id: (-id) as i64, used: n + k },
                    ),
                },
            }
        },
    }
}

/// Reads an interface value: the name of its concrete type, empty for nil;
/// the type's identifier, with its definition where the identifier is
/// negative; the length of what follows; a zero byte that may precede the
/// value; and the value itself, by the schema of its type.
#[verifier::opaque]
pub open spec fn decode_interface(registry: RegistryView, s: Seq<u8>) -> Result<ValueStep, GobError>
    decreases s.len(), 0nat, 0nat,
{
    proof {
        lemma_decode_bounds(s);
    }
    match decode_string(s) {
        Err(e) => Err(e),
        Ok((name, n)) => if name.len() == 0 {
            Ok(ValueStep { value: ValueView::Nil, used: n, registry })
        } else {
            match decode_concrete(registry, after(s, n)) {
                Err(e) => Err(e),
                Ok(c) => match decode_uvarint(after(s, n + c.used)) {
                    Err(e) => Err(e),
                    Ok((len, m)) => {
                        let p = n + c.used + m;
                        if after(s, p).len() == 0 {
                            Err(GobError::TruncatedMessage)
                        } else {
                            let q = if after(s, p)[0] == 0 {
                                p + 1
                            } else {
                                p
                            };
                            if !c.registry.types.contains_key(c.id) {
                                Err(GobError::UnknownType)
                            } else {
                                shift_step(
                                    decode_value(c.registry, c.registry.types[c.id], after(s, q)),
                                    q,
                                )
                            }
                        }
                    },
                },
            }
        },
    }
}

/// Where a message is arrived at, what follows it is shorter than the
/// stream.
pub proof fn lemma_next_message_rest(registry: RegistryView, stream: Seq<u8>)
    ensures
        next_message(registry, stream) matches Ok(a) ==> (a.message matches Some(m)
            ==> m.rest.len() < stream.len()),
    decreases stream.len(),
{
    reveal(next_message);
    if stream.len() > 0 {
        lemma_header_bounds(stream);
        match decode_header(stream) {
            Ok(h) => {
                if h.id < 0 && !h.cut {
                    match define(registry, h.id, stream.subrange(h.body as int, h.end as int)) {
                        Ok(defined) => {
                            lemma_next_message_rest(defined, stream.skip(h.end as int));
                        },
                        Err(_) => {},
                    }
                }
            },
            Err(_) => {},
        }
    }
}

/// What reading the next value of a stream yields.
pub ghost struct Delivery {
    /// The value, or `None` at the end of the source.
    pub value: Option<ValueView>,
    /// The source after the value's message.
    pub rest: Seq<u8>,
    /// The registry afterwards.
    pub registry: RegistryView,
}

/// Reads the next value of a stream: the definitions in front of it are
/// registered, its message is opened, the value is read by the schema of the
/// message's identifier, and what is left of the message is passed over.
/// No value where the source ends at a message boundary.
pub open spec fn next_value(registry: RegistryView, stream: Seq<u8>) -> Result<Delivery, GobError> {
    match next_message(registry, stream) {
        Err(e) => Err(e),
        Ok(a) => match a.message {
            None => Ok(Delivery { value: None, rest: Seq::empty(), registry: a.registry }),
            Some(m) => if !a.registry.types.contains_key(m.id) {
                Err(GobError::UnknownType)
            } else {
                match decode_value(a.registry, a.registry.types[m.id], m.body) {
                    Err(e) => Err(e),
                    Ok(step) => if m.cut {
                        Err(GobError::TruncatedStream)
                    } else {
                        Ok(
                            Delivery {
                                value: Some(step.value),
                                rest: m.rest,
                                registry: step.registry,
                            },
                        )
                    },
                }
            },
        },
    }
}

/// Reads every value of a stream, adding them to `acc`: the values in
/// order, and the registry at the end.
pub open spec fn read_all(registry: RegistryView, stream: Seq<u8>, acc: Seq<ValueView>) -> Result<
    (Seq<ValueView>, RegistryView),
    GobError,
>
    decreases stream.len(),
{
    match next_value(registry, stream) {
        Err(e) => Err(e),
        Ok(d) => match d.value {
            None => Ok((acc, d.registry)),
            Some(v) => {
                proof {
                    lemma_next_message_rest(registry, stream);
                }
                read_all(d.registry, d.rest, acc.push(v))
            },
        },
    }
}

/// One step of [`decode_fields`], spelled out.
pub proof fn lemma_decode_fields_step(
    registry: RegistryView,
    t: StructTypeView,
    idx: int,
    acc: Seq<(Seq<char>, ValueView)>,
    s: Seq<u8>,
)
    ensures
        decode_fields(registry, t, idx, acc, s) == match decode_uvarint(s) {
            Err(e) => Err::<ValueStep, GobError>(e),
            Ok((delta, n)) => if delta == 0 {
                Ok(ValueStep { value: ValueView::Struct(t.common.name, acc), used: n, registry })
            } else if idx + delta >= t.fields.len() {
                Err(GobError::InvalidData)
            } else {
                let f = t.fields[idx + delta];
                if !registry.types.contains_key(f.id) {
                    Err(GobError::UnknownType)
                } else {
                    match decode_value(registry, registry.types[f.id], after(s, n)) {
                        Err(e) => Err(e),
                        Ok(step) => shift_step(
                            decode_fields(
                                step.registry,
                                t,
                                idx + delta,
                                named_put(acc, f.name, step.value),
                                after(s, n + step.used),
                            ),
                            n + step.used,
                        ),
                    }
                }
            },
        },
{
    reveal(decode_fields);
    reveal(decode_value);
}

/// One step of [`decode_entries`], spelled out.
pub proof fn lemma_decode_entries_step(
    registry: RegistryView,
    key: SchemaView,
    elem: SchemaView,
    count: nat,
    acc: Seq<(ValueView, ValueView)>,
    s: Seq<u8>,
)
    ensures
        decode_entries(registry, key, elem, count, acc, s) == if count == 0 {
            Ok::<ValueStep, GobError>(ValueStep { value: ValueView::Dict(acc), used: 0, registry })
        } else {
            match decode_value(registry, key, s) {
                Err(e) => Err(e),
                Ok(k) => match decode_value(k.registry, elem, after(s, k.used)) {
                    Err(e) => Err(e),
                    Ok(v) => shift_step(
                        decode_entries(
                            v.registry,
                            key,
                            elem,
                            (count - 1) as nat,
                            dict_put(acc, k.value, v.value),
                            after(s, k.used + v.used),
                        ),
                        k.used + v.used,
                    ),
                },
            }
        },
{
    reveal(decode_entries);
    reveal(decode_value);
}

/// A value of interface type is read as an interface value.
pub proof fn lemma_decode_value_interface(registry: RegistryView, s: Seq<u8>)
    ensures
        decode_value(registry, SchemaView::Interface, s) == decode_interface(registry, s),
{
    reveal(decode_value);
    reveal(decode_interface);
}

/// [`decode_interface`], spelled out.
pub proof fn lemma_decode_interface_step(registry: RegistryView, s: Seq<u8>)
    ensures
        decode_interface(registry, s) == match decode_string(s) {
            Err(e) => Err::<ValueStep, GobError>(e),
            Ok((name, n)) => if name.len() == 0 {
                Ok(ValueStep { value: ValueView::Nil, used: n, registry })
            } else {
                match decode_concrete(registry, after(s, n)) {
                    Err(e) => Err(e),
                    Ok(c) => match decode_uvarint(after(s, n + c.used)) {
                        Err(e) => Err(e),
                        Ok((len, m)) => {
                            let p = n + c.used + m;
                            if after(s, p).len() == 0 {
                                Err(GobError::TruncatedMessage)
                            } else {
                                let q = if after(s, p)[0] == 0 {
                                    p + 1
                                } else {
                                    p
                                };
                                if !c.registry.types.contains_key(c.id) {
                                    Err(GobError::UnknownType)
                                } else {
                                    shift_step(
                                        decode_value(
                                            c.registry,
                                            c.registry.types[c.id],
                                            after(s, q),
                                        ),
                                        q,
                                    )
                                }
                            }
                        },
                    },
                }
            },
        },
{
    reveal(decode_value);
    reveal(decode_interface);
}

} // verus!
