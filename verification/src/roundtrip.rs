//! Reading back what was written: descriptors, messages and values.

use crate::error::GobError;
use crate::grammar::{
    after, decode_counted_fields, decode_field_list, decode_header, decode_length, decode_map_type,
    decode_map_type_from, decode_name_id, decode_name_id_from, decode_struct_type,
    decode_struct_type_from, decode_wire_type, empty_map_type, empty_struct_type, shift, Header,
    NameId,
};
use crate::grammar::{
    decode_concrete, decode_entries, decode_fields, decode_interface, decode_value, define,
    lemma_decode_entries_step, lemma_decode_interface_step, lemma_decode_value_interface,
    lemma_header_bounds, next_message, next_value, shift_step, Arrival, Concrete, Delivery,
    Message, ValueStep,
};
use crate::layout::{
    dict_name, dict_type, encode_field_list, encode_map_type, encode_name_id, encode_struct_type,
    encode_wire_type, ensure_defined, ensure_entries, ensure_fields, ensure_sent, field_types,
    concrete_name, encode_body, encode_entries, encode_fields, encode_interface, encode_value,
    find_sent, frame, guarded, lemma_encode_entries_step, lemma_encode_fields_step,
    lemma_encode_interface_step, lemma_ensure_entries_step, lemma_ensure_fields_step,
    lemma_field_types_step, message, payload, same_shape, schema_id, type_id, with_id, WriterView,
};
use crate::value::{
    bytes_lt_from, dict_put, dict_slot, entries_lt, fields_lt, items_lt, named_put, named_slot,
    str_lt, value_lt, ValueView,
};
use crate::schema::{predeclared, register, RegistryView, SchemaView};
use crate::types::{CommonTypeView, FieldTypeView, MapTypeView, StructTypeView};
use crate::wire::{
    decode_int, decode_string, decode_uvarint, encode_int, encode_string, encode_uvarint,
    lemma_bool_roundtrip, lemma_bytes_roundtrip, law_uvarint_len, lemma_float_roundtrip,
    lemma_int_roundtrip, lemma_string_roundtrip, lemma_uvarint_roundtrip, swap_bytes, zigzag,
};
use crate::order::{lemma_bytes_lt_irreflexive, law_value_lt_irreflexive};
use vstd::prelude::*;

verus! {

/// What follows a piece of a byte string is what is left when the piece is
/// dropped.
pub proof fn lemma_after_piece(piece: Seq<u8>, rest: Seq<u8>)
    ensures
        after(piece + rest, piece.len()) == rest,
{
    assert(after(piece + rest, piece.len()) =~= rest);
}

/// Whether a text can go on the wire: its UTF-8 form is short enough for
/// its length to be said.
pub open spec fn sayable(text: Seq<char>) -> bool {
    vstd::utf8::encode_utf8(text).len() <= u64::MAX
}

/// A (name, identifier) struct is read back as it was written.
pub proof fn lemma_name_id_roundtrip(name: Seq<char>, id: i64, tail: Seq<u8>)
    requires
        sayable(name),
    ensures
        decode_name_id(encode_name_id(name, id) + tail) == Ok::<(NameId, nat), GobError>(
            (NameId { name, id }, encode_name_id(name, id).len()),
        ),
{
    let one = encode_uvarint(1);
    let zero = encode_uvarint(0);
    let t3 = zero + tail;
    let t2 = encode_int(id) + t3;
    let t1 = one + t2;
    let t0 = encode_string(name) + t1;
    let s = one + t0;
    assert(s =~= encode_name_id(name, id) + tail);
    // the delta in front of the name
    lemma_uvarint_roundtrip(1, t0);
    lemma_after_piece(one, t0);
    // the name
    lemma_string_roundtrip(name, t1);
    lemma_after_piece(encode_string(name), t1);
    let n1 = one.len() + encode_string(name).len();
    assert(after(s, n1) =~= t1);
    // the delta in front of the identifier
    lemma_uvarint_roundtrip(1, t2);
    lemma_after_piece(one, t2);
    // the identifier
    lemma_int_roundtrip(id, t3);
    lemma_after_piece(encode_int(id), t3);
    let n2 = one.len() + encode_int(id).len();
    assert(after(t1, n2) =~= t3);
    // the end
    lemma_uvarint_roundtrip(0, tail);
    let acc1 = NameId { name, id: 0 };
    let acc2 = NameId { name, id };
    assert(decode_name_id_from(1, acc2, t3) == Ok::<(NameId, nat), GobError>((acc2, zero.len())));
    assert(decode_name_id_from(0, acc1, t1) == Ok::<(NameId, nat), GobError>(
        (acc2, zero.len() + n2),
    ));
    assert(decode_name_id_from(-1, NameId { name: Seq::empty(), id: 0 }, s) == Ok::<
        (NameId, nat),
        GobError,
    >((acc2, zero.len() + n2 + n1)));
}

/// A (name, identifier) struct takes at least five bytes.
pub proof fn lemma_name_id_len(name: Seq<char>, id: i64)
    ensures
        encode_name_id(name, id).len() >= 5,
{
    law_uvarint_len(1);
    law_uvarint_len(0);
    law_uvarint_len(zigzag(id));
    law_uvarint_len(vstd::utf8::encode_utf8(name).len() as u64);
}

/// Whether the names of a list of fields can all go on the wire.
pub open spec fn sayable_fields(fields: Seq<FieldTypeView>) -> bool {
    forall|i: int| 0 <= i < fields.len() ==> sayable((#[trigger] fields[i]).name)
}

/// A list of field descriptors takes at least five bytes for each field.
pub proof fn lemma_field_list_len(fields: Seq<FieldTypeView>)
    ensures
        encode_field_list(fields).len() >= 5 * fields.len(),
    decreases fields.len(),
{
    if fields.len() > 0 {
        lemma_name_id_len(fields[0].name, fields[0].id);
        lemma_field_list_len(fields.drop_first());
    }
}

/// A list of field descriptors is read back as it was written.
pub proof fn lemma_field_list_roundtrip(
    fields: Seq<FieldTypeView>,
    acc: Seq<FieldTypeView>,
    tail: Seq<u8>,
)
    requires
        sayable_fields(fields),
    ensures
        decode_field_list(fields.len(), acc, encode_field_list(fields) + tail) == Ok::<
            (Seq<FieldTypeView>, nat),
            GobError,
        >((acc + fields, encode_field_list(fields).len())),
    decreases fields.len(),
{
    if fields.len() == 0 {
        assert(acc + fields =~= acc);
        assert(encode_field_list(fields) + tail =~= tail);
        assert(decode_field_list(0, acc, tail) == Ok::<(Seq<FieldTypeView>, nat), GobError>(
            (acc, 0),
        ));
    } else {
        let f = fields[0];
        let rest = fields.drop_first();
        let head = encode_name_id(f.name, f.id);
        let t = encode_field_list(rest) + tail;
        assert(encode_field_list(fields) + tail =~= head + t);
        assert(sayable(f.name));
        lemma_name_id_roundtrip(f.name, f.id, t);
        lemma_after_piece(head, t);
        assert(sayable_fields(rest)) by {
            assert forall|i: int| 0 <= i < rest.len() implies sayable((#[trigger] rest[i]).name) by {
                assert(rest[i] == fields[i + 1]);
            }
        }
        lemma_field_list_roundtrip(rest, acc.push(f), tail);
        assert(acc.push(f) + rest =~= acc + fields);
        assert(acc.push(FieldTypeView { name: f.name, id: f.id }) == acc.push(f));
        let s = encode_field_list(fields) + tail;
        assert(s == head + t);
        assert(decode_name_id(s) == Ok::<(NameId, nat), GobError>(
            (NameId { name: f.name, id: f.id }, head.len()),
        ));
        assert(after(s, head.len()) == t);
        assert(encode_field_list(fields) =~= head + encode_field_list(rest));
        assert(decode_field_list(fields.len(), acc, s) == shift(
            decode_field_list((fields.len() - 1) as nat, acc.push(f), t),
            head.len(),
        ));

    }
}

/// Whether a composite schema can go on the wire: it is a struct or a map,
/// its names are short enough, and its fields few enough, for their lengths
/// and their count to be said.
pub open spec fn sayable_schema(schema: SchemaView) -> bool {
    match schema {
        SchemaView::Struct(t) => sayable(t.common.name) && sayable_fields(t.fields)
            && t.fields.len() <= u64::MAX,
        SchemaView::MapOf(m) => sayable(m.common.name),
        _ => false,
    }
}

/// A counted list of field descriptors is read back as it was written.
pub proof fn lemma_counted_fields_roundtrip(fields: Seq<FieldTypeView>, tail: Seq<u8>)
    requires
        sayable_fields(fields),
        fields.len() <= u64::MAX,
    ensures
        decode_counted_fields(
            encode_uvarint(fields.len() as u64) + encode_field_list(fields) + tail,
        ) == Ok::<(Seq<FieldTypeView>, nat), GobError>(
            (fields, encode_uvarint(fields.len() as u64).len() + encode_field_list(fields).len()),
        ),
{
    let count = encode_uvarint(fields.len() as u64);
    let t = encode_field_list(fields) + tail;
    assert(count + encode_field_list(fields) + tail =~= count + t);
    lemma_uvarint_roundtrip(fields.len() as u64, t);
    lemma_after_piece(count, t);
    lemma_field_list_len(fields);
    lemma_field_list_roundtrip(fields, Seq::empty(), tail);
    assert(Seq::<FieldTypeView>::empty() + fields =~= fields);
}

/// A struct descriptor is read back as it was written.
pub proof fn lemma_struct_type_roundtrip(t: StructTypeView, tail: Seq<u8>)
    requires
        sayable_schema(SchemaView::Struct(t)),
    ensures
        decode_struct_type(encode_struct_type(t) + tail) == Ok::<(StructTypeView, nat), GobError>(
            (t, encode_struct_type(t).len()),
        ),
{
    let one = encode_uvarint(1);
    let zero = encode_uvarint(0);
    let header = encode_name_id(t.common.name, t.common.id);
    let list = encode_uvarint(t.fields.len() as u64) + encode_field_list(t.fields);
    let t3 = zero + tail;
    let t2 = list + t3;
    let t1 = one + t2;
    let t0 = header + t1;
    let s = one + t0;
    assert(s =~= encode_struct_type(t) + tail);
    lemma_uvarint_roundtrip(1, t0);
    lemma_after_piece(one, t0);
    lemma_name_id_roundtrip(t.common.name, t.common.id, t1);
    lemma_after_piece(header, t1);
    let n1 = one.len() + header.len();
    assert(after(s, n1) =~= t1);
    lemma_uvarint_roundtrip(1, t2);
    lemma_after_piece(one, t2);
    lemma_counted_fields_roundtrip(t.fields, t3);
    assert(list + t3 =~= encode_uvarint(t.fields.len() as u64) + encode_field_list(t.fields) + t3);
    lemma_after_piece(list, t3);
    let n2 = one.len() + list.len();
    assert(after(t1, n2) =~= t3);
    lemma_uvarint_roundtrip(0, tail);
    let acc1 = StructTypeView { common: t.common, fields: Seq::empty() };
    assert(acc1 == (StructTypeView {
        common: CommonTypeView { name: t.common.name, id: t.common.id },
        fields: empty_struct_type().fields,
    }));
    assert(t == (StructTypeView { common: acc1.common, fields: t.fields }));
    assert(decode_struct_type_from(1, t, t3) == Ok::<(StructTypeView, nat), GobError>(
        (t, zero.len()),
    ));
    assert(decode_struct_type_from(0, acc1, t1) == Ok::<(StructTypeView, nat), GobError>(
        (t, zero.len() + n2),
    ));
    assert(decode_struct_type_from(-1, empty_struct_type(), s) == Ok::<
        (StructTypeView, nat),
        GobError,
    >((t, zero.len() + n2 + n1)));
}

/// A map descriptor is read back as it was written.
pub proof fn lemma_map_type_roundtrip(m: MapTypeView, tail: Seq<u8>)
    requires
        sayable(m.common.name),
    ensures
        decode_map_type(encode_map_type(m) + tail) == Ok::<(MapTypeView, nat), GobError>(
            (m, encode_map_type(m).len()),
        ),
{
    let one = encode_uvarint(1);
    let zero = encode_uvarint(0);
    let header = encode_name_id(m.common.name, m.common.id);
    let t5 = zero + tail;
    let t4 = encode_int(m.elem) + t5;
    let t3 = one + t4;
    let t2 = encode_int(m.key) + t3;
    let t1 = one + t2;
    let t0 = header + t1;
    let s = one + t0;
    assert(s =~= encode_map_type(m) + tail);
    lemma_uvarint_roundtrip(1, t0);
    lemma_after_piece(one, t0);
    lemma_name_id_roundtrip(m.common.name, m.common.id, t1);
    lemma_after_piece(header, t1);
    let n1 = one.len() + header.len();
    assert(after(s, n1) =~= t1);
    lemma_uvarint_roundtrip(1, t2);
    lemma_after_piece(one, t2);
    lemma_int_roundtrip(m.key, t3);
    lemma_after_piece(encode_int(m.key), t3);
    let n2 = one.len() + encode_int(m.key).len();
    assert(after(t1, n2) =~= t3);
    lemma_uvarint_roundtrip(1, t4);
    lemma_after_piece(one, t4);
    lemma_int_roundtrip(m.elem, t5);
    lemma_after_piece(encode_int(m.elem), t5);
    let n3 = one.len() + encode_int(m.elem).len();
    assert(after(t3, n3) =~= t5);
    lemma_uvarint_roundtrip(0, tail);
    let acc1 = MapTypeView { common: m.common, key: 0, elem: 0 };
    let acc2 = MapTypeView { common: m.common, key: m.key, elem: 0 };
    assert(acc1 == (MapTypeView {
        common: CommonTypeView { name: m.common.name, id: m.common.id },
        key: empty_map_type().key,
        elem: empty_map_type().elem,
    }));
    assert(decode_map_type_from(2, m, t5) == Ok::<(MapTypeView, nat), GobError>((m, zero.len())));
    assert(decode_map_type_from(1, acc2, t3) == Ok::<(MapTypeView, nat), GobError>(
        (m, zero.len() + n3),
    ));
    assert(decode_map_type_from(0, acc1, t1) == Ok::<(MapTypeView, nat), GobError>(
        (m, zero.len() + n3 + n2),
    ));
    assert(decode_map_type_from(-1, empty_map_type(), s) == Ok::<(MapTypeView, nat), GobError>(
        (m, zero.len() + n3 + n2 + n1),
    ));
}

/// The body of a definition is read back as the schema that was written.
pub proof fn lemma_wire_type_roundtrip(schema: SchemaView, tail: Seq<u8>)
    requires
        sayable_schema(schema),
    ensures
        decode_wire_type(encode_wire_type(schema) + tail) == Ok::<(SchemaView, nat), GobError>(
            (schema, encode_wire_type(schema).len()),
        ),
{
    let zero = encode_uvarint(0);
    let t1 = zero + tail;
    lemma_uvarint_roundtrip(0, tail);
    match schema {
        SchemaView::Struct(t) => {
            let kind = encode_uvarint(3);
            let t0 = encode_struct_type(t) + t1;
            assert(encode_wire_type(schema) + tail =~= kind + t0);
            lemma_uvarint_roundtrip(3, t0);
            lemma_after_piece(kind, t0);
            lemma_struct_type_roundtrip(t, t1);
            lemma_after_piece(encode_struct_type(t), t1);
            assert(after(kind + t0, kind.len() + encode_struct_type(t).len()) =~= t1);
        },
        SchemaView::MapOf(m) => {
            let kind = encode_uvarint(4);
            let t0 = encode_map_type(m) + t1;
            assert(encode_wire_type(schema) + tail =~= kind + t0);
            lemma_uvarint_roundtrip(4, t0);
            lemma_after_piece(kind, t0);
            lemma_map_type_roundtrip(m, t1);
            lemma_after_piece(encode_map_type(m), t1);
            assert(after(kind + t0, kind.len() + encode_map_type(m).len()) =~= t1);
        },
        _ => {},
    }
}

/// The header of a message is read back as it was written: the message is
/// whole, and its body starts after the length and the identifier.
pub proof fn lemma_frame_header(id: i64, body: Seq<u8>, tail: Seq<u8>)
    requires
        message(id, body) is Some,
    ensures
        decode_header(frame(id, body) + tail) == Ok::<Header, GobError>(
            Header {
                id,
                body: (frame(id, body).len() - body.len()) as nat,
                end: frame(id, body).len(),
                cut: false,
            },
        ),
        frame(id, body).len() >= body.len() + 2,
        (frame(id, body) + tail).subrange(
            frame(id, body).len() - body.len(),
            frame(id, body).len() as int,
        ) == body,
        (frame(id, body) + tail).skip(frame(id, body).len() as int) == tail,
{
    reveal(decode_uvarint);
    let total = (encode_int(id).len() + body.len()) as u64;
    let len = encode_uvarint(total);
    let inner = encode_int(id) + body;
    let s = frame(id, body) + tail;
    assert(s =~= len + (inner + tail));
    lemma_uvarint_roundtrip(total, inner + tail);
    assert(decode_length(s) == decode_uvarint(s));
    let n = len.len();
    law_uvarint_len(total);
    law_uvarint_len(zigzag(id));
    assert(s.subrange(n as int, n + total) =~= inner);
    lemma_int_roundtrip(id, body);
    assert(s.subrange(frame(id, body).len() - body.len(), frame(id, body).len() as int) =~= body);
    assert(s.skip(frame(id, body).len() as int) =~= tail);
}

/// The types that a reader knows once it has read the definitions of
/// `sent`: the predeclared ones and those.
pub open spec fn known(sent: Seq<SchemaView>) -> Map<i64, SchemaView>
    decreases sent.len(),
{
    if sent.len() == 0 {
        predeclared()
    } else {
        known(sent.drop_last()).insert(schema_id(sent.last()), sent.last())
    }
}

/// The registry of a reader that has read all that a writer has written,
/// and nothing else.
pub open spec fn reader_of(w: WriterView) -> RegistryView {
    RegistryView { types: known(w.sent), limit: None }
}

/// Whether a writer's table is in order: every type in it is a struct or a
/// map that can go on the wire, with an identifier of its own between 65
/// and the next one to be given.
pub open spec fn orderly(w: WriterView) -> bool {
    &&& 65 <= w.next_id
    &&& forall|i: int|
        0 <= i < w.sent.len() ==> sayable_schema(#[trigger] w.sent[i]) && 65 <= schema_id(
            w.sent[i],
        ) < w.next_id
    &&& forall|i: int, j: int|
        0 <= i < j < w.sent.len() ==> schema_id(#[trigger] w.sent[i]) != schema_id(
            #[trigger] w.sent[j],
        )
}

/// A reader knows an identifier if it is predeclared or was sent.
pub proof fn lemma_known_keys(sent: Seq<SchemaView>, id: i64)
    ensures
        known(sent).contains_key(id) <==> (1 <= id <= 8 || exists|k: int|
            0 <= k < sent.len() && schema_id(#[trigger] sent[k]) == id),
    decreases sent.len(),
{
    if sent.len() > 0 {
        let front = sent.drop_last();
        lemma_known_keys(front, id);
        if exists|k: int| 0 <= k < front.len() && schema_id(#[trigger] front[k]) == id {
            let k = choose|k: int| 0 <= k < front.len() && schema_id(#[trigger] front[k]) == id;
            assert(sent[k] == front[k]);
        }
        if exists|k: int| 0 <= k < sent.len() && schema_id(#[trigger] sent[k]) == id {
            let k = choose|k: int| 0 <= k < sent.len() && schema_id(#[trigger] sent[k]) == id;
            if k < front.len() {
                assert(front[k] == sent[k]);
            }
        }
    }
}

/// A reader knows the predeclared types as they are, whatever was sent in
/// order.
pub proof fn lemma_known_predeclared(w: WriterView, id: i64)
    requires
        orderly(w),
        1 <= id <= 8,
    ensures
        known(w.sent).contains_key(id),
        known(w.sent)[id] == predeclared()[id],
    decreases w.sent.len(),
{
    if w.sent.len() > 0 {
        let front = WriterView { sent: w.sent.drop_last(), ..w };
        assert forall|i: int| 0 <= i < front.sent.len() implies sayable_schema(
            #[trigger] front.sent[i],
        ) && 65 <= schema_id(front.sent[i]) < front.next_id by {
            assert(front.sent[i] == w.sent[i]);
        }
        assert forall|i: int, j: int| 0 <= i < j < front.sent.len() implies schema_id(
            #[trigger] front.sent[i],
        ) != schema_id(#[trigger] front.sent[j]) by {
            assert(front.sent[i] == w.sent[i]);
            assert(front.sent[j] == w.sent[j]);
        }
        lemma_known_predeclared(front, id);
        assert(schema_id(w.sent[w.sent.len() - 1]) >= 65);
    }
}

/// A reader knows each type that was sent in order as it was sent.
pub proof fn lemma_known_sent(w: WriterView, k: int)
    requires
        orderly(w),
        0 <= k < w.sent.len(),
    ensures
        known(w.sent).contains_key(schema_id(w.sent[k])),
        known(w.sent)[schema_id(w.sent[k])] == w.sent[k],
    decreases w.sent.len(),
{
    let last = w.sent.len() - 1;
    if k < last {
        let front = WriterView { sent: w.sent.drop_last(), ..w };
        assert forall|i: int| 0 <= i < front.sent.len() implies sayable_schema(
            #[trigger] front.sent[i],
        ) && 65 <= schema_id(front.sent[i]) < front.next_id by {
            assert(front.sent[i] == w.sent[i]);
        }
        assert forall|i: int, j: int| 0 <= i < j < front.sent.len() implies schema_id(
            #[trigger] front.sent[i],
        ) != schema_id(#[trigger] front.sent[j]) by {
            assert(front.sent[i] == w.sent[i]);
            assert(front.sent[j] == w.sent[j]);
        }
        lemma_known_sent(front, k);
        assert(front.sent[k] == w.sent[k]);
        assert(schema_id(w.sent[k]) != schema_id(w.sent[last]));
    }
}

/// Where a type of some shape is found in a table, it stands at an index
/// from which its identifier was taken.
pub proof fn lemma_find_sent_some(sent: Seq<SchemaView>, shape: SchemaView, from: int)
    requires
        0 <= from,
    ensures
        find_sent(sent, shape, from) matches Some(id) ==> exists|k: int|
            from <= k < sent.len() && same_shape(#[trigger] sent[k], shape) && schema_id(sent[k])
                == id,
    decreases sent.len() - from,
{
    if from < sent.len() {
        if !same_shape(sent[from], shape) {
            lemma_find_sent_some(sent, shape, from + 1);
        }
    }
}

/// What is found in a table is found in a longer one.
pub proof fn lemma_find_sent_longer(
    sent: Seq<SchemaView>,
    longer: Seq<SchemaView>,
    shape: SchemaView,
    from: int,
)
    requires
        0 <= from,
        sent.len() <= longer.len(),
        longer.subrange(0, sent.len() as int) == sent,
        find_sent(sent, shape, from) is Some,
    ensures
        find_sent(longer, shape, from) == find_sent(sent, shape, from),
    decreases sent.len() - from,
{
    if from < sent.len() {
        assert(longer[from] == longer.subrange(0, sent.len() as int)[from]);
        if !same_shape(sent[from], shape) {
            lemma_find_sent_longer(sent, longer, shape, from + 1);
        }
    }
}

/// A type that is added at the end of a table in which none of its shape
/// was found is found there.
pub proof fn lemma_find_sent_added(sent: Seq<SchemaView>, shape: SchemaView, named: SchemaView, from: int)
    requires
        0 <= from <= sent.len(),
        find_sent(sent, shape, from) is None,
        same_shape(named, shape),
    ensures
        find_sent(sent.push(named), shape, from) == Some(schema_id(named)),
    decreases sent.len() - from,
{
    if from < sent.len() {
        assert(sent.push(named)[from] == sent[from]);
        lemma_find_sent_added(sent, shape, named, from + 1);
    }
}

/// What the definitions that a writer wrote between two of its states do
/// to a reader: read in front of `rest`, they lead on to what `rest` leads
/// to, with the later table known.
pub open spec fn defined(w: WriterView, w1: WriterView, rest: Seq<u8>) -> bool {
    &&& orderly(w1)
    &&& w.sent.len() <= w1.sent.len()
    &&& w1.sent.subrange(0, w.sent.len() as int) == w.sent
    &&& w.out.len() <= w1.out.len()
    &&& w1.out.subrange(0, w.out.len() as int) == w.out
    &&& next_message(reader_of(w), w1.out.skip(w.out.len() as int) + rest) == next_message(
        reader_of(w1),
        rest,
    )
}

/// Nothing written defines nothing.
pub proof fn lemma_defined_refl(w: WriterView, rest: Seq<u8>)
    requires
        orderly(w),
    ensures
        defined(w, w, rest),
{
    assert(w.sent.subrange(0, w.sent.len() as int) =~= w.sent);
    assert(w.out.subrange(0, w.out.len() as int) =~= w.out);
    assert(w.out.skip(w.out.len() as int) + rest =~= rest);
}

/// Definitions written one after the other are read one after the other.
pub proof fn lemma_defined_trans(w: WriterView, w1: WriterView, w2: WriterView, rest: Seq<u8>)
    requires
        defined(w, w1, w2.out.skip(w1.out.len() as int) + rest),
        defined(w1, w2, rest),
    ensures
        defined(w, w2, rest),
{
    assert(w2.sent.subrange(0, w.sent.len() as int) =~= w1.sent.subrange(0, w.sent.len() as int));
    assert(w2.out.subrange(0, w.out.len() as int) =~= w1.out.subrange(0, w.out.len() as int));
    assert(w2.out.skip(w.out.len() as int) + rest =~= w1.out.skip(w.out.len() as int) + (
    w2.out.skip(w1.out.len() as int) + rest));
}

/// Making sure that a type is sent keeps the table in order, and what it
/// writes is read as the definition of that type.
pub proof fn lemma_ensure_sent(w: WriterView, shape: SchemaView, rest: Seq<u8>)
    requires
        orderly(w),
        sayable_schema(shape),
        ensure_sent(w, shape) is Ok,
    ensures
        defined(w, ensure_sent(w, shape)->Ok_0.1, rest),
        find_sent(ensure_sent(w, shape)->Ok_0.1.sent, shape, 0) == Some(
            ensure_sent(w, shape)->Ok_0.0,
        ),
{
    let (id, w1) = ensure_sent(w, shape)->Ok_0;
    if find_sent(w.sent, shape, 0) is Some {
        lemma_defined_refl(w, rest);
    } else {
        let named = with_id(shape, id);
        let body = encode_wire_type(named);
        let f = frame((-id) as i64, body);
        assert(w1.out == w.out + f);
        assert(w1.sent == w.sent.push(named));
        lemma_find_sent_added(w.sent, shape, named, 0);
        // the table stays in order
        assert(sayable_schema(named));
        assert forall|i: int| 0 <= i < w1.sent.len() implies sayable_schema(
            #[trigger] w1.sent[i],
        ) && 65 <= schema_id(w1.sent[i]) < w1.next_id by {
            if i < w.sent.len() {
                assert(w1.sent[i] == w.sent[i]);
            }
        }
        assert forall|i: int, j: int| 0 <= i < j < w1.sent.len() implies schema_id(
            #[trigger] w1.sent[i],
        ) != schema_id(#[trigger] w1.sent[j]) by {
            assert(w1.sent[i] == w.sent[i]);
            if j < w.sent.len() {
                assert(w1.sent[j] == w.sent[j]);
            }
        }
        assert(w1.sent.subrange(0, w.sent.len() as int) =~= w.sent);
        assert(w1.out.subrange(0, w.out.len() as int) =~= w.out);
        assert(w1.out.skip(w.out.len() as int) =~= f);
        // the definition is read
        let s = f + rest;
        lemma_frame_header((-id) as i64, body, rest);
        lemma_wire_type_roundtrip(named, Seq::empty());
        assert(body + Seq::<u8>::empty() =~= body);
        lemma_known_keys(w.sent, id);
        assert(!known(w.sent).contains_key(id)) by {
            if exists|k: int| 0 <= k < w.sent.len() && schema_id(#[trigger] w.sent[k]) == id {
                let k = choose|k: int| 0 <= k < w.sent.len() && schema_id(#[trigger] w.sent[k]) == id;
                assert(schema_id(w.sent[k]) < w.next_id);
            }
        }
        assert(w1.sent.drop_last() =~= w.sent);
        assert(known(w1.sent) == known(w.sent).insert(id, named));
        assert(register(reader_of(w), id, named) == Ok::<RegistryView, GobError>(reader_of(w1)));
        assert(define(reader_of(w), (-id) as i64, body) == Ok::<RegistryView, GobError>(
            reader_of(w1),
        ));
        reveal(next_message);
        assert(next_message(reader_of(w), s) == next_message(reader_of(w1), rest));
    }
}

/// Whether a value can be written and read back. `boxed` says that the
/// value stands where an interface value stands: as a key or an element of
/// a map.
///
/// Nil can only stand boxed, and an array cannot be written at all. Texts
/// and lists must be short enough for their lengths to be said. A struct
/// that stands boxed needs a name, for an interface value without a name is
/// nil. The keys of a map and the names of the fields of a struct must be in
/// strictly increasing order, as they are when they are read.
pub open spec fn portable(v: ValueView, boxed: bool) -> bool
    decreases v,
{
    match v {
        ValueView::Nil => boxed,
        ValueView::Bool(_) => true,
        ValueView::Int(_) => true,
        ValueView::Uint(_) => true,
        ValueView::Float(_) => true,
        ValueView::String(s) => sayable(s),
        ValueView::Bytes(b) => b.len() <= u64::MAX,
        ValueView::Array(_) => false,
        ValueView::Dict(entries) => {
            &&& entries.len() <= u64::MAX
            &&& forall|i: int|
                0 <= i < entries.len() ==> portable((#[trigger] entries[i]).0, true) && portable(
                    entries[i].1,
                    true,
                )
            &&& forall|i: int, j: int|
                0 <= i < j < entries.len() ==> value_lt(
                    (#[trigger] entries[i]).0,
                    (#[trigger] entries[j]).0,
                )
        },
        ValueView::Struct(name, fields) => {
            &&& sayable(name)
            &&& boxed ==> name.len() > 0
            &&& fields.len() <= u64::MAX
            &&& forall|i: int|
                0 <= i < fields.len() ==> sayable((#[trigger] fields[i]).0) && portable(
                    fields[i].1,
                    false,
                )
            &&& forall|i: int, j: int|
                0 <= i < j < fields.len() ==> str_lt(
                    (#[trigger] fields[i]).0,
                    (#[trigger] fields[j]).0,
                )
        },
    }
}

/// The name of the type of dynamic maps can go on the wire.
pub proof fn lemma_dict_name_sayable()
    ensures
        sayable(dict_name()),
        dict_name().len() > 0,
{
    reveal_strlit("map[interface{}]interface{}");
    let name = dict_name();
    assert(name.len() == 27);
    lemma_utf8_len(name);
}

/// A text in UTF-8 takes no more than four bytes for each character.
pub proof fn lemma_utf8_len(text: Seq<char>)
    ensures
        vstd::utf8::encode_utf8(text).len() <= 4 * text.len(),
    decreases text.len(),
{
    if text.len() > 0 {
        lemma_utf8_len(text.drop_first());
    }
}

/// Where the descriptors of a list of fields are found in a table, each is
/// the name of its field with the identifier of the field's type.
pub proof fn lemma_field_types_some(
    sent: Seq<SchemaView>,
    fields: Seq<(Seq<char>, ValueView)>,
    i: int,
    acc: Seq<FieldTypeView>,
)
    requires
        0 <= i <= fields.len(),
        field_types(sent, fields, i, acc) is Some,
    ensures
        ({
            let types = field_types(sent, fields, i, acc)->0;
            &&& types.len() == acc.len() + fields.len() - i
            &&& types.subrange(0, acc.len() as int) == acc
            &&& forall|k: int|
                i <= k < fields.len() ==> type_id(sent, (#[trigger] fields[k]).1) == Some(
                    types[acc.len() + k - i].id,
                ) && types[acc.len() + k - i].name == fields[k].0
        }),
    decreases fields.len() - i,
{
    lemma_field_types_step(sent, fields, i, acc);
    let types = field_types(sent, fields, i, acc)->0;
    if i < fields.len() {
        let id = type_id(sent, fields[i].1)->0;
        let next = acc.push(FieldTypeView { name: fields[i].0, id });
        lemma_field_types_some(sent, fields, i + 1, next);
        assert(types.subrange(0, acc.len() as int) =~= next.subrange(0, acc.len() as int));
        assert(next.subrange(0, acc.len() as int) =~= acc);
        assert(types[acc.len() as int] == types.subrange(0, next.len() as int)[acc.len() as int]);
        assert forall|k: int| i <= k < fields.len() implies type_id(
            sent,
            (#[trigger] fields[k]).1,
        ) == Some(types[acc.len() + k - i].id) && types[acc.len() + k - i].name == fields[k].0 by {
            if k > i {
                assert(types[next.len() + k - (i + 1)] == types[acc.len() + k - i]);
            }
        }
    } else {
        assert(types.subrange(0, acc.len() as int) =~= acc);
    }
}

/// Where each field of a list has a type in a table, the descriptors of the
/// list are found: each the name of its field with the identifier of the
/// field's type.
pub proof fn lemma_field_types_value(
    sent: Seq<SchemaView>,
    fields: Seq<(Seq<char>, ValueView)>,
    i: int,
    types: Seq<FieldTypeView>,
)
    requires
        0 <= i <= fields.len(),
        types.len() == fields.len(),
        forall|k: int|
            i <= k < fields.len() ==> type_id(sent, (#[trigger] fields[k]).1) == Some(types[k].id)
                && types[k].name == fields[k].0,
    ensures
        field_types(sent, fields, i, types.subrange(0, i)) == Some(types),
    decreases fields.len() - i,
{
    lemma_field_types_step(sent, fields, i, types.subrange(0, i));
    if i < fields.len() {
        lemma_field_types_value(sent, fields, i + 1, types);
        assert(fields[i].0 == types[i].name);
        assert(types.subrange(0, i).push(
            FieldTypeView { name: fields[i].0, id: types[i].id },
        ) =~= types.subrange(0, i + 1));
    } else {
        assert(types.subrange(0, i) =~= types);
    }
}

/// The type of a value that has one in a table has the same in a longer
/// table.
pub proof fn lemma_type_id_longer(sent: Seq<SchemaView>, longer: Seq<SchemaView>, v: ValueView)
    requires
        sent.len() <= longer.len(),
        longer.subrange(0, sent.len() as int) == sent,
        type_id(sent, v) is Some,
    ensures
        type_id(longer, v) == type_id(sent, v),
    decreases v,
{
    reveal(type_id);
    reveal(field_types);
    match v {
        ValueView::Dict(_) => {
            lemma_find_sent_longer(sent, longer, dict_type(0), 0);
        },
        ValueView::Struct(name, fields) => {
            lemma_field_types_some(sent, fields, 0, Seq::empty());
            let types = field_types(sent, fields, 0, Seq::empty())->0;
            assert forall|k: int| 0 <= k < fields.len() implies type_id(
                longer,
                (#[trigger] fields[k]).1,
            ) == Some(types[k].id) && types[k].name == fields[k].0 by {
                lemma_type_id_longer(sent, longer, fields[k].1);
            }
            lemma_field_types_value(longer, fields, 0, types);
            assert(types.subrange(0, 0) =~= Seq::<FieldTypeView>::empty());
            lemma_find_sent_longer(
                sent,
                longer,
                SchemaView::Struct(
                    StructTypeView { common: CommonTypeView { name, id: 0 }, fields: types },
                ),
                0,
            );
        },
        _ => {},
    }
}

/// Making sure that the type of a value is defined keeps the table in
/// order; what it writes is read as the definitions of the types in the
/// value; and the value then has its type in the table.
pub proof fn lemma_ensure_defined(w: WriterView, v: ValueView, boxed: bool, rest: Seq<u8>)
    requires
        orderly(w),
        portable(v, boxed),
        ensure_defined(w, v) is Ok,
    ensures
        defined(w, ensure_defined(w, v)->Ok_0.1, rest),
        type_id(ensure_defined(w, v)->Ok_0.1.sent, v) == Some(ensure_defined(w, v)->Ok_0.0),
    decreases v, 1nat, 0nat,
{
    reveal(ensure_defined);
    reveal(ensure_entries);
    reveal(ensure_fields);
    reveal(type_id);
    reveal(field_types);
    let (id, w2) = ensure_defined(w, v)->Ok_0;
    match v {
        ValueView::Dict(entries) => {
            lemma_dict_name_sayable();
            let (_, w1) = ensure_sent(w, dict_type(0))->Ok_0;
            let tail = w2.out.skip(w1.out.len() as int) + rest;
            lemma_ensure_sent(w, dict_type(0), tail);
            lemma_ensure_entries(w1, entries, 0, rest);
            lemma_defined_trans(w, w1, w2, rest);
            lemma_find_sent_longer(w1.sent, w2.sent, dict_type(0), 0);
        },
        ValueView::Struct(name, fields) => {
            let (types, w1) = ensure_fields(w, fields, 0, Seq::empty())->Ok_0;
            let shape = SchemaView::Struct(
                StructTypeView { common: CommonTypeView { name, id: 0 }, fields: types },
            );
            let tail = w2.out.skip(w1.out.len() as int) + rest;
            lemma_ensure_fields(w, fields, 0, Seq::empty(), tail);
            assert(sayable_fields(types)) by {
                assert forall|k: int| 0 <= k < types.len() implies sayable(
                    (#[trigger] types[k]).name,
                ) by {
                    assert(types[k].name == fields[k].0);
                }
            }
            lemma_ensure_sent(w1, shape, rest);
            lemma_defined_trans(w, w1, w2, rest);
            // the fields keep their types in the final table
            assert forall|k: int| 0 <= k < fields.len() implies type_id(
                w2.sent,
                (#[trigger] fields[k]).1,
            ) == Some(types[k].id) && types[k].name == fields[k].0 by {
                lemma_type_id_longer(w1.sent, w2.sent, fields[k].1);
            }
            lemma_field_types_value(w2.sent, fields, 0, types);
            assert(types.subrange(0, 0) =~= Seq::<FieldTypeView>::empty());
        },
        _ => {
            lemma_defined_refl(w, rest);
        },
    }
}

/// Making sure that the types of the entries of a map are defined keeps
/// the table in order, and what it writes is read as their definitions.
pub proof fn lemma_ensure_entries(
    w: WriterView,
    entries: Seq<(ValueView, ValueView)>,
    i: int,
    rest: Seq<u8>,
)
    requires
        orderly(w),
        0 <= i <= entries.len(),
        forall|k: int|
            i <= k < entries.len() ==> portable((#[trigger] entries[k]).0, true) && portable(
                entries[k].1,
                true,
            ),
        ensure_entries(w, entries, i) is Ok,
    ensures
        defined(w, ensure_entries(w, entries, i)->Ok_0, rest),
    decreases entries, 0nat, entries.len() - i,
{
    lemma_ensure_entries_step(w, entries, i);
    let w3 = ensure_entries(w, entries, i)->Ok_0;
    if i < entries.len() {
        let (_, w1) = ensure_defined(w, entries[i].0)->Ok_0;
        let (_, w2) = ensure_defined(w1, entries[i].1)->Ok_0;
        let tail2 = w3.out.skip(w2.out.len() as int) + rest;
        let tail1 = w2.out.skip(w1.out.len() as int) + tail2;
        lemma_ensure_defined(w, entries[i].0, true, tail1);
        lemma_ensure_defined(w1, entries[i].1, true, tail2);
        lemma_ensure_entries(w2, entries, i + 1, rest);
        lemma_defined_trans(w1, w2, w3, rest);
        assert(w3.out.skip(w1.out.len() as int) + rest =~= tail1) by {
            assert(w3.out.subrange(0, w2.out.len() as int) == w2.out);
            assert(w2.out.subrange(0, w1.out.len() as int) == w1.out);
            assert(w3.out.skip(w1.out.len() as int) =~= w2.out.skip(w1.out.len() as int)
                + w3.out.skip(w2.out.len() as int)) by {
                assert forall|k: int| 0 <= k < w2.out.len() implies w3.out[k] == w2.out[k] by {
                    assert(w3.out.subrange(0, w2.out.len() as int)[k] == w2.out[k]);
                }
            }
        }
        lemma_defined_trans(w, w1, w3, rest);
    } else {
        lemma_defined_refl(w, rest);
    }
}

/// Making sure that the types of the fields of a struct are defined keeps
/// the table in order; what it writes is read as their definitions; and the
/// descriptors that it gives are the names of the fields with the
/// identifiers of their types.
pub proof fn lemma_ensure_fields(
    w: WriterView,
    fields: Seq<(Seq<char>, ValueView)>,
    i: int,
    acc: Seq<FieldTypeView>,
    rest: Seq<u8>,
)
    requires
        orderly(w),
        0 <= i <= fields.len(),
        acc.len() == i,
        forall|k: int| i <= k < fields.len() ==> portable((#[trigger] fields[k]).1, false),
        forall|k: int|
            0 <= k < i ==> type_id(w.sent, (#[trigger] fields[k]).1) == Some(acc[k].id)
                && acc[k].name == fields[k].0,
        ensure_fields(w, fields, i, acc) is Ok,
    ensures
        defined(w, ensure_fields(w, fields, i, acc)->Ok_0.1, rest),
        ({
            let (types, w2) = ensure_fields(w, fields, i, acc)->Ok_0;
            &&& types.len() == fields.len()
            &&& forall|k: int|
                0 <= k < fields.len() ==> type_id(w2.sent, (#[trigger] fields[k]).1) == Some(
                    types[k].id,
                ) && types[k].name == fields[k].0
        }),
    decreases fields, 0nat, fields.len() - i,
{
    lemma_ensure_fields_step(w, fields, i, acc);
    let (types, w2) = ensure_fields(w, fields, i, acc)->Ok_0;
    if i < fields.len() {
        let (id, w1) = ensure_defined(w, fields[i].1)->Ok_0;
        let next = acc.push(FieldTypeView { name: fields[i].0, id });
        let tail = w2.out.skip(w1.out.len() as int) + rest;
        lemma_ensure_defined(w, fields[i].1, false, tail);
        assert forall|k: int| 0 <= k < i + 1 implies type_id(w1.sent, (#[trigger] fields[k]).1)
            == Some(next[k].id) && next[k].name == fields[k].0 by {
            if k < i {
                lemma_type_id_longer(w.sent, w1.sent, fields[k].1);
            }
        }
        lemma_ensure_fields(w1, fields, i + 1, next, rest);
        lemma_defined_trans(w, w1, w2, rest);
    } else {
        lemma_defined_refl(w, rest);
    }
}

/// A field whose name comes after every name in a list goes to its end.
pub proof fn lemma_named_put_last(fields: Seq<(Seq<char>, ValueView)>, name: Seq<char>, v: ValueView)
    requires
        forall|j: int| 0 <= j < fields.len() ==> str_lt((#[trigger] fields[j]).0, name),
    ensures
        named_put(fields, name, v) == fields.push((name, v)),
{
    lemma_named_slot_last(fields, name, 0);
    assert(fields.insert(fields.len() as int, (name, v)) =~= fields.push((name, v)));
}

/// The place of a name that comes after every name from `from` on is the
/// end of the list.
pub proof fn lemma_named_slot_last(fields: Seq<(Seq<char>, ValueView)>, name: Seq<char>, from: int)
    requires
        0 <= from <= fields.len(),
        forall|j: int| from <= j < fields.len() ==> str_lt((#[trigger] fields[j]).0, name),
    ensures
        named_slot(fields, name, from) == fields.len(),
    decreases fields.len() - from,
{
    if from < fields.len() {
        assert(str_lt(fields[from].0, name));
        lemma_bytes_lt_irreflexive(vstd::utf8::encode_utf8(name), 0);
        lemma_named_slot_last(fields, name, from + 1);
    }
}

/// An entry whose key comes after every key in a list goes to its end.
pub proof fn lemma_dict_put_last(entries: Seq<(ValueView, ValueView)>, k: ValueView, v: ValueView)
    requires
        forall|j: int| 0 <= j < entries.len() ==> value_lt((#[trigger] entries[j]).0, k),
    ensures
        dict_put(entries, k, v) == entries.push((k, v)),
{
    lemma_dict_slot_last(entries, k, 0);
    assert(entries.insert(entries.len() as int, (k, v)) =~= entries.push((k, v)));
}

/// The place of a key that comes after every key from `from` on is the end
/// of the list.
pub proof fn lemma_dict_slot_last(entries: Seq<(ValueView, ValueView)>, k: ValueView, from: int)
    requires
        0 <= from <= entries.len(),
        forall|j: int| from <= j < entries.len() ==> value_lt((#[trigger] entries[j]).0, k),
    ensures
        dict_slot(entries, k, from) == entries.len(),
    decreases entries.len() - from,
{
    if from < entries.len() {
        assert(value_lt(entries[from].0, k));
        law_value_lt_irreflexive(k);
        lemma_dict_slot_last(entries, k, from + 1);
    }
}

/// The body of a value other than nil takes at least one byte.
pub proof fn lemma_body_len(sent: Seq<SchemaView>, v: ValueView)
    requires
        encode_body(sent, v) is Ok,
        !(v is Nil),
    ensures
        encode_body(sent, v)->Ok_0.len() >= 1,
{
    reveal(encode_body);
    reveal(encode_entries);
    reveal(encode_fields);
    match v {
        ValueView::Bool(b) => {
            law_uvarint_len(if b { 1 } else { 0 });
        },
        ValueView::Int(i) => {
            law_uvarint_len(zigzag(i));
        },
        ValueView::Uint(u) => {
            law_uvarint_len(u);
        },
        ValueView::Float(f) => {
            law_uvarint_len(swap_bytes(f));
        },
        ValueView::String(t) => {
            law_uvarint_len(vstd::utf8::encode_utf8(t).len() as u64);
        },
        ValueView::Bytes(b) => {
            law_uvarint_len(b.len() as u64);
        },
        ValueView::Dict(entries) => {
            law_uvarint_len(entries.len() as u64);
        },
        ValueView::Struct(_, _) => {
            law_uvarint_len(0);
        },
        _ => {},
    }
}

/// An interface value takes at least one byte.
pub proof fn lemma_interface_len(sent: Seq<SchemaView>, v: ValueView)
    requires
        encode_interface(sent, v) is Ok,
    ensures
        encode_interface(sent, v)->Ok_0.len() >= 1,
{
    reveal(encode_interface);
    reveal(encode_body);
    law_uvarint_len(vstd::utf8::encode_utf8(concrete_name(v)).len() as u64);
    law_uvarint_len(vstd::utf8::encode_utf8(Seq::<char>::empty()).len() as u64);
}

/// The entries of a map take at least one byte each.
pub proof fn lemma_entries_len(sent: Seq<SchemaView>, entries: Seq<(ValueView, ValueView)>, i: int)
    requires
        0 <= i <= entries.len(),
        encode_entries(sent, entries, i) is Ok,
    ensures
        encode_entries(sent, entries, i)->Ok_0.len() >= entries.len() - i,
    decreases entries.len() - i,
{
    lemma_encode_entries_step(sent, entries, i);
    if i < entries.len() {
        lemma_interface_len(sent, entries[i].0);
        lemma_entries_len(sent, entries, i + 1);
    }
}

/// The name that an interface value gives for the type of a value that can
/// stand boxed, and is not nil, is not empty and can go on the wire.
pub proof fn lemma_concrete_name(v: ValueView)
    requires
        portable(v, true),
        !(v is Nil),
    ensures
        concrete_name(v).len() > 0,
        sayable(concrete_name(v)),
{
    reveal_strlit("bool");
    reveal_strlit("int64");
    reveal_strlit("uint");
    reveal_strlit("float64");
    reveal_strlit("string");
    reveal_strlit("[]byte");
    lemma_dict_name_sayable();
    lemma_utf8_len(concrete_name(v));
}

/// What a reader knows of the type of a value that has its type in a table
/// in order: a primitive is of its predeclared type; a map is of a map type
/// from interface to interface; a struct is of a struct type of its name,
/// whose fields are the fields of the value with their types.
pub proof fn lemma_type_known(w: WriterView, v: ValueView, boxed: bool)
    requires
        orderly(w),
        portable(v, boxed),
        !(v is Nil),
        type_id(w.sent, v) is Some,
    ensures
        ({
            let id = type_id(w.sent, v)->0;
            let types = known(w.sent);
            &&& 1 <= id
            &&& types.contains_key(id)
            &&& types.contains_key(8) && types[8] == SchemaView::Interface
            &&& match v {
                ValueView::Bool(_) => types[id] == SchemaView::Bool,
                ValueView::Int(_) => types[id] == SchemaView::Int,
                ValueView::Uint(_) => types[id] == SchemaView::Uint,
                ValueView::Float(_) => types[id] == SchemaView::Float,
                ValueView::String(_) => types[id] == SchemaView::String,
                ValueView::Bytes(_) => types[id] == SchemaView::ByteSlice,
                ValueView::Dict(_) => types[id] matches SchemaView::MapOf(m) && m.key == 8
                    && m.elem == 8,
                ValueView::Struct(name, fields) => types[id] matches SchemaView::Struct(t)
                    && t.common.name == name && field_types(w.sent, fields, 0, Seq::empty())
                    == Some(t.fields),
                _ => true,
            }
        }),
{
    reveal(type_id);
    reveal(field_types);
    let id = type_id(w.sent, v)->0;
    lemma_known_predeclared(w, 8);
    match v {
        ValueView::Dict(_) => {
            lemma_find_sent_some(w.sent, dict_type(0), 0);
            let k = choose|k: int|
                0 <= k < w.sent.len() && same_shape(#[trigger] w.sent[k], dict_type(0))
                    && schema_id(w.sent[k]) == id;
            lemma_known_sent(w, k);
        },
        ValueView::Struct(name, fields) => {
            let types = field_types(w.sent, fields, 0, Seq::empty())->0;
            let shape = SchemaView::Struct(
                StructTypeView { common: CommonTypeView { name, id: 0 }, fields: types },
            );
            lemma_find_sent_some(w.sent, shape, 0);
            let k = choose|k: int|
                0 <= k < w.sent.len() && same_shape(#[trigger] w.sent[k], shape) && schema_id(
                    w.sent[k],
                ) == id;
            lemma_known_sent(w, k);
        },
        _ => {
            lemma_known_predeclared(w, id);
        },
    }
}

/// The body of a value is read back as the value, by the schema that the
/// reader knows for the value's type.
pub proof fn lemma_body_roundtrip(w: WriterView, v: ValueView, tail: Seq<u8>)
    requires
        orderly(w),
        portable(v, false),
        type_id(w.sent, v) is Some,
        encode_body(w.sent, v) is Ok,
    ensures
        known(w.sent).contains_key(type_id(w.sent, v)->0),
        decode_value(
            reader_of(w),
            known(w.sent)[type_id(w.sent, v)->0],
            encode_body(w.sent, v)->Ok_0 + tail,
        ) == Ok::<ValueStep, GobError>(
            ValueStep {
                value: v,
                used: encode_body(w.sent, v)->Ok_0.len(),
                registry: reader_of(w),
            },
        ),
    decreases v, 1nat, 0nat,
{
    reveal(decode_value);
    reveal(decode_fields);
    reveal(decode_entries);
    reveal(decode_interface);
    reveal(encode_body);
    reveal(encode_entries);
    reveal(encode_fields);
    let reg = reader_of(w);
    let id = type_id(w.sent, v)->0;
    let b = encode_body(w.sent, v)->Ok_0;
    lemma_type_known(w, v, false);
    match v {
        ValueView::Bool(x) => {
            lemma_bool_roundtrip(x, tail);
            law_uvarint_len(if x { 1 } else { 0 });
        },
        ValueView::Int(x) => {
            lemma_int_roundtrip(x, tail);
        },
        ValueView::Uint(x) => {
            lemma_uvarint_roundtrip(x, tail);
        },
        ValueView::Float(x) => {
            lemma_float_roundtrip(x, tail);
        },
        ValueView::String(x) => {
            lemma_string_roundtrip(x, tail);
        },
        ValueView::Bytes(x) => {
            lemma_bytes_roundtrip(x, tail);
        },
        ValueView::Dict(entries) => {
            let eb = encode_entries(w.sent, entries, 0)->Ok_0;
            let count = encode_uvarint(entries.len() as u64);
            assert(b + tail =~= count + (eb + tail));
            lemma_uvarint_roundtrip(entries.len() as u64, eb + tail);
            lemma_after_piece(count, eb + tail);
            lemma_entries_len(w.sent, entries, 0);
            lemma_entries_roundtrip(w, entries, 0, tail);
            assert(entries.subrange(0, 0) =~= Seq::<(ValueView, ValueView)>::empty());
        },
        ValueView::Struct(name, fields) => {
            let t = known(w.sent)[id]->Struct_0;
            let fb = encode_fields(w.sent, fields, 0)->Ok_0;
            lemma_field_types_some(w.sent, fields, 0, Seq::empty());
            lemma_fields_roundtrip(w, t, fields, 0, tail);
            assert(fields.subrange(0, 0) =~= Seq::<(Seq<char>, ValueView)>::empty());
            assert(b + tail =~= fb + encode_uvarint(0) + tail);
            law_uvarint_len(0);
        },
        _ => {},
    }
}

/// The fields of a struct from index `i` on, with the zero delta after
/// them, are read back as the struct.
pub proof fn lemma_fields_roundtrip(
    w: WriterView,
    t: StructTypeView,
    fields: Seq<(Seq<char>, ValueView)>,
    i: int,
    tail: Seq<u8>,
)
    requires
        orderly(w),
        0 <= i <= fields.len(),
        t.fields.len() == fields.len(),
        forall|k: int|
            0 <= k < fields.len() ==> portable((#[trigger] fields[k]).1, false) && type_id(
                w.sent,
                fields[k].1,
            ) == Some(t.fields[k].id) && t.fields[k].name == fields[k].0,
        forall|j: int, k: int|
            0 <= j < k < fields.len() ==> str_lt((#[trigger] fields[j]).0, (#[trigger] fields[k]).0),
        encode_fields(w.sent, fields, i) is Ok,
    ensures
        decode_fields(
            reader_of(w),
            t,
            i - 1,
            fields.subrange(0, i),
            encode_fields(w.sent, fields, i)->Ok_0 + encode_uvarint(0) + tail,
        ) == Ok::<ValueStep, GobError>(
            ValueStep {
                value: ValueView::Struct(t.common.name, fields),
                used: encode_fields(w.sent, fields, i)->Ok_0.len() + 1,
                registry: reader_of(w),
            },
        ),
    decreases fields, 0nat, fields.len() - i,
{
    reveal(decode_value);
    reveal(decode_fields);
    lemma_encode_fields_step(w.sent, fields, i);
    let reg = reader_of(w);
    let zero = encode_uvarint(0);
    let fb = encode_fields(w.sent, fields, i)->Ok_0;
    let s = fb + zero + tail;
    let acc = fields.subrange(0, i);
    law_uvarint_len(0);
    law_uvarint_len(1);
    if i < fields.len() {
        let one = encode_uvarint(1);
        let body = encode_body(w.sent, fields[i].1)->Ok_0;
        let later = encode_fields(w.sent, fields, i + 1)->Ok_0;
        let t1 = later + zero + tail;
        let t0 = body + t1;
        assert(fb == (one + body) + later);
        assert(s =~= one + t0);
        lemma_uvarint_roundtrip(1, t0);
        lemma_after_piece(one, t0);
        let f = t.fields[i];
        lemma_body_roundtrip(w, fields[i].1, t1);
        lemma_after_piece(body, t1);
        assert(after(s, one.len() + body.len()) =~= t1);
        assert forall|j: int| 0 <= j < acc.len() implies str_lt((#[trigger] acc[j]).0, f.name) by {
            assert(acc[j] == fields[j]);
        }
        lemma_named_put_last(acc, f.name, fields[i].1);
        assert(acc.push((f.name, fields[i].1)) =~= fields.subrange(0, i + 1));
        lemma_fields_roundtrip(w, t, fields, i + 1, tail);
        assert(decode_fields(reg, t, i - 1, acc, s) == shift_step(
            decode_fields(reg, t, i, fields.subrange(0, i + 1), t1),
            one.len() + body.len(),
        ));
    } else {
        assert(fb =~= Seq::<u8>::empty());
        assert(s =~= zero + tail);
        lemma_uvarint_roundtrip(0, tail);
        assert(acc =~= fields);
    }
}

/// The entries of a map from index `i` on are read back as the map.
pub proof fn lemma_entries_roundtrip(
    w: WriterView,
    entries: Seq<(ValueView, ValueView)>,
    i: int,
    tail: Seq<u8>,
)
    requires
        orderly(w),
        0 <= i <= entries.len(),
        forall|k: int|
            0 <= k < entries.len() ==> portable((#[trigger] entries[k]).0, true) && portable(
                entries[k].1,
                true,
            ),
        forall|j: int, k: int|
            0 <= j < k < entries.len() ==> value_lt(
                (#[trigger] entries[j]).0,
                (#[trigger] entries[k]).0,
            ),
        encode_entries(w.sent, entries, i) is Ok,
    ensures
        decode_entries(
            reader_of(w),
            SchemaView::Interface,
            SchemaView::Interface,
            (entries.len() - i) as nat,
            entries.subrange(0, i),
            encode_entries(w.sent, entries, i)->Ok_0 + tail,
        ) == Ok::<ValueStep, GobError>(
            ValueStep {
                value: ValueView::Dict(entries),
                used: encode_entries(w.sent, entries, i)->Ok_0.len(),
                registry: reader_of(w),
            },
        ),
    decreases entries, 0nat, entries.len() - i,
{
    lemma_encode_entries_step(w.sent, entries, i);
    let reg = reader_of(w);
    let eb = encode_entries(w.sent, entries, i)->Ok_0;
    let s = eb + tail;
    let acc = entries.subrange(0, i);
    let boxed = SchemaView::Interface;
    lemma_decode_entries_step(reg, boxed, boxed, (entries.len() - i) as nat, acc, s);
    if i < entries.len() {
        let key = encode_interface(w.sent, entries[i].0)->Ok_0;
        let elem = encode_interface(w.sent, entries[i].1)->Ok_0;
        let later = encode_entries(w.sent, entries, i + 1)->Ok_0;
        let t1 = later + tail;
        let t0 = elem + t1;
        assert(eb == (key + elem) + later);
        assert(s =~= key + t0);
        lemma_interface_roundtrip(w, entries[i].0, t0);
        lemma_decode_value_interface(reg, s);
        lemma_after_piece(key, t0);
        lemma_interface_roundtrip(w, entries[i].1, t1);
        lemma_decode_value_interface(reg, t0);
        lemma_after_piece(elem, t1);
        assert(after(s, key.len() + elem.len()) =~= t1);
        assert forall|j: int| 0 <= j < acc.len() implies value_lt(
            (#[trigger] acc[j]).0,
            entries[i].0,
        ) by {
            assert(acc[j] == entries[j]);
        }
        lemma_dict_put_last(acc, entries[i].0, entries[i].1);
        assert(acc.push((entries[i].0, entries[i].1)) =~= entries.subrange(0, i + 1));
        lemma_entries_roundtrip(w, entries, i + 1, tail);
        assert(decode_entries(reg, boxed, boxed, (entries.len() - i) as nat, acc, s) == shift_step(
            decode_entries(
                reg,
                boxed,
                boxed,
                (entries.len() - i - 1) as nat,
                entries.subrange(0, i + 1),
                t1,
            ),
            key.len() + elem.len(),
        ));
    } else {
        assert(eb =~= Seq::<u8>::empty());
        assert(s =~= tail);
        assert(acc =~= entries);
    }
}

/// How the pieces of an interface value lie in what is read: the name,
/// the identifier, the length, and the value's bytes, after a zero byte
/// where their first is zero.
pub proof fn lemma_interface_layout(name: Seq<char>, id: i64, b: Seq<u8>, tail: Seq<u8>)
    requires
        sayable(name),
        b.len() >= 1,
        payload(b) is Some,
    ensures
        ({
            let s = encode_string(name) + encode_int(id) + payload(b)->0 + tail;
            let n1 = encode_string(name).len();
            let n2 = encode_int(id).len();
            let n3 = encode_uvarint(guarded(b).len() as u64).len();
            let p = n1 + n2 + n3;
            let q = if after(s, p)[0] == 0 {
                p + 1
            } else {
                p
            };
            &&& decode_string(s) == Ok::<(Seq<char>, nat), GobError>((name, n1))
            &&& decode_int(after(s, n1)) == Ok::<(i64, nat), GobError>((id, n2))
            &&& decode_uvarint(after(s, n1 + n2)) == Ok::<(u64, nat), GobError>(
                (guarded(b).len() as u64, n3),
            )
            &&& after(s, p).len() > 0
            &&& after(s, q) == b + tail
            &&& q + b.len() == n1 + n2 + payload(b)->0.len()
        }),
{
    let g = guarded(b);
    let text = encode_string(name);
    let ident = encode_int(id);
    let len = encode_uvarint(g.len() as u64);
    let t3 = b + tail;
    let t2 = g + tail;
    let t1 = len + t2;
    let t0 = ident + t1;
    let s = text + ident + payload(b)->0 + tail;
    assert(payload(b) == Some(len + g));
    assert(s =~= text + t0);
    lemma_string_roundtrip(name, t0);
    lemma_after_piece(text, t0);
    lemma_int_roundtrip(id, t1);
    lemma_after_piece(ident, t1);
    assert(after(s, text.len() + ident.len()) =~= t1);
    lemma_uvarint_roundtrip(g.len() as u64, t2);
    lemma_after_piece(len, t2);
    let p = text.len() + ident.len() + len.len();
    assert(after(s, p) =~= t2);
    assert(t2[0] == g[0]);
    if b[0] == 0 {
        assert(g =~= seq![0u8] + b);
        assert(after(s, p + 1) =~= t3);
    } else {
        assert(g == b);
        assert(after(s, p) =~= t3);
    }
}

/// An interface value is read back as the value.
pub proof fn lemma_interface_roundtrip(w: WriterView, v: ValueView, tail: Seq<u8>)
    requires
        orderly(w),
        portable(v, true),
        encode_interface(w.sent, v) is Ok,
    ensures
        decode_interface(reader_of(w), encode_interface(w.sent, v)->Ok_0 + tail) == Ok::<
            ValueStep,
            GobError,
        >(
            ValueStep {
                value: v,
                used: encode_interface(w.sent, v)->Ok_0.len(),
                registry: reader_of(w),
            },
        ),
    decreases v, 2nat, 0nat,
{
    lemma_encode_interface_step(w.sent, v);
    let reg = reader_of(w);
    let bytes = encode_interface(w.sent, v)->Ok_0;
    let s = bytes + tail;
    lemma_decode_interface_step(reg, s);
    if v is Nil {
        assert(vstd::utf8::encode_utf8(Seq::<char>::empty()) =~= Seq::<u8>::empty());
        lemma_string_roundtrip(Seq::empty(), tail);
    } else {
        let name = concrete_name(v);
        let id = type_id(w.sent, v)->0;
        let b = encode_body(w.sent, v)->Ok_0;
        lemma_concrete_name(v);
        lemma_type_known(w, v, true);
        lemma_body_len(w.sent, v);
        lemma_interface_layout(name, id, b, tail);
        let n1 = encode_string(name).len();
        assert(decode_concrete(reg, after(s, n1)) == Ok::<Concrete, GobError>(
            Concrete { registry: reg, id, used: encode_int(id).len() },
        ));
        assert(portable(v, false));
        lemma_body_roundtrip(w, v, tail);
    }
}

/// What is written is read back.
///
/// Take a writer whose table is in order and a reader that knows what the
/// writer has sent. Whatever value the writer then writes, if the value can
/// be written and read back at all: the reader reads, from what was
/// written for it, that very value, and nothing is left over; and the
/// reader then again knows what the writer has sent, whose table is still
/// in order.
pub proof fn law_round_trip(w: WriterView, v: ValueView)
    requires
        orderly(w),
        portable(v, false),
        encode_value(w, v) is Ok,
    ensures
        ({
            let after = encode_value(w, v)->Ok_0;
            &&& orderly(after)
            &&& w.out.len() <= after.out.len()
            &&& after.out.subrange(0, w.out.len() as int) == w.out
            &&& next_value(reader_of(w), after.out.skip(w.out.len() as int)) == Ok::<
                Delivery,
                GobError,
            >(Delivery { value: Some(v), rest: Seq::empty(), registry: reader_of(after) })
        }),
{
    let (id, wd) = ensure_defined(w, v)->Ok_0;
    let b = encode_body(wd.sent, v)->Ok_0;
    let m = frame(id, b);
    let w1 = encode_value(w, v)->Ok_0;
    assert(w1.out == wd.out + m);
    assert(w1.sent == wd.sent);
    lemma_ensure_defined(w, v, false, m);
    let written = w1.out.skip(w.out.len() as int);
    assert(written =~= wd.out.skip(w.out.len() as int) + m);
    assert(w1.out.subrange(0, w.out.len() as int) =~= wd.out.subrange(0, w.out.len() as int));
    // the value's message is opened
    let reg = reader_of(wd);
    lemma_type_known(wd, v, false);
    lemma_frame_header(id, b, Seq::empty());
    assert(m + Seq::<u8>::empty() =~= m);
    lemma_header_bounds(m);
    assert(next_message(reg, m) == Ok::<Arrival, GobError>(
        Arrival {
            registry: reg,
            message: Some(Message { id, body: b, rest: Seq::empty(), cut: false }),
        },
    )) by {
        reveal(next_message);
    }
    // and the value is read from it
    lemma_body_roundtrip(wd, v, Seq::empty());
    assert(b + Seq::<u8>::empty() =~= b);
}

/// The message that a writer writes for a value is one that the law of cut
/// messages speaks of: whole, and with a value that takes all of its body.
pub proof fn law_written_message_is_exact(w: WriterView, v: ValueView)
    requires
        orderly(w),
        portable(v, false),
        type_id(w.sent, v) is Some,
        encode_body(w.sent, v) is Ok,
        message(type_id(w.sent, v)->0, encode_body(w.sent, v)->Ok_0) is Some,
    ensures
        crate::truncation::exact_message(
            reader_of(w),
            frame(type_id(w.sent, v)->0, encode_body(w.sent, v)->Ok_0),
        ),
{
    let id = type_id(w.sent, v)->0;
    let b = encode_body(w.sent, v)->Ok_0;
    let m = frame(id, b);
    lemma_type_known(w, v, false);
    lemma_frame_header(id, b, Seq::empty());
    assert(m + Seq::<u8>::empty() =~= m);
    lemma_body_roundtrip(w, v, Seq::empty());
    assert(b + Seq::<u8>::empty() =~= b);
}

} // verus!
