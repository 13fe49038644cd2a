//! What a reader makes of bytes that stop too early.
//!
//! Every reader of the wire format is looked at twice here: on the bytes
//! that it read from, and on a front piece of them. Where the front piece
//! holds all that was read, the reader does there what it did; where it
//! stops short of that, the reader fails, and with no other error than a
//! truncated message or invalid data.

use crate::error::GobError;
use crate::grammar::{
    after, decode_concrete, decode_entries, decode_fields, decode_header, decode_interface,
    decode_length, decode_value, lemma_decode_entries_step, lemma_decode_fields_step,
    lemma_decode_interface_step, next_message, next_value, shift_step, Header, ValueStep,
    decode_counted_fields, decode_field_list, decode_map_type, decode_map_type_from,
    decode_name_id, decode_name_id_from, decode_struct_type, decode_struct_type_from,
    decode_wire_type, shift, NameId,
};
use crate::schema::{lookup, RegistryView, SchemaView};
use crate::value::{dict_put, named_put, ValueView};
use crate::types::{CommonTypeView, FieldTypeView, MapTypeView, StructTypeView};
use crate::wire::{
    decode_bool, decode_bytes, decode_float, decode_int, decode_string, decode_uvarint,
    lemma_decode_bounds,
};
use vstd::prelude::*;

verus! {

/// Whether an error is one that bytes stopping too early can lead to.
pub open spec fn short(e: GobError) -> bool {
    e == GobError::TruncatedMessage || e == GobError::InvalidData
}

/// How an outcome on a front piece of `m` bytes stands to the outcome on
/// all the bytes: the same where the front piece holds all that was read,
/// and a failure for want of bytes where it does not.
pub open spec fn cut_of<T>(
    whole: Result<(T, nat), GobError>,
    front: Result<(T, nat), GobError>,
    m: int,
) -> bool {
    match whole {
        Ok((_, n)) => if m >= n {
            front == whole
        } else {
            front matches Err(e) && short(e)
        },
        Err(_) => true,
    }
}

/// Dropping bytes from a front piece is taking a front piece of what is
/// left when they are dropped from the whole.
pub proof fn lemma_after_take(s: Seq<u8>, m: int, n: nat)
    requires
        0 <= n <= m <= s.len(),
    ensures
        after(s.take(m), n) == after(s, n).take(m - n),
{
    assert(after(s.take(m), n) =~= after(s, n).take(m - n));
}

/// An unsigned integer on a front piece.
pub proof fn lemma_uvarint_cut(s: Seq<u8>, m: int)
    requires
        0 <= m <= s.len(),
    ensures
        cut_of(decode_uvarint(s), decode_uvarint(s.take(m)), m),
{
    reveal(decode_uvarint);
    if decode_uvarint(s) is Ok {
        let n = decode_uvarint(s)->Ok_0.1;
        if m >= n && s[0] >= 128 {
            assert(s.take(m).subrange(1, n as int) =~= s.subrange(1, n as int));
        }
    }
}

/// A signed integer on a front piece.
pub proof fn lemma_int_cut(s: Seq<u8>, m: int)
    requires
        0 <= m <= s.len(),
    ensures
        cut_of(decode_int(s), decode_int(s.take(m)), m),
{
    reveal(decode_int);
    lemma_uvarint_cut(s, m);
}

/// A float on a front piece.
pub proof fn lemma_float_cut(s: Seq<u8>, m: int)
    requires
        0 <= m <= s.len(),
    ensures
        cut_of(decode_float(s), decode_float(s.take(m)), m),
{
    reveal(decode_float);
    lemma_uvarint_cut(s, m);
}

/// A boolean on a front piece.
pub proof fn lemma_bool_cut(s: Seq<u8>, m: int)
    requires
        0 <= m <= s.len(),
    ensures
        cut_of(decode_bool(s), decode_bool(s.take(m)), m),
{
    reveal(decode_bool);
    lemma_uvarint_cut(s, m);
}

/// A byte string on a front piece.
pub proof fn lemma_bytes_cut(s: Seq<u8>, m: int)
    requires
        0 <= m <= s.len(),
    ensures
        cut_of(decode_bytes(s), decode_bytes(s.take(m)), m),
{
    reveal(decode_bytes);
    lemma_uvarint_cut(s, m);
    lemma_decode_bounds(s);
    if decode_bytes(s) is Ok {
        let (len, n0) = decode_uvarint(s)->Ok_0;
        if m >= n0 + len {
            assert(s.take(m).subrange(n0 as int, n0 + len) =~= s.subrange(n0 as int, n0 + len));
        }
    }
}

/// A string on a front piece.
pub proof fn lemma_string_cut(s: Seq<u8>, m: int)
    requires
        0 <= m <= s.len(),
    ensures
        cut_of(decode_string(s), decode_string(s.take(m)), m),
{
    reveal(decode_string);
    lemma_bytes_cut(s, m);
}

/// Counting from further back changes nothing in how a front piece stands
/// to the whole.
pub proof fn lemma_cut_shift<T>(
    whole: Result<(T, nat), GobError>,
    front: Result<(T, nat), GobError>,
    m: int,
    k: nat,
)
    requires
        cut_of(whole, front, m - k),
    ensures
        cut_of(shift(whole, k), shift(front, k), m),
{
}

/// A (name, identifier) struct on a front piece.
pub proof fn lemma_name_id_cut(idx: int, acc: NameId, s: Seq<u8>, m: int)
    requires
        0 <= m <= s.len(),
    ensures
        cut_of(decode_name_id_from(idx, acc, s), decode_name_id_from(idx, acc, s.take(m)), m),
    decreases s.len(),
{
    lemma_uvarint_cut(s, m);
    lemma_decode_bounds(s);
    match decode_uvarint(s) {
        Ok((delta, n)) => {
            if m >= n && delta != 0 {
                lemma_after_take(s, m, n);
                let rest = after(s, n);
                lemma_decode_bounds(rest);
                if idx + delta == 0 {
                    lemma_string_cut(rest, m - n);
                    match decode_string(rest) {
                        Ok((name, k)) => {
                            if m - n >= k {
                                lemma_after_take(s, m, n + k);
                                let next = NameId { name, id: acc.id };
                                lemma_name_id_cut(0, next, after(s, n + k), m - n - k);
                                lemma_cut_shift(
                                    decode_name_id_from(0, next, after(s, n + k)),
                                    decode_name_id_from(0, next, after(s, n + k).take(m - n - k)),
                                    m,
                                    n + k,
                                );
                            }
                        },
                        Err(_) => {},
                    }
                } else if idx + delta == 1 {
                    lemma_int_cut(rest, m - n);
                    match decode_int(rest) {
                        Ok((id, k)) => {
                            if m - n >= k {
                                lemma_after_take(s, m, n + k);
                                let next = NameId { name: acc.name, id };
                                lemma_name_id_cut(1, next, after(s, n + k), m - n - k);
                                lemma_cut_shift(
                                    decode_name_id_from(1, next, after(s, n + k)),
                                    decode_name_id_from(1, next, after(s, n + k).take(m - n - k)),
                                    m,
                                    n + k,
                                );
                            }
                        },
                        Err(_) => {},
                    }
                }
            }
        },
        Err(_) => {},
    }
}

/// A (name, identifier) struct takes at least one byte.
pub proof fn lemma_name_id_min(idx: int, acc: NameId, s: Seq<u8>)
    ensures
        decode_name_id_from(idx, acc, s) matches Ok((_, n)) ==> n >= 1,
{
    lemma_decode_bounds(s);
}

/// A list of field descriptors takes at least one byte for each.
pub proof fn lemma_field_list_min(count: nat, acc: Seq<FieldTypeView>, s: Seq<u8>)
    ensures
        decode_field_list(count, acc, s) matches Ok((_, n)) ==> n >= count,
    decreases count,
{
    if count > 0 {
        lemma_name_id_min(-1, NameId { name: Seq::empty(), id: 0 }, s);
        match decode_name_id(s) {
            Ok((f, k)) => {
                lemma_field_list_min(
                    (count - 1) as nat,
                    acc.push(FieldTypeView { name: f.name, id: f.id }),
                    after(s, k),
                );
            },
            Err(_) => {},
        }
    }
}

/// A list of field descriptors on a front piece.
pub proof fn lemma_field_list_cut(count: nat, acc: Seq<FieldTypeView>, s: Seq<u8>, m: int)
    requires
        0 <= m <= s.len(),
    ensures
        cut_of(decode_field_list(count, acc, s), decode_field_list(count, acc, s.take(m)), m),
    decreases count,
{
    if count > 0 {
        let init = NameId { name: Seq::empty(), id: 0 };
        lemma_name_id_cut(-1, init, s, m);
        match decode_name_id(s) {
            Ok((f, k)) => {
                if m >= k {
                    lemma_after_take(s, m, k);
                    let next = acc.push(FieldTypeView { name: f.name, id: f.id });
                    lemma_field_list_cut((count - 1) as nat, next, after(s, k), m - k);
                    lemma_cut_shift(
                        decode_field_list((count - 1) as nat, next, after(s, k)),
                        decode_field_list((count - 1) as nat, next, after(s, k).take(m - k)),
                        m,
                        k,
                    );
                }
            },
            Err(_) => {},
        }
    }
}

/// A counted list of field descriptors on a front piece.
pub proof fn lemma_counted_fields_cut(s: Seq<u8>, m: int)
    requires
        0 <= m <= s.len(),
    ensures
        cut_of(decode_counted_fields(s), decode_counted_fields(s.take(m)), m),
{
    lemma_uvarint_cut(s, m);
    lemma_decode_bounds(s);
    match decode_uvarint(s) {
        Ok((count, n)) => {
            if m >= n && count <= after(s, n).len() {
                lemma_after_take(s, m, n);
                lemma_field_list_cut(count as nat, Seq::empty(), after(s, n), m - n);
                lemma_field_list_min(count as nat, Seq::empty(), after(s, n));
                lemma_cut_shift(
                    decode_field_list(count as nat, Seq::empty(), after(s, n)),
                    decode_field_list(count as nat, Seq::empty(), after(s, n).take(m - n)),
                    m,
                    n,
                );
            }
        },
        Err(_) => {},
    }
}

/// A struct descriptor on a front piece.
pub proof fn lemma_struct_type_cut(idx: int, acc: StructTypeView, s: Seq<u8>, m: int)
    requires
        0 <= m <= s.len(),
    ensures
        cut_of(
            decode_struct_type_from(idx, acc, s),
            decode_struct_type_from(idx, acc, s.take(m)),
            m,
        ),
    decreases s.len(),
{
    lemma_uvarint_cut(s, m);
    lemma_decode_bounds(s);
    match decode_uvarint(s) {
        Ok((delta, n)) => {
            if m >= n && delta != 0 {
                lemma_after_take(s, m, n);
                let rest = after(s, n);
                if idx + delta == 0 {
                    let init = NameId { name: Seq::empty(), id: 0 };
                    lemma_name_id_cut(-1, init, rest, m - n);
                    match decode_name_id(rest) {
                        Ok((c, k)) => {
                            if m - n >= k {
                                lemma_after_take(s, m, n + k);
                                let next = StructTypeView {
                                    common: CommonTypeView { name: c.name, id: c.id },
                                    fields: acc.fields,
                                };
                                lemma_struct_type_cut(0, next, after(s, n + k), m - n - k);
                                lemma_cut_shift(
                                    decode_struct_type_from(0, next, after(s, n + k)),
                                    decode_struct_type_from(
                                        0,
                                        next,
                                        after(s, n + k).take(m - n - k),
                                    ),
                                    m,
                                    n + k,
                                );
                            }
                        },
                        Err(_) => {},
                    }
                } else if idx + delta == 1 {
                    lemma_counted_fields_cut(rest, m - n);
                    match decode_counted_fields(rest) {
                        Ok((fields, k)) => {
                            if m - n >= k {
                                lemma_after_take(s, m, n + k);
                                let next = StructTypeView { common: acc.common, fields };
                                lemma_struct_type_cut(1, next, after(s, n + k), m - n - k);
                                lemma_cut_shift(
                                    decode_struct_type_from(1, next, after(s, n + k)),
                                    decode_struct_type_from(
                                        1,
                                        next,
                                        after(s, n + k).take(m - n - k),
                                    ),
                                    m,
                                    n + k,
                                );
                            }
                        },
                        Err(_) => {},
                    }
                }
            }
        },
        Err(_) => {},
    }
}

/// A map descriptor on a front piece.
pub proof fn lemma_map_type_cut(idx: int, acc: MapTypeView, s: Seq<u8>, m: int)
    requires
        0 <= m <= s.len(),
    ensures
        cut_of(decode_map_type_from(idx, acc, s), decode_map_type_from(idx, acc, s.take(m)), m),
    decreases s.len(),
{
    lemma_uvarint_cut(s, m);
    lemma_decode_bounds(s);
    match decode_uvarint(s) {
        Ok((delta, n)) => {
            if m >= n && delta != 0 {
                lemma_after_take(s, m, n);
                let rest = after(s, n);
                if idx + delta == 0 {
                    let init = NameId { name: Seq::empty(), id: 0 };
                    lemma_name_id_cut(-1, init, rest, m - n);
                    match decode_name_id(rest) {
                        Ok((c, k)) => {
                            if m - n >= k {
                                lemma_after_take(s, m, n + k);
                                let next = MapTypeView {
                                    common: CommonTypeView { name: c.name, id: c.id },
                                    key: acc.key,
                                    elem: acc.elem,
                                };
                                lemma_map_type_cut(0, next, after(s, n + k), m - n - k);
                                lemma_cut_shift(
                                    decode_map_type_from(0, next, after(s, n + k)),
                                    decode_map_type_from(0, next, after(s, n + k).take(m - n - k)),
                                    m,
                                    n + k,
                                );
                            }
                        },
                        Err(_) => {},
                    }
                } else if idx + delta == 1 || idx + delta == 2 {
                    lemma_int_cut(rest, m - n);
                    match decode_int(rest) {
                        Ok((x, k)) => {
                            if m - n >= k {
                                lemma_after_take(s, m, n + k);
                                let next = if idx + delta == 1 {
                                    MapTypeView { common: acc.common, key: x, elem: acc.elem }
                                } else {
                                    MapTypeView { common: acc.common, key: acc.key, elem: x }
                                };
                                lemma_map_type_cut(
                                    idx + delta,
                                    next,
                                    after(s, n + k),
                                    m - n - k,
                                );
                                lemma_cut_shift(
                                    decode_map_type_from(idx + delta, next, after(s, n + k)),
                                    decode_map_type_from(
                                        idx + delta,
                                        next,
                                        after(s, n + k).take(m - n - k),
                                    ),
                                    m,
                                    n + k,
                                );
                            }
                        },
                        Err(_) => {},
                    }
                }
            }
        },
        Err(_) => {},
    }
}

/// A type definition on a front piece.
pub proof fn lemma_wire_type_cut(s: Seq<u8>, m: int)
    requires
        0 <= m <= s.len(),
    ensures
        cut_of(decode_wire_type(s), decode_wire_type(s.take(m)), m),
{
    lemma_uvarint_cut(s, m);
    lemma_decode_bounds(s);
    match decode_uvarint(s) {
        Ok((delta, n)) => {
            if m >= n {
                lemma_after_take(s, m, n);
                let rest = after(s, n);
                if delta == 3 {
                    lemma_struct_type_cut(-1, crate::grammar::empty_struct_type(), rest, m - n);
                    match decode_struct_type(rest) {
                        Ok((t, k)) => {
                            if m - n >= k {
                                lemma_after_take(s, m, n + k);
                                lemma_uvarint_cut(after(s, n + k), m - n - k);
                            }
                        },
                        Err(_) => {},
                    }
                } else if delta == 4 {
                    lemma_map_type_cut(-1, crate::grammar::empty_map_type(), rest, m - n);
                    match decode_map_type(rest) {
                        Ok((t, k)) => {
                            if m - n >= k {
                                lemma_after_take(s, m, n + k);
                                lemma_uvarint_cut(after(s, n + k), m - n - k);
                            }
                        },
                        Err(_) => {},
                    }
                }
            }
        },
        Err(_) => {},
    }
}

/// [`cut_of`] for the outcome of reading a value.
pub open spec fn cut_step(
    whole: Result<ValueStep, GobError>,
    front: Result<ValueStep, GobError>,
    m: int,
) -> bool {
    match whole {
        Ok(step) => if m >= step.used {
            front == whole
        } else {
            front matches Err(e) && short(e)
        },
        Err(_) => true,
    }
}

/// Counting from further back changes nothing in how a front piece stands
/// to the whole.
pub proof fn lemma_cut_shift_step(
    whole: Result<ValueStep, GobError>,
    front: Result<ValueStep, GobError>,
    m: int,
    k: nat,
)
    requires
        cut_step(whole, front, m - k),
    ensures
        cut_step(shift_step(whole, k), shift_step(front, k), m),
{
}

/// A value takes at least one byte.
pub proof fn lemma_value_min(registry: RegistryView, schema: SchemaView, s: Seq<u8>)
    ensures
        decode_value(registry, schema, s) matches Ok(step) ==> step.used >= 1,
{
    reveal(decode_value);
    reveal(decode_fields);
    reveal(decode_entries);
    reveal(decode_interface);
    lemma_decode_bounds(s);
}

/// The entries of a map take at least one byte each.
pub proof fn lemma_entries_min(
    registry: RegistryView,
    key: SchemaView,
    elem: SchemaView,
    count: nat,
    acc: Seq<(ValueView, ValueView)>,
    s: Seq<u8>,
)
    ensures
        decode_entries(registry, key, elem, count, acc, s) matches Ok(step) ==> step.used
            >= count,
    decreases count,
{
    lemma_decode_entries_step(registry, key, elem, count, acc, s);
    if count > 0 {
        lemma_value_min(registry, key, s);
        match decode_value(registry, key, s) {
            Ok(k) => match decode_value(k.registry, elem, after(s, k.used)) {
                Ok(v) => {
                    lemma_entries_min(
                        v.registry,
                        key,
                        elem,
                        (count - 1) as nat,
                        dict_put(acc, k.value, v.value),
                        after(s, k.used + v.used),
                    );
                },
                Err(_) => {},
            },
            Err(_) => {},
        }
    }
}

/// The type of an interface value on a front piece.
pub proof fn lemma_concrete_cut(registry: RegistryView, s: Seq<u8>, m: int)
    requires
        0 <= m <= s.len(),
    ensures
        match decode_concrete(registry, s) {
            Ok(c) => if m >= c.used {
                decode_concrete(registry, s.take(m)) == decode_concrete(registry, s)
            } else {
                decode_concrete(registry, s.take(m)) matches Err(e) && short(e)
            },
            Err(_) => true,
        },
{
    lemma_int_cut(s, m);
    lemma_decode_bounds(s);
    match decode_int(s) {
        Ok((id, n)) => {
            if m >= n && id < 0 && id != i64::MIN {
                lemma_after_take(s, m, n);
                lemma_wire_type_cut(after(s, n), m - n);
            }
        },
        Err(_) => {},
    }
}

/// A value on a front piece.
pub proof fn lemma_value_cut(registry: RegistryView, schema: SchemaView, s: Seq<u8>, m: int)
    requires
        0 <= m <= s.len(),
    ensures
        cut_step(decode_value(registry, schema, s), decode_value(registry, schema, s.take(m)), m),
    decreases s.len(), 1nat, 0nat,
{
    reveal(decode_value);
    reveal(decode_fields);
    reveal(decode_entries);
    reveal(decode_interface);
    lemma_decode_bounds(s);
    match schema {
        SchemaView::Bool => {
            lemma_bool_cut(s, m);
        },
        SchemaView::Int => {
            lemma_int_cut(s, m);
        },
        SchemaView::Uint => {
            lemma_uvarint_cut(s, m);
        },
        SchemaView::Float => {
            lemma_float_cut(s, m);
        },
        SchemaView::String => {
            lemma_string_cut(s, m);
        },
        SchemaView::ByteSlice => {
            lemma_bytes_cut(s, m);
        },
        SchemaView::MapOf(t) => {
            lemma_uvarint_cut(s, m);
            match decode_uvarint(s) {
                Ok((count, n)) => {
                    if m >= n && count <= after(s, n).len() {
                        let key = lookup(registry.types, t.key);
                        let elem = lookup(registry.types, t.elem);
                        lemma_after_take(s, m, n);
                        lemma_entries_min(
                            registry,
                            key,
                            elem,
                            count as nat,
                            Seq::empty(),
                            after(s, n),
                        );
                        lemma_entries_cut(
                            registry,
                            key,
                            elem,
                            count as nat,
                            Seq::empty(),
                            after(s, n),
                            m - n,
                        );
                        lemma_cut_shift_step(
                            decode_entries(
                                registry,
                                key,
                                elem,
                                count as nat,
                                Seq::empty(),
                                after(s, n),
                            ),
                            decode_entries(
                                registry,
                                key,
                                elem,
                                count as nat,
                                Seq::empty(),
                                after(s, n).take(m - n),
                            ),
                            m,
                            n,
                        );
                    }
                },
                Err(_) => {},
            }
        },
        SchemaView::Struct(t) => {
            lemma_fields_cut(registry, t, -1, Seq::empty(), s, m);
        },
        SchemaView::Interface => {
            lemma_interface_cut(registry, s, m);
        },
        _ => {},
    }
}

/// The fields of a struct on a front piece.
pub proof fn lemma_fields_cut(
    registry: RegistryView,
    t: StructTypeView,
    idx: int,
    acc: Seq<(Seq<char>, ValueView)>,
    s: Seq<u8>,
    m: int,
)
    requires
        0 <= m <= s.len(),
    ensures
        cut_step(
            decode_fields(registry, t, idx, acc, s),
            decode_fields(registry, t, idx, acc, s.take(m)),
            m,
        ),
    decreases s.len(), 0nat, 0nat,
{
    lemma_decode_fields_step(registry, t, idx, acc, s);
    lemma_decode_fields_step(registry, t, idx, acc, s.take(m));
    lemma_uvarint_cut(s, m);
    lemma_decode_bounds(s);
    match decode_uvarint(s) {
        Ok((delta, n)) => {
            if m >= n && delta != 0 && idx + delta < t.fields.len() {
                let f = t.fields[idx + delta];
                if registry.types.contains_key(f.id) {
                    lemma_after_take(s, m, n);
                    let schema = registry.types[f.id];
                    lemma_value_cut(registry, schema, after(s, n), m - n);
                    match decode_value(registry, schema, after(s, n)) {
                        Ok(step) => {
                            if m - n >= step.used {
                                let k = n + step.used;
                                let next = named_put(acc, f.name, step.value);
                                lemma_after_take(s, m, k);
                                lemma_fields_cut(
                                    step.registry,
                                    t,
                                    idx + delta,
                                    next,
                                    after(s, k),
                                    m - k,
                                );
                                lemma_cut_shift_step(
                                    decode_fields(step.registry, t, idx + delta, next, after(s, k)),
                                    decode_fields(
                                        step.registry,
                                        t,
                                        idx + delta,
                                        next,
                                        after(s, k).take(m - k),
                                    ),
                                    m,
                                    k,
                                );
                            }
                        },
                        Err(_) => {},
                    }
                }
            }
        },
        Err(_) => {},
    }
}

/// The entries of a map on a front piece.
pub proof fn lemma_entries_cut(
    registry: RegistryView,
    key: SchemaView,
    elem: SchemaView,
    count: nat,
    acc: Seq<(ValueView, ValueView)>,
    s: Seq<u8>,
    m: int,
)
    requires
        0 <= m <= s.len(),
    ensures
        cut_step(
            decode_entries(registry, key, elem, count, acc, s),
            decode_entries(registry, key, elem, count, acc, s.take(m)),
            m,
        ),
    decreases s.len(), 2nat, count,
{
    lemma_decode_entries_step(registry, key, elem, count, acc, s);
    lemma_decode_entries_step(registry, key, elem, count, acc, s.take(m));
    if count > 0 {
        lemma_value_cut(registry, key, s, m);
        match decode_value(registry, key, s) {
            Ok(k) => {
                if m >= k.used {
                    lemma_after_take(s, m, k.used);
                    lemma_value_cut(k.registry, elem, after(s, k.used), m - k.used);
                    match decode_value(k.registry, elem, after(s, k.used)) {
                        Ok(v) => {
                            if m - k.used >= v.used {
                                let n = k.used + v.used;
                                let next = dict_put(acc, k.value, v.value);
                                lemma_after_take(s, m, n);
                                lemma_entries_cut(
                                    v.registry,
                                    key,
                                    elem,
                                    (count - 1) as nat,
                                    next,
                                    after(s, n),
                                    m - n,
                                );
                                lemma_cut_shift_step(
                                    decode_entries(
                                        v.registry,
                                        key,
                                        elem,
                                        (count - 1) as nat,
                                        next,
                                        after(s, n),
                                    ),
                                    decode_entries(
                                        v.registry,
                                        key,
                                        elem,
                                        (count - 1) as nat,
                                        next,
                                        after(s, n).take(m - n),
                                    ),
                                    m,
                                    n,
                                );
                            }
                        },
                        Err(_) => {},
                    }
                }
            },
            Err(_) => {},
        }
    }
}

/// An interface value on a front piece.
pub proof fn lemma_interface_cut(registry: RegistryView, s: Seq<u8>, m: int)
    requires
        0 <= m <= s.len(),
    ensures
        cut_step(decode_interface(registry, s), decode_interface(registry, s.take(m)), m),
    decreases s.len(), 0nat, 0nat,
{
    lemma_decode_interface_step(registry, s);
    lemma_decode_interface_step(registry, s.take(m));
    lemma_string_cut(s, m);
    lemma_decode_bounds(s);
    match decode_string(s) {
        Ok((name, n)) => {
            if m >= n && name.len() != 0 {
                lemma_after_take(s, m, n);
                lemma_concrete_cut(registry, after(s, n), m - n);
                match decode_concrete(registry, after(s, n)) {
                    Ok(c) => {
                        if m - n >= c.used {
                            let n2 = n + c.used;
                            lemma_after_take(s, m, n2);
                            lemma_uvarint_cut(after(s, n2), m - n2);
                            match decode_uvarint(after(s, n2)) {
                                Ok((len, k)) => {
                                    let p = n2 + k;
                                    if m >= p && after(s, p).len() > 0
                                        && c.registry.types.contains_key(c.id) {
                                        lemma_after_take(s, m, p);
                                        let q = if after(s, p)[0] == 0 {
                                            p + 1
                                        } else {
                                            p
                                        };
                                        let schema = c.registry.types[c.id];
                                        lemma_value_min(c.registry, schema, after(s, q));
                                        if m > p {
                                            assert(after(s, p).take(m - p)[0] == after(s, p)[0]);
                                            lemma_after_take(s, m, q);
                                            lemma_value_cut(c.registry, schema, after(s, q), m - q);
                                            lemma_cut_shift_step(
                                                decode_value(c.registry, schema, after(s, q)),
                                                decode_value(
                                                    c.registry,
                                                    schema,
                                                    after(s, q).take(m - q),
                                                ),
                                                m,
                                                q,
                                            );
                                        }
                                    }
                                },
                                Err(_) => {},
                            }
                        }
                    },
                    Err(_) => {},
                }
            }
        },
        Err(_) => {},
    }
}

/// Whether `frame` is one value message, whole and no more, whose value
/// takes all of its body and is read by `registry`.
pub open spec fn exact_message(registry: RegistryView, frame: Seq<u8>) -> bool {
    &&& decode_header(frame) matches Ok(h)
    &&& h.id >= 0
    &&& !h.cut
    &&& h.end == frame.len()
    &&& registry.types.contains_key(h.id)
    &&& decode_value(
        registry,
        registry.types[h.id],
        frame.subrange(h.body as int, h.end as int),
    ) matches Ok(step)
    &&& step.used == h.end - h.body
}

/// The number of bytes in the body of a message.
pub open spec fn body_len(frame: Seq<u8>) -> int {
    match decode_header(frame) {
        Ok(h) => h.end - h.body,
        Err(_) => 0,
    }
}

/// The header of a message whose body is cut short reads as before, but
/// for the end of the message, which is the end of the source now.
pub proof fn lemma_header_cut(frame: Seq<u8>, k: int)
    requires
        decode_header(frame) matches Ok(h) && !h.cut && h.end == frame.len(),
        1 <= k <= body_len(frame),
    ensures
        decode_header(frame.take(frame.len() - k)) == Ok::<Header, GobError>(
            Header {
                id: decode_header(frame)->Ok_0.id,
                body: decode_header(frame)->Ok_0.body,
                end: (frame.len() - k) as nat,
                cut: true,
            },
        ),
{
    let h = decode_header(frame)->Ok_0;
    let (len, n) = decode_length(frame)->Ok_0;
    let l = frame.len() - k;
    let front = frame.take(l);
    let window = frame.subrange(n as int, h.end as int);
    lemma_decode_bounds(window);
    if frame[0] >= 128 {
        assert(front.subrange(1, n as int) =~= frame.subrange(1, n as int));
    }
    assert(decode_length(front) == decode_length(frame));
    assert(front.subrange(n as int, l) =~= window.take(l - n));
    lemma_int_cut(window, l - n);
}

/// A message that is cut short is not read.
///
/// Take one value message, whole, whose value takes all of its body. Remove
/// bytes from its end: one, or more, as long as the length and the
/// identifier in front stay whole. Reading the value fails then. The error
/// is a truncated message, or it is invalid data: where the bytes stop
/// inside an integer of more than one byte, and where they are fewer than a
/// count that was read announces.
pub proof fn law_cut_message_fails(registry: RegistryView, frame: Seq<u8>, k: int)
    requires
        exact_message(registry, frame),
        1 <= k <= body_len(frame),
    ensures
        next_value(registry, frame.take(frame.len() - k)) matches Err(e) && short(e),
{
    let h = decode_header(frame)->Ok_0;
    let l = frame.len() - k;
    let front = frame.take(l);
    let body = frame.subrange(h.body as int, h.end as int);
    lemma_header_cut(frame, k);
    crate::grammar::lemma_header_bounds(frame);
    let schema = registry.types[h.id];
    lemma_value_cut(registry, schema, body, body.len() - k);
    assert(front.subrange(h.body as int, l) =~= body.take(body.len() - k));
    reveal(next_message);
}

/// A value takes at least one byte of the body of its message.
pub proof fn lemma_exact_message_body(registry: RegistryView, frame: Seq<u8>)
    requires
        exact_message(registry, frame),
    ensures
        body_len(frame) >= 1,
{
    let h = decode_header(frame)->Ok_0;
    lemma_value_min(
        registry,
        registry.types[h.id],
        frame.subrange(h.body as int, h.end as int),
    );
}

/// The last byte of a message is needed: without it, the value is not
/// read.
pub proof fn law_last_byte_is_needed(registry: RegistryView, frame: Seq<u8>)
    requires
        exact_message(registry, frame),
    ensures
        next_value(registry, frame.drop_last()) matches Err(e) && short(e),
{
    lemma_exact_message_body(registry, frame);
    law_cut_message_fails(registry, frame, 1);
    assert(frame.take(frame.len() - 1) =~= frame.drop_last());
}

} // verus!
