//! Laws of the stream: what holds of every source and every registry.

use crate::error::GobError;
use crate::grammar::{
    after, decode_concrete, decode_entries, decode_fields, decode_header, decode_interface,
    decode_length, decode_value, decode_wire_type, define, lemma_header_bounds,
    lemma_next_message_rest, next_message, next_value, Arrival, Delivery, Message,
};
use crate::schema::{lookup, register, RegistryView, SchemaView};
use crate::types::StructTypeView;
use crate::value::{dict_put, named_put, ValueView};
use crate::wire::{decode_int, decode_string, decode_uvarint, lemma_decode_bounds};
use vstd::prelude::*;

verus! {

/// The registry that a stream leaves when all its values are read.
pub open spec fn replay(registry: RegistryView, stream: Seq<u8>) -> Result<RegistryView, GobError>
    decreases stream.len(),
{
    match next_value(registry, stream) {
        Err(e) => Err(e),
        Ok(d) => if d.value is None {
            Ok(d.registry)
        } else {
            proof {
                lemma_next_message_rest(registry, stream);
            }
            replay(d.registry, d.rest)
        },
    }
}

/// A header that the source holds to the end of its message reads the same
/// whatever follows the message.
pub proof fn lemma_header_append(p: Seq<u8>, q: Seq<u8>)
    requires
        decode_header(p) matches Ok(h) && !h.cut,
    ensures
        decode_header(p + q) == decode_header(p),
{
    let h = decode_header(p)->Ok_0;
    let (len, n) = decode_length(p)->Ok_0;
    if p[0] >= 128 {
        assert((p + q).subrange(1, n as int) =~= p.subrange(1, n as int));
    }
    assert(decode_length(p + q) == decode_length(p));
    assert((p + q).subrange(n as int, h.end as int) =~= p.subrange(n as int, h.end as int));
}

/// Going to the next message in a stream that continues: a message that
/// the first piece holds whole is arrived at as before, and from the end of
/// the first piece the search goes on in the second.
pub proof fn lemma_next_message_append(registry: RegistryView, p: Seq<u8>, q: Seq<u8>)
    requires
        next_message(registry, p) matches Ok(a) && (a.message matches Some(m) ==> !m.cut),
    ensures
        next_message(registry, p + q) == (match next_message(registry, p)->Ok_0.message {
            None => next_message(next_message(registry, p)->Ok_0.registry, q),
            Some(m) => Ok(
                Arrival {
                    registry: next_message(registry, p)->Ok_0.registry,
                    message: Some(Message { rest: m.rest + q, ..m }),
                },
            ),
        }),
    decreases p.len(),
{
    reveal(next_message);
    if p.len() == 0 {
        assert(p + q =~= q);
    } else {
        lemma_header_bounds(p);
        let h = decode_header(p)->Ok_0;
        let body = p.subrange(h.body as int, h.end as int);
        let rest = p.skip(h.end as int);
        if h.id >= 0 {
            lemma_header_append(p, q);
            assert((p + q).subrange(h.body as int, h.end as int) =~= body);
            assert((p + q).skip(h.end as int) =~= rest + q);
        } else {
            let defined = define(registry, h.id, body)->Ok_0;
            assert(!h.cut);
            lemma_header_append(p, q);
            assert((p + q).subrange(h.body as int, h.end as int) =~= body);
            assert((p + q).skip(h.end as int) =~= rest + q);
            lemma_next_message_append(defined, rest, q);
        }
    }
}

/// Reading the next value of a stream that continues: a value that the
/// first piece holds is read as before, and from the end of the first piece
/// the reading goes on in the second.
pub proof fn lemma_next_value_append(registry: RegistryView, p: Seq<u8>, q: Seq<u8>)
    requires
        next_value(registry, p) is Ok,
    ensures
        next_value(registry, p + q) == (match next_value(registry, p)->Ok_0.value {
            None => next_value(next_value(registry, p)->Ok_0.registry, q),
            Some(v) => Ok(
                Delivery {
                    value: Some(v),
                    rest: next_value(registry, p)->Ok_0.rest + q,
                    registry: next_value(registry, p)->Ok_0.registry,
                },
            ),
        }),
{
    lemma_next_message_append(registry, p, q);
}

/// Replaying a stream as far as a piece of it goes, and the rest from the
/// registry that this left, is replaying the whole: the registry at the end
/// of a piece does not depend on what follows it.
pub proof fn law_replay_in_pieces(registry: RegistryView, p: Seq<u8>, q: Seq<u8>)
    requires
        replay(registry, p) is Ok,
    ensures
        replay(registry, p + q) == replay(replay(registry, p)->Ok_0, q),
    decreases p.len(),
{
    lemma_next_value_append(registry, p, q);
    let d = next_value(registry, p)->Ok_0;
    if d.value is Some {
        lemma_next_message_rest(registry, p);
        law_replay_in_pieces(d.registry, d.rest, q);
    }
}

/// Whether `b` holds every type of `a` under the same identifier, and has
/// the same cap.
pub open spec fn extends(a: RegistryView, b: RegistryView) -> bool {
    &&& b.limit == a.limit
    &&& forall|id: i64| #[trigger]
        a.types.contains_key(id) ==> b.types.contains_key(id) && b.types[id] == a.types[id]
}

/// Registering a type leaves every other binding as it was.
pub proof fn lemma_register_extends(registry: RegistryView, id: i64, schema: SchemaView)
    ensures
        register(registry, id, schema) matches Ok(r) ==> extends(registry, r),
{
}

/// A definition leaves every other binding as it was.
pub proof fn lemma_define_extends(registry: RegistryView, id: i64, body: Seq<u8>)
    ensures
        define(registry, id, body) matches Ok(r) ==> extends(registry, r),
{
    match decode_wire_type(body) {
        Ok((schema, _)) => {
            lemma_register_extends(registry, (-id) as i64, schema);
        },
        Err(_) => {},
    }
}

/// The type of an interface value, with its definition where it has one,
/// leaves every other binding as it was.
pub proof fn lemma_concrete_extends(registry: RegistryView, s: Seq<u8>)
    ensures
        decode_concrete(registry, s) matches Ok(c) ==> extends(registry, c.registry),
{
    match decode_int(s) {
        Ok((id, n)) => {
            match decode_wire_type(after(s, n)) {
                Ok((schema, _)) => {
                    lemma_register_extends(registry, (-id) as i64, schema);
                },
                Err(_) => {},
            }
        },
        Err(_) => {},
    }
}

/// Extending is transitive.
pub proof fn lemma_extends_trans(a: RegistryView, b: RegistryView, c: RegistryView)
    requires
        extends(a, b),
        extends(b, c),
    ensures
        extends(a, c),
{
    assert forall|id: i64| #[trigger] a.types.contains_key(id) implies c.types.contains_key(id)
        && c.types[id] == a.types[id] by {
        assert(b.types.contains_key(id));
    }
}

/// Reading a value only adds to the registry.
pub proof fn lemma_decode_value_extends(registry: RegistryView, schema: SchemaView, s: Seq<u8>)
    ensures
        decode_value(registry, schema, s) matches Ok(step) ==> extends(registry, step.registry),
    decreases s.len(), 1nat, 0nat,
{
    reveal(decode_value);
    reveal(decode_fields);
    reveal(decode_entries);
    reveal(decode_interface);
    lemma_decode_bounds(s);
    match schema {
        SchemaView::MapOf(m) => {
            match decode_uvarint(s) {
                Ok((count, n)) => {
                    lemma_decode_entries_extends(
                        registry,
                        lookup(registry.types, m.key),
                        lookup(registry.types, m.elem),
                        count as nat,
                        Seq::empty(),
                        after(s, n),
                    );
                },
                Err(_) => {},
            }
        },
        SchemaView::Struct(t) => {
            lemma_decode_fields_extends(registry, t, -1, Seq::empty(), s);
        },
        SchemaView::Interface => {
            lemma_decode_interface_extends(registry, s);
        },
        _ => {},
    }
}

/// Reading the fields of a struct only adds to the registry.
pub proof fn lemma_decode_fields_extends(
    registry: RegistryView,
    t: StructTypeView,
    idx: int,
    acc: Seq<(Seq<char>, ValueView)>,
    s: Seq<u8>,
)
    ensures
        decode_fields(registry, t, idx, acc, s) matches Ok(step) ==> extends(
            registry,
            step.registry,
        ),
    decreases s.len(), 0nat, 0nat,
{
    reveal(decode_value);
    reveal(decode_fields);
    lemma_decode_bounds(s);
    match decode_uvarint(s) {
        Ok((delta, n)) => {
            if delta != 0 && idx + delta < t.fields.len() {
                let f = t.fields[idx + delta];
                if registry.types.contains_key(f.id) {
                    lemma_decode_value_extends(registry, registry.types[f.id], after(s, n));
                    match decode_value(registry, registry.types[f.id], after(s, n)) {
                        Ok(step) => {
                            lemma_decode_fields_extends(
                                step.registry,
                                t,
                                idx + delta,
                                named_put(acc, f.name, step.value),
                                after(s, n + step.used),
                            );
                        },
                        Err(_) => {},
                    }
                }
            }
        },
        Err(_) => {},
    }
}

/// Reading the entries of a map only adds to the registry.
pub proof fn lemma_decode_entries_extends(
    registry: RegistryView,
    key: SchemaView,
    elem: SchemaView,
    count: nat,
    acc: Seq<(ValueView, ValueView)>,
    s: Seq<u8>,
)
    ensures
        decode_entries(registry, key, elem, count, acc, s) matches Ok(step) ==> extends(
            registry,
            step.registry,
        ),
    decreases s.len(), 2nat, count,
{
    reveal(decode_value);
    reveal(decode_entries);
    if count > 0 {
        lemma_decode_value_extends(registry, key, s);
        match decode_value(registry, key, s) {
            Ok(k) => {
                lemma_decode_value_extends(k.registry, elem, after(s, k.used));
                match decode_value(k.registry, elem, after(s, k.used)) {
                    Ok(v) => {
                        lemma_decode_entries_extends(
                            v.registry,
                            key,
                            elem,
                            (count - 1) as nat,
                            dict_put(acc, k.value, v.value),
                            after(s, k.used + v.used),
                        );
                    },
                    Err(_) => {},
                }
            },
            Err(_) => {},
        }
    }
}

/// Reading an interface value only adds to the registry.
pub proof fn lemma_decode_interface_extends(registry: RegistryView, s: Seq<u8>)
    ensures
        decode_interface(registry, s) matches Ok(step) ==> extends(registry, step.registry),
    decreases s.len(), 0nat, 0nat,
{
    reveal(decode_value);
    reveal(decode_interface);
    lemma_decode_bounds(s);
    match decode_string(s) {
        Ok((name, n)) => {
            if name.len() != 0 {
                lemma_concrete_extends(registry, after(s, n));
                match decode_concrete(registry, after(s, n)) {
                    Ok(c) => {
                        match decode_uvarint(after(s, n + c.used)) {
                            Ok((len, m)) => {
                                let p = n + c.used + m;
                                if after(s, p).len() > 0 && c.registry.types.contains_key(c.id) {
                                    let q = if after(s, p)[0] == 0 {
                                        p + 1
                                    } else {
                                        p
                                    };
                                    lemma_decode_value_extends(
                                        c.registry,
                                        c.registry.types[c.id],
                                        after(s, q),
                                    );
                                    match decode_value(
                                        c.registry,
                                        c.registry.types[c.id],
                                        after(s, q),
                                    ) {
                                        Ok(step) => {
                                            lemma_extends_trans(
                                                registry,
                                                c.registry,
                                                step.registry,
                                            );
                                        },
                                        Err(_) => {},
                                    }
                                }
                            },
                            Err(_) => {},
                        }
                    },
                    Err(_) => {},
                }
            }
        },
        Err(_) => {},
    }
}

/// Going to the next message only adds to the registry.
pub proof fn lemma_next_message_extends(registry: RegistryView, stream: Seq<u8>)
    ensures
        next_message(registry, stream) matches Ok(a) ==> extends(registry, a.registry),
    decreases stream.len(),
{
    reveal(next_message);
    if stream.len() > 0 {
        lemma_header_bounds(stream);
        match decode_header(stream) {
            Ok(h) => {
                if h.id < 0 && !h.cut {
                    let body = stream.subrange(h.body as int, h.end as int);
                    lemma_define_extends(registry, h.id, body);
                    match define(registry, h.id, body) {
                        Ok(defined) => {
                            lemma_next_message_extends(defined, stream.skip(h.end as int));
                            match next_message(defined, stream.skip(h.end as int)) {
                                Ok(a) => {
                                    lemma_extends_trans(registry, defined, a.registry);
                                },
                                Err(_) => {},
                            }
                        },
                        Err(_) => {},
                    }
                }
            },
            Err(_) => {},
        }
    }
}

/// The registry only grows: whatever a stream holds, a type that is
/// registered stays registered, under its identifier and as it is, after any
/// value is read.
pub proof fn law_registry_grows(registry: RegistryView, stream: Seq<u8>)
    ensures
        next_value(registry, stream) matches Ok(d) ==> extends(registry, d.registry),
{
    lemma_next_message_extends(registry, stream);
    match next_message(registry, stream) {
        Ok(a) => match a.message {
            Some(m) => {
                if a.registry.types.contains_key(m.id) {
                    lemma_decode_value_extends(a.registry, a.registry.types[m.id], m.body);
                }
            },
            None => {},
        },
        Err(_) => {},
    }
}

/// The registry only grows over a whole stream, too.
pub proof fn law_replay_grows(registry: RegistryView, stream: Seq<u8>)
    ensures
        replay(registry, stream) matches Ok(r) ==> extends(registry, r),
    decreases stream.len(),
{
    law_registry_grows(registry, stream);
    match next_value(registry, stream) {
        Ok(d) => {
            if d.value is Some {
                lemma_next_message_rest(registry, stream);
                law_replay_grows(d.registry, d.rest);
            }
        },
        Err(_) => {},
    }
}

} // verus!
