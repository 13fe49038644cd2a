//! The canonical order of values is a strict total order, and what is read
//! is in that order.

use crate::grammar::{
    after, decode_concrete, decode_entries, decode_fields, decode_interface, decode_value,
    lemma_decode_entries_step, lemma_decode_fields_step, lemma_decode_interface_step,
};
use crate::schema::{lookup, RegistryView, SchemaView};
use crate::types::StructTypeView;
use crate::value::{
    bytes_lt_from, canonical, canonical_entries, canonical_fields, dict_put, dict_slot,
    entries_lt, fields_lt, items_lt,
    lemma_utf8_injective, named_put, named_slot, rank, str_lt, value_lt, ValueView,
};
use crate::wire::{decode_string, decode_uvarint, lemma_decode_bounds};
use vstd::prelude::*;

verus! {

/// No byte string comes before itself.
pub proof fn lemma_bytes_lt_irreflexive(a: Seq<u8>, i: int)
    ensures
        !bytes_lt_from(a, a, i),
    decreases a.len() - i,
{
    if 0 <= i < a.len() {
        lemma_bytes_lt_irreflexive(a, i + 1);
    }
}

/// No list of values comes before itself.
pub proof fn lemma_items_lt_irreflexive(a: Seq<ValueView>, i: int)
    ensures
        !items_lt(a, a, i),
    decreases a.len() - i,
{
    if 0 <= i < a.len() {
        lemma_items_lt_irreflexive(a, i + 1);
    }
}

/// No list of entries comes before itself.
pub proof fn lemma_entries_lt_irreflexive(a: Seq<(ValueView, ValueView)>, i: int)
    ensures
        !entries_lt(a, a, i),
    decreases a.len() - i,
{
    if 0 <= i < a.len() {
        lemma_entries_lt_irreflexive(a, i + 1);
    }
}

/// No list of fields comes before itself.
pub proof fn lemma_fields_lt_irreflexive(a: Seq<(Seq<char>, ValueView)>, i: int)
    ensures
        !fields_lt(a, a, i),
    decreases a.len() - i,
{
    if 0 <= i < a.len() {
        lemma_fields_lt_irreflexive(a, i + 1);
    }
}

/// No value comes before itself in the canonical order.
pub proof fn law_value_lt_irreflexive(v: ValueView)
    ensures
        !value_lt(v, v),
{
    match v {
        ValueView::String(s) => {
            lemma_bytes_lt_irreflexive(vstd::utf8::encode_utf8(s), 0);
        },
        ValueView::Bytes(b) => {
            lemma_bytes_lt_irreflexive(b, 0);
        },
        ValueView::Array(x) => {
            lemma_items_lt_irreflexive(x, 0);
        },
        ValueView::Dict(x) => {
            lemma_entries_lt_irreflexive(x, 0);
        },
        ValueView::Struct(_, x) => {
            lemma_fields_lt_irreflexive(x, 0);
        },
        _ => {},
    }
}

/// Of two byte strings that are the same up to index `i` and differ, one
/// comes before the other.
pub proof fn lemma_bytes_lt_total(a: Seq<u8>, b: Seq<u8>, i: int)
    requires
        0 <= i,
        forall|j: int| 0 <= j < i && j < a.len() && j < b.len() ==> a[j] == b[j],
        i <= a.len(),
        i <= b.len(),
        a != b,
    ensures
        bytes_lt_from(a, b, i) || bytes_lt_from(b, a, i),
    decreases a.len() + b.len() - i,
{
    if i < a.len() && i < b.len() {
        if a[i] == b[i] {
            lemma_bytes_lt_total(a, b, i + 1);
        }
    } else if i >= a.len() && i >= b.len() {
        assert(a =~= b);
    }
}

/// Coming before is transitive among byte strings.
pub proof fn lemma_bytes_lt_trans(a: Seq<u8>, b: Seq<u8>, c: Seq<u8>, i: int)
    requires
        bytes_lt_from(a, b, i),
        bytes_lt_from(b, c, i),
    ensures
        bytes_lt_from(a, c, i),
    decreases a.len() - i,
{
    if i < a.len() && a[i] == b[i] && b[i] == c[i] {
        lemma_bytes_lt_trans(a, b, c, i + 1);
    }
}

/// Of two different texts, one comes before the other.
pub proof fn lemma_str_lt_total(a: Seq<char>, b: Seq<char>)
    requires
        a != b,
    ensures
        str_lt(a, b) || str_lt(b, a),
{
    let x = vstd::utf8::encode_utf8(a);
    let y = vstd::utf8::encode_utf8(b);
    if x == y {
        lemma_utf8_injective(a, b);
    }
    lemma_bytes_lt_total(x, y, 0);
}

/// Coming before is transitive among texts.
pub proof fn lemma_str_lt_trans(a: Seq<char>, b: Seq<char>, c: Seq<char>)
    requires
        str_lt(a, b),
        str_lt(b, c),
    ensures
        str_lt(a, c),
{
    lemma_bytes_lt_trans(
        vstd::utf8::encode_utf8(a),
        vstd::utf8::encode_utf8(b),
        vstd::utf8::encode_utf8(c),
        0,
    );
}

/// Of two different values, one comes before the other.
pub proof fn law_value_lt_total(a: ValueView, b: ValueView)
    requires
        a != b,
    ensures
        value_lt(a, b) || value_lt(b, a),
    decreases a, 1nat, 0nat,
{
    if rank(a) == rank(b) {
        match (a, b) {
            (ValueView::String(x), ValueView::String(y)) => {
                lemma_str_lt_total(x, y);
            },
            (ValueView::Bytes(x), ValueView::Bytes(y)) => {
                lemma_bytes_lt_total(x, y, 0);
            },
            (ValueView::Array(x), ValueView::Array(y)) => {
                lemma_items_lt_total(x, y, 0);
            },
            (ValueView::Dict(x), ValueView::Dict(y)) => {
                lemma_entries_lt_total(x, y, 0);
            },
            (ValueView::Struct(n, x), ValueView::Struct(m, y)) => {
                if n != m {
                    lemma_str_lt_total(n, m);
                } else {
                    lemma_fields_lt_total(x, y, 0);
                }
            },
            _ => {},
        }
    }
}

/// Of two lists of values that are the same up to index `i` and differ,
/// one comes before the other.
pub proof fn lemma_items_lt_total(a: Seq<ValueView>, b: Seq<ValueView>, i: int)
    requires
        0 <= i,
        forall|j: int| 0 <= j < i && j < a.len() && j < b.len() ==> a[j] == b[j],
        i <= a.len(),
        i <= b.len(),
        a != b,
    ensures
        items_lt(a, b, i) || items_lt(b, a, i),
    decreases a, 0nat, a.len() + b.len() - i,
{
    if i < a.len() && i < b.len() {
        if a[i] == b[i] {
            lemma_items_lt_total(a, b, i + 1);
        } else {
            law_value_lt_total(a[i], b[i]);
        }
    } else if i >= a.len() && i >= b.len() {
        assert(a =~= b);
    }
}

/// Of two lists of entries that are the same up to index `i` and differ,
/// one comes before the other.
pub proof fn lemma_entries_lt_total(
    a: Seq<(ValueView, ValueView)>,
    b: Seq<(ValueView, ValueView)>,
    i: int,
)
    requires
        0 <= i,
        forall|j: int| 0 <= j < i && j < a.len() && j < b.len() ==> a[j] == b[j],
        i <= a.len(),
        i <= b.len(),
        a != b,
    ensures
        entries_lt(a, b, i) || entries_lt(b, a, i),
    decreases a, 0nat, a.len() + b.len() - i,
{
    if i < a.len() && i < b.len() {
        if a[i].0 != b[i].0 {
            law_value_lt_total(a[i].0, b[i].0);
        } else if a[i].1 != b[i].1 {
            law_value_lt_total(a[i].1, b[i].1);
        } else {
            lemma_entries_lt_total(a, b, i + 1);
        }
    } else if i >= a.len() && i >= b.len() {
        assert(a =~= b);
    }
}

/// Of two lists of fields that are the same up to index `i` and differ,
/// one comes before the other.
pub proof fn lemma_fields_lt_total(
    a: Seq<(Seq<char>, ValueView)>,
    b: Seq<(Seq<char>, ValueView)>,
    i: int,
)
    requires
        0 <= i,
        forall|j: int| 0 <= j < i && j < a.len() && j < b.len() ==> a[j] == b[j],
        i <= a.len(),
        i <= b.len(),
        a != b,
    ensures
        fields_lt(a, b, i) || fields_lt(b, a, i),
    decreases a, 0nat, a.len() + b.len() - i,
{
    if i < a.len() && i < b.len() {
        if a[i].0 != b[i].0 {
            lemma_str_lt_total(a[i].0, b[i].0);
        } else if a[i].1 != b[i].1 {
            law_value_lt_total(a[i].1, b[i].1);
        } else {
            lemma_fields_lt_total(a, b, i + 1);
        }
    } else if i >= a.len() && i >= b.len() {
        assert(a =~= b);
    }
}

/// Coming before is transitive among values.
pub proof fn law_value_lt_transitive(a: ValueView, b: ValueView, c: ValueView)
    requires
        value_lt(a, b),
        value_lt(b, c),
    ensures
        value_lt(a, c),
    decreases a, 1nat, 0nat,
{
    if rank(a) == rank(b) && rank(b) == rank(c) {
        match (a, b, c) {
            (ValueView::String(x), ValueView::String(y), ValueView::String(z)) => {
                lemma_str_lt_trans(x, y, z);
            },
            (ValueView::Bytes(x), ValueView::Bytes(y), ValueView::Bytes(z)) => {
                lemma_bytes_lt_trans(x, y, z, 0);
            },
            (ValueView::Array(x), ValueView::Array(y), ValueView::Array(z)) => {
                lemma_items_lt_trans(x, y, z, 0);
            },
            (ValueView::Dict(x), ValueView::Dict(y), ValueView::Dict(z)) => {
                lemma_entries_lt_trans(x, y, z, 0);
            },
            (ValueView::Struct(n, x), ValueView::Struct(m, y), ValueView::Struct(l, z)) => {
                if n != m && m != l {
                    lemma_str_lt_trans(n, m, l);
                    lemma_bytes_lt_irreflexive(vstd::utf8::encode_utf8(n), 0);
                } else if n == m && m == l {
                    lemma_fields_lt_trans(x, y, z, 0);
                }
            },
            _ => {},
        }
    }
}

/// A value that comes before another is not that other.
pub proof fn lemma_value_lt_apart(a: ValueView, b: ValueView)
    requires
        value_lt(a, b),
    ensures
        a != b,
{
    law_value_lt_irreflexive(a);
}

/// Coming before is transitive among lists of values.
pub proof fn lemma_items_lt_trans(a: Seq<ValueView>, b: Seq<ValueView>, c: Seq<ValueView>, i: int)
    requires
        items_lt(a, b, i),
        items_lt(b, c, i),
    ensures
        items_lt(a, c, i),
    decreases a, 0nat, a.len() - i,
{
    if i < a.len() {
        if a[i] == b[i] && b[i] == c[i] {
            lemma_items_lt_trans(a, b, c, i + 1);
        } else if a[i] != b[i] && b[i] != c[i] {
            law_value_lt_transitive(a[i], b[i], c[i]);
            lemma_value_lt_apart(a[i], c[i]);
        }
    }
}

/// Coming before is transitive among lists of entries.
pub proof fn lemma_entries_lt_trans(
    a: Seq<(ValueView, ValueView)>,
    b: Seq<(ValueView, ValueView)>,
    c: Seq<(ValueView, ValueView)>,
    i: int,
)
    requires
        entries_lt(a, b, i),
        entries_lt(b, c, i),
    ensures
        entries_lt(a, c, i),
    decreases a, 0nat, a.len() - i,
{
    if i < a.len() {
        let (ak, av) = a[i];
        let (bk, bv) = b[i];
        let (ck, cv) = c[i];
        if ak != bk && bk != ck {
            law_value_lt_transitive(ak, bk, ck);
            lemma_value_lt_apart(ak, ck);
        } else if ak == bk && bk == ck {
            if av != bv && bv != cv {
                law_value_lt_transitive(av, bv, cv);
                lemma_value_lt_apart(av, cv);
            } else if av == bv && bv == cv {
                lemma_entries_lt_trans(a, b, c, i + 1);
            }
        } else if ak != bk {
            lemma_value_lt_apart(ak, bk);
        } else {
            lemma_value_lt_apart(bk, ck);
        }
    }
}

/// Coming before is transitive among lists of fields.
pub proof fn lemma_fields_lt_trans(
    a: Seq<(Seq<char>, ValueView)>,
    b: Seq<(Seq<char>, ValueView)>,
    c: Seq<(Seq<char>, ValueView)>,
    i: int,
)
    requires
        fields_lt(a, b, i),
        fields_lt(b, c, i),
    ensures
        fields_lt(a, c, i),
    decreases a, 0nat, a.len() - i,
{
    if i < a.len() {
        let (ak, av) = a[i];
        let (bk, bv) = b[i];
        let (ck, cv) = c[i];
        if ak != bk && bk != ck {
            lemma_str_lt_trans(ak, bk, ck);
            lemma_bytes_lt_irreflexive(vstd::utf8::encode_utf8(ak), 0);
        } else if ak == bk && bk == ck {
            if av != bv && bv != cv {
                law_value_lt_transitive(av, bv, cv);
                lemma_value_lt_apart(av, cv);
            } else if av == bv && bv == cv {
                lemma_fields_lt_trans(a, b, c, i + 1);
            }
        }
    }
}

/// Where the place of a key is: every key in front of it comes before the
/// key, and the key at it, if there is one, is the key or comes after it.
pub proof fn lemma_dict_slot(entries: Seq<(ValueView, ValueView)>, k: ValueView, from: int)
    requires
        0 <= from <= entries.len(),
    ensures
        from <= dict_slot(entries, k, from) <= entries.len(),
        forall|j: int|
            from <= j < dict_slot(entries, k, from) ==> value_lt((#[trigger] entries[j]).0, k),
        dict_slot(entries, k, from) < entries.len() ==> entries[dict_slot(entries, k, from)].0
            == k || value_lt(k, entries[dict_slot(entries, k, from)].0),
    decreases entries.len() - from,
{
    if from < entries.len() {
        if entries[from].0 != k {
            if value_lt(entries[from].0, k) {
                lemma_dict_slot(entries, k, from + 1);
            } else {
                law_value_lt_total(entries[from].0, k);
            }
        }
    }
}

/// Where the place of a name is: every name in front of it comes before
/// the name, and the name at it, if there is one, is the name or comes
/// after it.
pub proof fn lemma_named_slot(fields: Seq<(Seq<char>, ValueView)>, name: Seq<char>, from: int)
    requires
        0 <= from <= fields.len(),
    ensures
        from <= named_slot(fields, name, from) <= fields.len(),
        forall|j: int|
            from <= j < named_slot(fields, name, from) ==> str_lt((#[trigger] fields[j]).0, name),
        named_slot(fields, name, from) < fields.len() ==> fields[named_slot(fields, name, from)].0
            == name || str_lt(name, fields[named_slot(fields, name, from)].0),
    decreases fields.len() - from,
{
    if from < fields.len() {
        if fields[from].0 != name {
            if str_lt(fields[from].0, name) {
                lemma_named_slot(fields, name, from + 1);
            } else {
                lemma_str_lt_total(fields[from].0, name);
            }
        }
    }
}

/// Putting a canonical entry into canonical entries leaves them canonical.
pub proof fn lemma_dict_put_canonical(
    entries: Seq<(ValueView, ValueView)>,
    k: ValueView,
    v: ValueView,
)
    requires
        canonical_entries(entries),
        canonical(k),
        canonical(v),
    ensures
        canonical_entries(dict_put(entries, k, v)),
{
    let p = dict_slot(entries, k, 0);
    let put = dict_put(entries, k, v);
    lemma_dict_slot(entries, k, 0);
    if p < entries.len() && entries[p].0 == k {
        assert forall|i: int, j: int| 0 <= i < j < put.len() implies value_lt(
            (#[trigger] put[i]).0,
            (#[trigger] put[j]).0,
        ) by {
            assert(put[i].0 == entries[i].0);
            assert(put[j].0 == entries[j].0);
        }
        assert forall|i: int| 0 <= i < put.len() implies canonical((#[trigger] put[i]).0)
            && canonical(put[i].1) by {
            if i != p {
                assert(put[i] == entries[i]);
            }
        }
    } else {
        assert forall|i: int, j: int| 0 <= i < j < put.len() implies value_lt(
            (#[trigger] put[i]).0,
            (#[trigger] put[j]).0,
        ) by {
            if j < p {
                assert(put[i] == entries[i] && put[j] == entries[j]);
            } else if j == p {
                assert(put[i] == entries[i]);
            } else if i < p {
                assert(put[i] == entries[i] && put[j] == entries[j - 1]);
            } else if i == p {
                assert(put[j] == entries[j - 1]);
                if j - 1 > p {
                    assert(value_lt(entries[p].0, entries[j - 1].0));
                    law_value_lt_transitive(k, entries[p].0, entries[j - 1].0);
                }
            } else {
                assert(put[i] == entries[i - 1] && put[j] == entries[j - 1]);
            }
        }
        assert forall|i: int| 0 <= i < put.len() implies canonical((#[trigger] put[i]).0)
            && canonical(put[i].1) by {
            if i < p {
                assert(put[i] == entries[i]);
            } else if i > p {
                assert(put[i] == entries[i - 1]);
            }
        }
    }
}

/// Putting a canonical field into canonical fields leaves them canonical.
pub proof fn lemma_named_put_canonical(
    fields: Seq<(Seq<char>, ValueView)>,
    name: Seq<char>,
    v: ValueView,
)
    requires
        canonical_fields(fields),
        canonical(v),
    ensures
        canonical_fields(named_put(fields, name, v)),
{
    let p = named_slot(fields, name, 0);
    let put = named_put(fields, name, v);
    lemma_named_slot(fields, name, 0);
    if p < fields.len() && fields[p].0 == name {
        assert forall|i: int, j: int| 0 <= i < j < put.len() implies str_lt(
            (#[trigger] put[i]).0,
            (#[trigger] put[j]).0,
        ) by {
            assert(put[i].0 == fields[i].0);
            assert(put[j].0 == fields[j].0);
        }
        assert forall|i: int| 0 <= i < put.len() implies canonical((#[trigger] put[i]).1) by {
            if i != p {
                assert(put[i] == fields[i]);
            }
        }
    } else {
        assert forall|i: int, j: int| 0 <= i < j < put.len() implies str_lt(
            (#[trigger] put[i]).0,
            (#[trigger] put[j]).0,
        ) by {
            if j < p {
                assert(put[i] == fields[i] && put[j] == fields[j]);
            } else if j == p {
                assert(put[i] == fields[i]);
            } else if i < p {
                assert(put[i] == fields[i] && put[j] == fields[j - 1]);
            } else if i == p {
                assert(put[j] == fields[j - 1]);
                if j - 1 > p {
                    assert(str_lt(fields[p].0, fields[j - 1].0));
                    lemma_str_lt_trans(name, fields[p].0, fields[j - 1].0);
                }
            } else {
                assert(put[i] == fields[i - 1] && put[j] == fields[j - 1]);
            }
        }
        assert forall|i: int| 0 <= i < put.len() implies canonical((#[trigger] put[i]).1) by {
            if i < p {
                assert(put[i] == fields[i]);
            } else if i > p {
                assert(put[i] == fields[i - 1]);
            }
        }
    }
}

/// What is read is canonical: in every map the keys are in strictly
/// increasing order, and in every struct the names of the fields.
pub proof fn law_decoded_is_canonical(registry: RegistryView, schema: SchemaView, s: Seq<u8>)
    ensures
        decode_value(registry, schema, s) matches Ok(step) ==> canonical(step.value),
    decreases s.len(), 1nat, 0nat,
{
    reveal(decode_value);
    reveal(decode_fields);
    reveal(decode_entries);
    reveal(decode_interface);
    lemma_decode_bounds(s);
    match schema {
        SchemaView::MapOf(m) => {
            match decode_uvarint(s) {
                Ok((count, n)) => {
                    lemma_entries_canonical(
                        registry,
                        lookup(registry.types, m.key),
                        lookup(registry.types, m.elem),
                        count as nat,
                        Seq::empty(),
                        after(s, n),
                    );
                },
                Err(_) => {},
            }
        },
        SchemaView::Struct(t) => {
            lemma_fields_canonical(registry, t, -1, Seq::empty(), s);
        },
        SchemaView::Interface => {
            lemma_interface_canonical(registry, s);
        },
        _ => {},
    }
}

/// The struct that is read from fields that are canonical so far is
/// canonical.
pub proof fn lemma_fields_canonical(
    registry: RegistryView,
    t: StructTypeView,
    idx: int,
    acc: Seq<(Seq<char>, ValueView)>,
    s: Seq<u8>,
)
    requires
        canonical_fields(acc),
    ensures
        decode_fields(registry, t, idx, acc, s) matches Ok(step) ==> canonical(step.value),
    decreases s.len(), 0nat, 0nat,
{
    lemma_decode_fields_step(registry, t, idx, acc, s);
    lemma_decode_bounds(s);
    match decode_uvarint(s) {
        Ok((delta, n)) => {
            if delta != 0 && idx + delta < t.fields.len() {
                let f = t.fields[idx + delta];
                if registry.types.contains_key(f.id) {
                    law_decoded_is_canonical(registry, registry.types[f.id], after(s, n));
                    match decode_value(registry, registry.types[f.id], after(s, n)) {
                        Ok(step) => {
                            lemma_named_put_canonical(acc, f.name, step.value);
                            lemma_fields_canonical(
                                step.registry,
                                t,
                                idx + delta,
                                named_put(acc, f.name, step.value),
                                after(s, n + step.used),
                            );
                        },
                        Err(_) => {},
                    }
                }
            }
        },
        Err(_) => {},
    }
}

/// The map that is read from entries that are canonical so far is
/// canonical.
pub proof fn lemma_entries_canonical(
    registry: RegistryView,
    key: SchemaView,
    elem: SchemaView,
    count: nat,
    acc: Seq<(ValueView, ValueView)>,
    s: Seq<u8>,
)
    requires
        canonical_entries(acc),
    ensures
        decode_entries(registry, key, elem, count, acc, s) matches Ok(step) ==> canonical(
            step.value,
        ),
    decreases s.len(), 2nat, count,
{
    lemma_decode_entries_step(registry, key, elem, count, acc, s);
    if count > 0 {
        law_decoded_is_canonical(registry, key, s);
        match decode_value(registry, key, s) {
            Ok(k) => {
                law_decoded_is_canonical(k.registry, elem, after(s, k.used));
                match decode_value(k.registry, elem, after(s, k.used)) {
                    Ok(v) => {
                        lemma_dict_put_canonical(acc, k.value, v.value);
                        lemma_entries_canonical(
                            v.registry,
                            key,
                            elem,
                            (count - 1) as nat,
                            dict_put(acc, k.value, v.value),
                            after(s, k.used + v.used),
                        );
                    },
                    Err(_) => {},
                }
            },
            Err(_) => {},
        }
    }
}

/// The value that is read from an interface value is canonical.
pub proof fn lemma_interface_canonical(registry: RegistryView, s: Seq<u8>)
    ensures
        decode_interface(registry, s) matches Ok(step) ==> canonical(step.value),
    decreases s.len(), 0nat, 0nat,
{
    lemma_decode_interface_step(registry, s);
    lemma_decode_bounds(s);
    match decode_string(s) {
        Ok((name, n)) => {
            if name.len() != 0 {
                match decode_concrete(registry, after(s, n)) {
                    Ok(c) => match decode_uvarint(after(s, n + c.used)) {
                        Ok((len, m)) => {
                            let p = n + c.used + m;
                            if after(s, p).len() > 0 && c.registry.types.contains_key(c.id) {
                                let q = if after(s, p)[0] == 0 {
                                    p + 1
                                } else {
                                    p
                                };
                                law_decoded_is_canonical(
                                    c.registry,
                                    c.registry.types[c.id],
                                    after(s, q),
                                );
                            }
                        },
                        Err(_) => {},
                    },
                    Err(_) => {},
                }
            }
        },
        Err(_) => {},
    }
}

} // verus!
