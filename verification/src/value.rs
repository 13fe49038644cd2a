//! The dynamic value: what the decoder yields when no record is bound.

use crate::encode::Encoder;
use crate::error::GobError;
use crate::layout::prepend;
use crate::wire::{
    encode_bool, encode_bytes, encode_float, encode_int, encode_string, encode_uvarint,
};
use std::cmp::Ordering;
use vstd::prelude::*;
use vstd::std_specs::cmp::PartialEqSpecImpl;

verus! {

/// A decoded value of any type.
///
/// `Float` holds the IEEE-754 bit pattern of the number, so that equality
/// and order go by bits. A value that was read has the entries of every
/// map in it sorted by key, and the fields of every struct sorted by name,
/// without repeats: see [`canonical`].
#[derive(Debug)]
pub enum Value {
    Nil,
    Bool(bool),
    Int(i64),
    Uint(u64),
    Float(u64),
    String(String),
    Bytes(Vec<u8>),
    Array(Vec<Value>),
    Dict(Vec<(Value, Value)>),
    Struct(String, Vec<(String, Value)>),
}

/// A [`Value`] as mathematics.
pub ghost enum ValueView {
    Nil,
    Bool(bool),
    Int(i64),
    Uint(u64),
    Float(u64),
    String(Seq<char>),
    Bytes(Seq<u8>),
    Array(Seq<ValueView>),
    Dict(Seq<(ValueView, ValueView)>),
    Struct(Seq<char>, Seq<(Seq<char>, ValueView)>),
}

/// The views of a list of values, in order.
pub open spec fn items_view(items: Seq<Value>) -> Seq<ValueView>
    decreases items, 0nat,
{
    Seq::new(
        items.len(),
        |i: int|
            if 0 <= i < items.len() {
                items[i]@
            } else {
                ValueView::Nil
            },
    )
}

/// The views of a list of map entries, in order.
pub open spec fn entries_view(entries: Seq<(Value, Value)>) -> Seq<(ValueView, ValueView)>
    decreases entries, 0nat,
{
    Seq::new(
        entries.len(),
        |i: int|
            if 0 <= i < entries.len() {
                (entries[i].0@, entries[i].1@)
            } else {
                (ValueView::Nil, ValueView::Nil)
            },
    )
}

/// The views of a list of struct fields, in order.
pub open spec fn named_view(fields: Seq<(String, Value)>) -> Seq<(Seq<char>, ValueView)>
    decreases fields, 0nat,
{
    Seq::new(
        fields.len(),
        |i: int|
            if 0 <= i < fields.len() {
                (fields[i].0@, fields[i].1@)
            } else {
                (Seq::empty(), ValueView::Nil)
            },
    )
}

impl View for Value {
    type V = ValueView;

    open spec fn view(&self) -> ValueView
        decreases self, 1nat,
    {
        match self {
            Value::Nil => ValueView::Nil,
            Value::Bool(b) => ValueView::Bool(*b),
            Value::Int(i) => ValueView::Int(*i),
            Value::Uint(u) => ValueView::Uint(*u),
            Value::Float(f) => ValueView::Float(*f),
            Value::String(s) => ValueView::String(s@),
            Value::Bytes(b) => ValueView::Bytes(b@),
            Value::Array(items) => ValueView::Array(items_view(items@)),
            Value::Dict(entries) => ValueView::Dict(entries_view(entries@)),
            Value::Struct(name, fields) => ValueView::Struct(name@, named_view(fields@)),
        }
    }
}

/// The place of a value's kind in the order of kinds.
pub open spec fn rank(v: ValueView) -> nat {
    match v {
        ValueView::Nil => 0,
        ValueView::Bool(_) => 1,
        ValueView::Int(_) => 2,
        ValueView::Uint(_) => 3,
        ValueView::Float(_) => 4,
        ValueView::String(_) => 5,
        ValueView::Bytes(_) => 6,
        ValueView::Array(_) => 7,
        ValueView::Dict(_) => 8,
        ValueView::Struct(_, _) => 9,
    }
}

/// Whether `a` from index `i` on comes before `b` from index `i` on, in the
/// dictionary order of byte strings.
pub open spec fn bytes_lt_from(a: Seq<u8>, b: Seq<u8>, i: int) -> bool
    decreases a.len() - i,
{
    if i < 0 || i >= b.len() {
        false
    } else if i >= a.len() {
        true
    } else if a[i] != b[i] {
        a[i] < b[i]
    } else {
        bytes_lt_from(a, b, i + 1)
    }
}

/// Whether `a` comes before `b` in the dictionary order of byte strings.
pub open spec fn bytes_lt(a: Seq<u8>, b: Seq<u8>) -> bool {
    bytes_lt_from(a, b, 0)
}

/// Whether `a` comes before `b`: by their UTF-8 bytes, as `str` orders.
pub open spec fn str_lt(a: Seq<char>, b: Seq<char>) -> bool {
    bytes_lt(vstd::utf8::encode_utf8(a), vstd::utf8::encode_utf8(b))
}

/// The canonical order of values: by kind first, then by content; lists
/// compare item by item, a proper prefix coming first.
pub open spec fn value_lt(a: ValueView, b: ValueView) -> bool
    decreases a, 1nat,
{
    if rank(a) != rank(b) {
        rank(a) < rank(b)
    } else {
        match (a, b) {
            (ValueView::Bool(x), ValueView::Bool(y)) => !x && y,
            (ValueView::Int(x), ValueView::Int(y)) => x < y,
            (ValueView::Uint(x), ValueView::Uint(y)) => x < y,
            (ValueView::Float(x), ValueView::Float(y)) => x < y,
            (ValueView::String(x), ValueView::String(y)) => str_lt(x, y),
            (ValueView::Bytes(x), ValueView::Bytes(y)) => bytes_lt(x, y),
            (ValueView::Array(x), ValueView::Array(y)) => items_lt(x, y, 0),
            (ValueView::Dict(x), ValueView::Dict(y)) => entries_lt(x, y, 0),
            (ValueView::Struct(n, x), ValueView::Struct(m, y)) => if n != m {
                str_lt(n, m)
            } else {
                fields_lt(x, y, 0)
            },
            _ => false,
        }
    }
}

/// Whether `a` from index `i` on comes before `b` from index `i` on.
pub open spec fn items_lt(a: Seq<ValueView>, b: Seq<ValueView>, i: int) -> bool
    decreases a, 0nat, a.len() - i,
{
    if i < 0 || i >= b.len() {
        false
    } else if i >= a.len() {
        true
    } else if a[i] != b[i] {
        value_lt(a[i], b[i])
    } else {
        items_lt(a, b, i + 1)
    }
}

/// Whether the entries of `a` from index `i` on come before those of `b`.
pub open spec fn entries_lt(
    a: Seq<(ValueView, ValueView)>,
    b: Seq<(ValueView, ValueView)>,
    i: int,
) -> bool
    decreases a, 0nat, a.len() - i,
{
    if i < 0 || i >= b.len() {
        false
    } else if i >= a.len() {
        true
    } else if a[i].0 != b[i].0 {
        value_lt(a[i].0, b[i].0)
    } else if a[i].1 != b[i].1 {
        value_lt(a[i].1, b[i].1)
    } else {
        entries_lt(a, b, i + 1)
    }
}

/// Whether the fields of `a` from index `i` on come before those of `b`.
pub open spec fn fields_lt(
    a: Seq<(Seq<char>, ValueView)>,
    b: Seq<(Seq<char>, ValueView)>,
    i: int,
) -> bool
    decreases a, 0nat, a.len() - i,
{
    if i < 0 || i >= b.len() {
        false
    } else if i >= a.len() {
        true
    } else if a[i].0 != b[i].0 {
        str_lt(a[i].0, b[i].0)
    } else if a[i].1 != b[i].1 {
        value_lt(a[i].1, b[i].1)
    } else {
        fields_lt(a, b, i + 1)
    }
}

/// Whether a value is canonical: the keys of every map and the field names
/// of every struct in it are in strictly increasing order.
pub open spec fn canonical(v: ValueView) -> bool
    decreases v, 1nat,
{
    match v {
        ValueView::Array(items) => canonical_items(items),
        ValueView::Dict(entries) => canonical_entries(entries),
        ValueView::Struct(_, fields) => canonical_fields(fields),
        _ => true,
    }
}

/// Whether every value in a list is canonical.
pub open spec fn canonical_items(items: Seq<ValueView>) -> bool
    decreases items, 0nat,
{
    forall|i: int| 0 <= i < items.len() ==> canonical(#[trigger] items[i])
}

/// Whether the entries of a map are as they are in a canonical value: keys
/// and elements canonical, and the keys in strictly increasing order.
pub open spec fn canonical_entries(entries: Seq<(ValueView, ValueView)>) -> bool
    decreases entries, 0nat,
{
    &&& forall|i: int|
        0 <= i < entries.len() ==> canonical((#[trigger] entries[i]).0) && canonical(
            entries[i].1,
        )
    &&& forall|i: int, j: int|
        0 <= i < j < entries.len() ==> value_lt(
            (#[trigger] entries[i]).0,
            (#[trigger] entries[j]).0,
        )
}

/// Whether the fields of a struct are as they are in a canonical value:
/// their values canonical, and their names in strictly increasing order.
pub open spec fn canonical_fields(fields: Seq<(Seq<char>, ValueView)>) -> bool
    decreases fields, 0nat,
{
    &&& forall|i: int| 0 <= i < fields.len() ==> canonical((#[trigger] fields[i]).1)
    &&& forall|i: int, j: int|
        0 <= i < j < fields.len() ==> str_lt((#[trigger] fields[i]).0, (#[trigger] fields[j]).0)
}

/// How `a` stands to `b` in the canonical order.
pub open spec fn value_order(a: ValueView, b: ValueView) -> Ordering {
    if a == b {
        Ordering::Equal
    } else if value_lt(a, b) {
        Ordering::Less
    } else {
        Ordering::Greater
    }
}

/// How `a` stands to `b` in the dictionary order of byte strings.
pub open spec fn bytes_order(a: Seq<u8>, b: Seq<u8>) -> Ordering {
    if a == b {
        Ordering::Equal
    } else if bytes_lt(a, b) {
        Ordering::Less
    } else {
        Ordering::Greater
    }
}

/// How `a` stands to `b` in the order of strings.
pub open spec fn str_order(a: Seq<char>, b: Seq<char>) -> Ordering {
    if a == b {
        Ordering::Equal
    } else if str_lt(a, b) {
        Ordering::Less
    } else {
        Ordering::Greater
    }
}

/// An index as a mathematical integer.
pub open spec fn at(i: usize) -> int {
    i as int
}

/// Two strings with the same UTF-8 bytes are the same string.
pub proof fn lemma_utf8_injective(a: Seq<char>, b: Seq<char>)
    requires
        vstd::utf8::encode_utf8(a) == vstd::utf8::encode_utf8(b),
    ensures
        a == b,
{
    vstd::utf8::encode_utf8_decode_utf8(a);
    vstd::utf8::encode_utf8_decode_utf8(b);
}

/// Compares two byte strings in dictionary order.
pub fn order_bytes(a: &[u8], b: &[u8]) -> (r: Ordering)
    ensures
        r == bytes_order(a@, b@),
{
    let mut i: usize = 0;
    while i < a.len() && i < b.len()
        invariant
            i <= a.len(),
            i <= b.len(),
            forall|j: int| 0 <= j < i ==> a@[j] == b@[j],
            bytes_lt(a@, b@) == bytes_lt_from(a@, b@, at(i)),
        decreases a.len() - i,
    {
        if a[i] < b[i] {
            return Ordering::Less;
        }
        if a[i] > b[i] {
            return Ordering::Greater;
        }
        i = i + 1;
    }
    if i < b.len() {
        Ordering::Less
    } else if i < a.len() {
        Ordering::Greater
    } else {
        assert(a@ =~= b@);
        Ordering::Equal
    }
}

/// Compares two strings as `str` orders them.
pub fn order_strs(a: &str, b: &str) -> (r: Ordering)
    ensures
        r == str_order(a@, b@),
{
    let r = order_bytes(a.as_bytes(), b.as_bytes());
    proof {
        if vstd::utf8::encode_utf8(a@) == vstd::utf8::encode_utf8(b@) {
            lemma_utf8_injective(a@, b@);
        }
    }
    r
}

/// Whether two strings are the same.
pub fn same_str(a: &str, b: &str) -> (r: bool)
    ensures
        r == (a@ == b@),
{
    match order_strs(a, b) {
        Ordering::Equal => true,
        _ => false,
    }
}

/// Compares two lists of values item by item.
fn cmp_items(a: &Vec<Value>, b: &Vec<Value>) -> (r: Ordering)
    ensures
        r == value_order(ValueView::Array(items_view(a@)), ValueView::Array(items_view(b@))),
    decreases a, 0nat,
{
    let ghost va = items_view(a@);
    let ghost vb = items_view(b@);
    let mut i: usize = 0;
    while i < a.len() && i < b.len()
        invariant
            i <= a.len(),
            i <= b.len(),
            va == items_view(a@),
            vb == items_view(b@),
            forall|j: int| 0 <= j < i ==> va[j] == vb[j],
            items_lt(va, vb, 0) == items_lt(va, vb, at(i)),
        decreases a.len() - i,
    {
        match a[i].cmp(&b[i]) {
            Ordering::Less => {
                assert(va[at(i)] != vb[at(i)]);
                return Ordering::Less;
            },
            Ordering::Greater => {
                assert(va[at(i)] != vb[at(i)]);
                return Ordering::Greater;
            },
            Ordering::Equal => {},
        }
        i = i + 1;
    }
    if i < b.len() {
        assert(va.len() != vb.len());
        Ordering::Less
    } else if i < a.len() {
        assert(va.len() != vb.len());
        Ordering::Greater
    } else {
        assert(va =~= vb);
        Ordering::Equal
    }
}

/// Compares two lists of map entries, key before value, entry by entry.
fn cmp_entries(a: &Vec<(Value, Value)>, b: &Vec<(Value, Value)>) -> (r: Ordering)
    ensures
        r == value_order(ValueView::Dict(entries_view(a@)), ValueView::Dict(entries_view(b@))),
    decreases a, 0nat,
{
    let ghost va = entries_view(a@);
    let ghost vb = entries_view(b@);
    let mut i: usize = 0;
    while i < a.len() && i < b.len()
        invariant
            i <= a.len(),
            i <= b.len(),
            va == entries_view(a@),
            vb == entries_view(b@),
            forall|j: int| 0 <= j < i ==> va[j] == vb[j],
            entries_lt(va, vb, 0) == entries_lt(va, vb, at(i)),
        decreases a.len() - i,
    {
        match a[i].0.cmp(&b[i].0) {
            Ordering::Less => {
                assert(va[at(i)] != vb[at(i)]);
                return Ordering::Less;
            },
            Ordering::Greater => {
                assert(va[at(i)] != vb[at(i)]);
                return Ordering::Greater;
            },
            Ordering::Equal => {},
        }
        match a[i].1.cmp(&b[i].1) {
            Ordering::Less => {
                assert(va[at(i)] != vb[at(i)]);
                return Ordering::Less;
            },
            Ordering::Greater => {
                assert(va[at(i)] != vb[at(i)]);
                return Ordering::Greater;
            },
            Ordering::Equal => {},
        }
        i = i + 1;
    }
    if i < b.len() {
        assert(va.len() != vb.len());
        Ordering::Less
    } else if i < a.len() {
        assert(va.len() != vb.len());
        Ordering::Greater
    } else {
        assert(va =~= vb);
        Ordering::Equal
    }
}

/// Compares two lists of struct fields, name before value, field by field.
fn cmp_fields(a: &Vec<(String, Value)>, b: &Vec<(String, Value)>) -> (r: Ordering)
    ensures
        r == (if named_view(a@) == named_view(b@) {
            Ordering::Equal
        } else if fields_lt(named_view(a@), named_view(b@), 0) {
            Ordering::Less
        } else {
            Ordering::Greater
        }),
    decreases a, 0nat,
{
    let ghost va = named_view(a@);
    let ghost vb = named_view(b@);
    let mut i: usize = 0;
    while i < a.len() && i < b.len()
        invariant
            i <= a.len(),
            i <= b.len(),
            va == named_view(a@),
            vb == named_view(b@),
            forall|j: int| 0 <= j < i ==> va[j] == vb[j],
            fields_lt(va, vb, 0) == fields_lt(va, vb, at(i)),
        decreases a.len() - i,
    {
        match order_strs(a[i].0.as_str(), b[i].0.as_str()) {
            Ordering::Less => {
                assert(va[at(i)] != vb[at(i)]);
                return Ordering::Less;
            },
            Ordering::Greater => {
                assert(va[at(i)] != vb[at(i)]);
                return Ordering::Greater;
            },
            Ordering::Equal => {},
        }
        match a[i].1.cmp(&b[i].1) {
            Ordering::Less => {
                assert(va[at(i)] != vb[at(i)]);
                return Ordering::Less;
            },
            Ordering::Greater => {
                assert(va[at(i)] != vb[at(i)]);
                return Ordering::Greater;
            },
            Ordering::Equal => {},
        }
        i = i + 1;
    }
    if i < b.len() {
        assert(va.len() != vb.len());
        Ordering::Less
    } else if i < a.len() {
        assert(va.len() != vb.len());
        Ordering::Greater
    } else {
        assert(va =~= vb);
        Ordering::Equal
    }
}

impl Value {
    /// The place of this value's kind in the order of kinds.
    fn kind(&self) -> (k: u8)
        ensures
            k == rank(self@),
    {
        match self {
            Value::Nil => 0,
            Value::Bool(_) => 1,
            Value::Int(_) => 2,
            Value::Uint(_) => 3,
            Value::Float(_) => 4,
            Value::String(_) => 5,
            Value::Bytes(_) => 6,
            Value::Array(_) => 7,
            Value::Dict(_) => 8,
            Value::Struct(_, _) => 9,
        }
    }

    /// Compares two values in the canonical order: by kind, then by
    /// content, floats by their bit patterns.
    pub fn cmp(&self, other: &Value) -> (r: Ordering)
        ensures
            r == value_order(self@, other@),
        decreases self, 1nat,
    {
        match (self, other) {
            (Value::Nil, Value::Nil) => Ordering::Equal,
            (Value::Bool(a), Value::Bool(b)) => {
                if *a == *b {
                    Ordering::Equal
                } else if !*a {
                    Ordering::Less
                } else {
                    Ordering::Greater
                }
            },
            (Value::Int(a), Value::Int(b)) => {
                if *a < *b {
                    Ordering::Less
                } else if *a > *b {
                    Ordering::Greater
                } else {
                    Ordering::Equal
                }
            },
            (Value::Uint(a), Value::Uint(b)) => {
                if *a < *b {
                    Ordering::Less
                } else if *a > *b {
                    Ordering::Greater
                } else {
                    Ordering::Equal
                }
            },
            (Value::Float(a), Value::Float(b)) => {
                if *a < *b {
                    Ordering::Less
                } else if *a > *b {
                    Ordering::Greater
                } else {
                    Ordering::Equal
                }
            },
            (Value::String(a), Value::String(b)) => order_strs(a.as_str(), b.as_str()),
            (Value::Bytes(a), Value::Bytes(b)) => order_bytes(a.as_slice(), b.as_slice()),
            (Value::Array(a), Value::Array(b)) => cmp_items(a, b),
            (Value::Dict(a), Value::Dict(b)) => cmp_entries(a, b),
            (Value::Struct(n, a), Value::Struct(m, b)) => {
                match order_strs(n.as_str(), m.as_str()) {
                    Ordering::Less => Ordering::Less,
                    Ordering::Greater => Ordering::Greater,
                    Ordering::Equal => cmp_fields(a, b),
                }
            },
            _ => {
                if self.kind() < other.kind() {
                    Ordering::Less
                } else {
                    Ordering::Greater
                }
            },
        }
    }
}

/// `fields` with `name` set to `v`: in place of the field of that name if
/// there is one, else in front of the first field whose name is not less.
pub open spec fn named_put(fields: Seq<(Seq<char>, ValueView)>, name: Seq<char>, v: ValueView) -> Seq<
    (Seq<char>, ValueView),
> {
    let i = named_slot(fields, name, 0);
    if i < fields.len() && fields[i].0 == name {
        fields.update(i, (name, v))
    } else {
        fields.insert(i, (name, v))
    }
}

/// The first index from `from` on whose field name is `name` or not less
/// than `name`.
pub open spec fn named_slot(fields: Seq<(Seq<char>, ValueView)>, name: Seq<char>, from: int) -> int
    decreases fields.len() - from,
{
    if from < 0 || from >= fields.len() || fields[from].0 == name || !str_lt(
        fields[from].0,
        name,
    ) {
        from
    } else {
        named_slot(fields, name, from + 1)
    }
}

/// `entries` with `k` mapped to `v`: in place of the entry for `k` if there
/// is one, else in front of the first entry whose key is not less.
pub open spec fn dict_put(entries: Seq<(ValueView, ValueView)>, k: ValueView, v: ValueView) -> Seq<
    (ValueView, ValueView),
> {
    let i = dict_slot(entries, k, 0);
    if i < entries.len() && entries[i].0 == k {
        entries.update(i, (k, v))
    } else {
        entries.insert(i, (k, v))
    }
}

/// The first index from `from` on whose key is `k` or not less than `k`.
pub open spec fn dict_slot(entries: Seq<(ValueView, ValueView)>, k: ValueView, from: int) -> int
    decreases entries.len() - from,
{
    if from < 0 || from >= entries.len() || entries[from].0 == k || !value_lt(
        entries[from].0,
        k,
    ) {
        from
    } else {
        dict_slot(entries, k, from + 1)
    }
}

/// The first index whose field name is not less than `name`, and whether
/// the field there has that very name.
fn field_slot(fields: &Vec<(String, Value)>, name: &str) -> (r: (usize, bool))
    ensures
        r.0 == named_slot(named_view(fields@), name@, 0),
        r.0 <= fields.len(),
        r.1 == (r.0 < fields.len() && named_view(fields@)[at(r.0)].0 == name@),
{
    let ghost fv = named_view(fields@);
    let mut i: usize = 0;
    while i < fields.len()
        invariant
            i <= fields.len(),
            fv == named_view(fields@),
            named_slot(fv, name@, 0) == named_slot(fv, name@, at(i)),
        decreases fields.len() - i,
    {
        match order_strs(fields[i].0.as_str(), name) {
            Ordering::Less => {},
            Ordering::Equal => {
                return (i, true);
            },
            Ordering::Greater => {
                return (i, false);
            },
        }
        i = i + 1;
    }
    (i, false)
}

/// Sets the field `name` to `v`, keeping the fields in order.
pub fn put_field(fields: &mut Vec<(String, Value)>, name: String, v: Value)
    ensures
        named_view(final(fields)@) == named_put(named_view(old(fields)@), name@, v@),
{
    let (i, found) = field_slot(fields, name.as_str());
    let ghost fv = named_view(fields@);
    let ghost nv = name@;
    let ghost vv = v@;
    if found {
        fields.set(i, (name, v));
        assert(named_view(fields@) =~= fv.update(at(i), (nv, vv)));
    } else {
        fields.insert(i, (name, v));
        assert(named_view(fields@) =~= fv.insert(at(i), (nv, vv)));
    }
}

/// The first index whose key is not less than `k`, and whether the entry
/// there has that very key.
fn entry_slot(entries: &Vec<(Value, Value)>, k: &Value) -> (r: (usize, bool))
    ensures
        r.0 == dict_slot(entries_view(entries@), k@, 0),
        r.0 <= entries.len(),
        r.1 == (r.0 < entries.len() && entries_view(entries@)[at(r.0)].0 == k@),
{
    let ghost ev = entries_view(entries@);
    let mut i: usize = 0;
    while i < entries.len()
        invariant
            i <= entries.len(),
            ev == entries_view(entries@),
            dict_slot(ev, k@, 0) == dict_slot(ev, k@, at(i)),
        decreases entries.len() - i,
    {
        match entries[i].0.cmp(k) {
            Ordering::Less => {},
            Ordering::Equal => {
                return (i, true);
            },
            Ordering::Greater => {
                return (i, false);
            },
        }
        i = i + 1;
    }
    (i, false)
}

/// Maps the key `k` to `v`, keeping the entries in order.
pub fn put_entry(entries: &mut Vec<(Value, Value)>, k: Value, v: Value)
    ensures
        entries_view(final(entries)@) == dict_put(entries_view(old(entries)@), k@, v@),
{
    let (i, found) = entry_slot(entries, &k);
    let ghost ev = entries_view(entries@);
    let ghost kv = k@;
    let ghost vv = v@;
    if found {
        entries.set(i, (k, v));
        assert(entries_view(entries@) =~= ev.update(at(i), (kv, vv)));
    } else {
        entries.insert(i, (k, v));
        assert(entries_view(entries@) =~= ev.insert(at(i), (kv, vv)));
    }
}

/// A copy of a list of values.
fn clone_items(items: &Vec<Value>) -> (c: Vec<Value>)
    ensures
        items_view(c@) == items_view(items@),
    decreases items, 0nat,
{
    let mut c: Vec<Value> = Vec::new();
    let mut i: usize = 0;
    while i < items.len()
        invariant
            i <= items.len(),
            c.len() == i,
            forall|j: int| 0 <= j < i ==> c[j]@ == items[j]@,
        decreases items.len() - i,
    {
        c.push(items[i].clone());
        i = i + 1;
    }
    assert(items_view(c@) =~= items_view(items@));
    c
}

/// A copy of a list of map entries.
fn clone_entries(entries: &Vec<(Value, Value)>) -> (c: Vec<(Value, Value)>)
    ensures
        entries_view(c@) == entries_view(entries@),
    decreases entries, 0nat,
{
    let mut c: Vec<(Value, Value)> = Vec::new();
    let mut i: usize = 0;
    while i < entries.len()
        invariant
            i <= entries.len(),
            c.len() == i,
            forall|j: int| 0 <= j < i ==> c[j].0@ == entries[j].0@ && c[j].1@ == entries[j].1@,
        decreases entries.len() - i,
    {
        c.push((entries[i].0.clone(), entries[i].1.clone()));
        i = i + 1;
    }
    assert(entries_view(c@) =~= entries_view(entries@));
    c
}

/// A copy of a list of struct fields.
fn clone_named(fields: &Vec<(String, Value)>) -> (c: Vec<(String, Value)>)
    ensures
        named_view(c@) == named_view(fields@),
    decreases fields, 0nat,
{
    let mut c: Vec<(String, Value)> = Vec::new();
    let mut i: usize = 0;
    while i < fields.len()
        invariant
            i <= fields.len(),
            c.len() == i,
            forall|j: int| 0 <= j < i ==> c[j].0@ == fields[j].0@ && c[j].1@ == fields[j].1@,
        decreases fields.len() - i,
    {
        c.push((fields[i].0.clone(), fields[i].1.clone()));
        i = i + 1;
    }
    assert(named_view(c@) =~= named_view(fields@));
    c
}

impl Clone for Value {
    fn clone(&self) -> (c: Self)
        ensures
            c@ == self@,
        decreases self, 1nat,
    {
        match self {
            Value::Nil => Value::Nil,
            Value::Bool(b) => Value::Bool(*b),
            Value::Int(i) => Value::Int(*i),
            Value::Uint(u) => Value::Uint(*u),
            Value::Float(f) => Value::Float(*f),
            Value::String(s) => Value::String(s.clone()),
            Value::Bytes(b) => {
                let c = vstd::slice::slice_to_vec(b.as_slice());
                Value::Bytes(c)
            },
            Value::Array(items) => Value::Array(clone_items(items)),
            Value::Dict(entries) => Value::Dict(clone_entries(entries)),
            Value::Struct(name, fields) => Value::Struct(name.clone(), clone_named(fields)),
        }
    }
}

impl PartialEq for Value {
    /// Two values are equal where they are the same as mathematics: floats
    /// by their bit patterns.
    fn eq(&self, other: &Self) -> (r: bool) {
        match self.cmp(other) {
            Ordering::Equal => true,
            _ => false,
        }
    }
}

impl PartialEqSpecImpl for Value {
    open spec fn obeys_eq_spec() -> bool {
        true
    }

    open spec fn eq_spec(&self, other: &Self) -> bool {
        self@ == other@
    }
}

impl Eq for Value {

}

/// The bytes of a value written without a schema.
///
/// A primitive is written by the bit codec and nil as nothing; an array is
/// its count and its items; a map is its count and its entries, key before
/// element. A struct cannot be written without its schema.
pub open spec fn plain(v: ValueView) -> Result<Seq<u8>, GobError>
    decreases v, 1nat, 0nat,
{
    match v {
        ValueView::Nil => Ok(Seq::empty()),
        ValueView::Bool(b) => Ok(encode_bool(b)),
        ValueView::Int(i) => Ok(encode_int(i)),
        ValueView::Uint(u) => Ok(encode_uvarint(u)),
        ValueView::Float(f) => Ok(encode_float(f)),
        ValueView::String(s) => Ok(encode_string(s)),
        ValueView::Bytes(b) => Ok(encode_bytes(b)),
        ValueView::Array(items) => prepend(encode_uvarint(items.len() as u64), plain_items(items, 0)),
        ValueView::Dict(entries) => prepend(
            encode_uvarint(entries.len() as u64),
            plain_entries(entries, 0),
        ),
        ValueView::Struct(_, _) => Err(GobError::Unsupported),
    }
}

/// The items from index `i` on, written without a schema.
pub open spec fn plain_items(items: Seq<ValueView>, i: int) -> Result<Seq<u8>, GobError>
    decreases items, 0nat, items.len() - i,
{
    if i < 0 || i >= items.len() {
        Ok(Seq::empty())
    } else {
        match plain(items[i]) {
            Err(e) => Err(e),
            Ok(b) => prepend(b, plain_items(items, i + 1)),
        }
    }
}

/// The entries from index `i` on, written without a schema.
pub open spec fn plain_entries(entries: Seq<(ValueView, ValueView)>, i: int) -> Result<
    Seq<u8>,
    GobError,
>
    decreases entries, 0nat, entries.len() - i,
{
    if i < 0 || i >= entries.len() {
        Ok(Seq::empty())
    } else {
        match plain(entries[i].0) {
            Err(e) => Err(e),
            Ok(k) => match plain(entries[i].1) {
                Err(e) => Err(e),
                Ok(v) => prepend(k + v, plain_entries(entries, i + 1)),
            },
        }
    }
}

/// Appends the items of an array, written without a schema.
fn encode_items(items: &Vec<Value>, encoder: &mut Encoder) -> (r: Result<(), GobError>)
    ensures
        match plain_items(items_view(items@), 0) {
            Ok(b) => r is Ok && final(encoder)@ == old(encoder)@ + b,
            Err(e) => r == Err::<(), GobError>(e),
        },
    decreases items, 0nat,
{
    let ghost iv = items_view(items@);
    let ghost mut acc: Seq<u8> = Seq::empty();
    let mut i: usize = 0;
    proof {
        assert(encoder@ =~= old(encoder)@ + acc);
        match plain_items(iv, 0) {
            Ok(b) => {
                assert(acc + b =~= b);
            },
            Err(_) => {},
        }
    }
    while i < items.len()
        invariant
            i <= items.len(),
            iv == items_view(items@),
            encoder@ == old(encoder)@ + acc,
            plain_items(iv, 0) == prepend(acc, plain_items(iv, at(i))),
        decreases items.len() - i,
    {
        items[i].encode(encoder)?;
        proof {
            let b = plain(iv[at(i)])->Ok_0;
            assert(encoder@ =~= old(encoder)@ + (acc + b));
            match plain_items(iv, at(i) + 1) {
                Ok(rest) => {
                    assert(acc + (b + rest) =~= (acc + b) + rest);
                },
                Err(_) => {},
            }
            acc = acc + b;
        }
        i = i + 1;
    }
    proof {
        assert(acc + Seq::<u8>::empty() =~= acc);
    }
    Ok(())
}

/// Appends the entries of a map, written without a schema.
fn encode_plain_entries(entries: &Vec<(Value, Value)>, encoder: &mut Encoder) -> (r: Result<
    (),
    GobError,
>)
    ensures
        match plain_entries(entries_view(entries@), 0) {
            Ok(b) => r is Ok && final(encoder)@ == old(encoder)@ + b,
            Err(e) => r == Err::<(), GobError>(e),
        },
    decreases entries, 0nat,
{
    let ghost ev = entries_view(entries@);
    let ghost mut acc: Seq<u8> = Seq::empty();
    let mut i: usize = 0;
    proof {
        assert(encoder@ =~= old(encoder)@ + acc);
        match plain_entries(ev, 0) {
            Ok(b) => {
                assert(acc + b =~= b);
            },
            Err(_) => {},
        }
    }
    while i < entries.len()
        invariant
            i <= entries.len(),
            ev == entries_view(entries@),
            encoder@ == old(encoder)@ + acc,
            plain_entries(ev, 0) == prepend(acc, plain_entries(ev, at(i))),
        decreases entries.len() - i,
    {
        entries[i].0.encode(encoder)?;
        entries[i].1.encode(encoder)?;
        proof {
            let k = plain(ev[at(i)].0)->Ok_0;
            let v = plain(ev[at(i)].1)->Ok_0;
            assert(encoder@ =~= old(encoder)@ + (acc + (k + v)));
            match plain_entries(ev, at(i) + 1) {
                Ok(rest) => {
                    assert(acc + ((k + v) + rest) =~= (acc + (k + v)) + rest);
                },
                Err(_) => {},
            }
            acc = acc + (k + v);
        }
        i = i + 1;
    }
    proof {
        assert(acc + Seq::<u8>::empty() =~= acc);
    }
    Ok(())
}

impl Value {
    /// Appends this value to `encoder` without a schema: the value as it
    /// is, with no message around it and no type defined. Items and entries
    /// go to the encoder one by one, so that what stands before an
    /// unsupported one is written.
    pub fn encode(&self, encoder: &mut Encoder) -> (r: Result<(), GobError>)
        ensures
            match plain(self@) {
                Ok(b) => r is Ok && final(encoder)@ == old(encoder)@ + b,
                Err(e) => r == Err::<(), GobError>(e),
            },
        decreases self, 1nat,
    {
        match self {
            Value::Nil => {
                assert(encoder@ =~= encoder@ + Seq::<u8>::empty());
                Ok(())
            },
            Value::Bool(v) => encoder.write_bool(*v),
            Value::Int(v) => encoder.write_int(*v),
            Value::Uint(v) => encoder.write_uint(*v),
            Value::Float(v) => encoder.write_float(*v),
            Value::String(v) => encoder.write_string(v.as_str()),
            Value::Bytes(v) => encoder.write_bytes(v.as_slice()),
            Value::Array(v) => {
                let _ = encoder.write_uint(v.len() as u64);
                encode_items(v, encoder)?;
                proof {
                    let b = plain_items(items_view(v@), 0)->Ok_0;
                    assert(encoder@ =~= old(encoder)@ + (encode_uvarint(v.len() as u64) + b));
                }
                Ok(())
            },
            Value::Dict(m) => {
                let _ = encoder.write_uint(m.len() as u64);
                encode_plain_entries(m, encoder)?;
                proof {
                    let b = plain_entries(entries_view(m@), 0)->Ok_0;
                    assert(encoder@ =~= old(encoder)@ + (encode_uvarint(m.len() as u64) + b));
                }
                Ok(())
            },
            Value::Struct(_, _) => Err(GobError::Unsupported),
        }
    }

    /// The string that this value holds; any other value is a mismatch.
    pub fn into_string(self) -> (r: Result<String, GobError>)
        ensures
            match self {
                Value::String(s) => r == Ok::<String, GobError>(s),
                _ => r == Err::<String, GobError>(GobError::TypeMismatch),
            },
    {
        match self {
            Value::String(s) => Ok(s),
            _ => Err(GobError::TypeMismatch),
        }
    }

    /// The signed integer that this value holds, or the unsigned one where
    /// it fits; any other value is a mismatch.
    pub fn into_i64(self) -> (r: Result<i64, GobError>)
        ensures
            match self {
                Value::Int(i) => r == Ok::<i64, GobError>(i),
                Value::Uint(u) => if u <= i64::MAX {
                    r == Ok::<i64, GobError>(u as i64)
                } else {
                    r == Err::<i64, GobError>(GobError::TypeMismatch)
                },
                _ => r == Err::<i64, GobError>(GobError::TypeMismatch),
            },
    {
        match self {
            Value::Int(i) => Ok(i),
            Value::Uint(u) => {
                if u <= i64::MAX as u64 {
                    Ok(u as i64)
                } else {
                    Err(GobError::TypeMismatch)
                }
            },
            _ => Err(GobError::TypeMismatch),
        }
    }

    /// The boolean that this value holds; any other value is a mismatch.
    pub fn into_bool(self) -> (r: Result<bool, GobError>)
        ensures
            match self {
                Value::Bool(b) => r == Ok::<bool, GobError>(b),
                _ => r == Err::<bool, GobError>(GobError::TypeMismatch),
            },
    {
        match self {
            Value::Bool(b) => Ok(b),
            _ => Err(GobError::TypeMismatch),
        }
    }
}

} // verus!
