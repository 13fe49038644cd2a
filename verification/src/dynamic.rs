//! The decoder of values: given a schema, reads a value of it.

use crate::decode::Decoder;
use crate::error::GobError;
use crate::grammar::{
    after, decode_concrete, decode_entries, decode_fields, decode_interface, decode_wire_type,
    lemma_after_after, lemma_decode_entries_step, lemma_decode_fields_step, shift_step,
};
use crate::schema::{lookup, TypeSchema};
use crate::types::{StructType};
use crate::value::{
    canonical, entries_view, named_view, put_entry, put_field, Value, ValueView,
};
use crate::wire::{decode_int, decode_string, decode_uvarint, lemma_decode_bounds};
use vstd::prelude::*;

verus! {

impl Decoder {
    /// Reads a value of the given schema from what is left of the message.
    ///
    /// On success the decoder has moved past the value, and its registry
    /// holds the definitions that interface values inside it carried.
    pub fn decode_value(&mut self, schema: &TypeSchema) -> (r: Result<Value, GobError>)
        ensures
            match crate::grammar::decode_value(old(self)@.registry, schema@, old(self)@.window) {
                Ok(step) => {
                    &&& r is Ok
                    &&& r->Ok_0@ == step.value
                    &&& final(self)@ == old(self)@.advance_with(step.used, step.registry)
                },
                Err(e) => r == Err::<Value, GobError>(e),
            },
            r is Ok ==> canonical(r->Ok_0@),
        decreases old(self)@.window.len(), 1nat, 0nat,
    {
        proof {
            crate::order::law_decoded_is_canonical(
                old(self)@.registry,
                schema@,
                old(self)@.window,
            );
            reveal(crate::grammar::decode_value);
            reveal(decode_fields);
            reveal(decode_entries);
            reveal(decode_interface);
        }
        match schema {
            TypeSchema::Bool => {
                let b = self.read_bool()?;
                Ok(Value::Bool(b))
            },
            TypeSchema::Int => {
                let i = self.read_int()?;
                Ok(Value::Int(i))
            },
            TypeSchema::Uint => {
                let u = self.read_uint()?;
                Ok(Value::Uint(u))
            },
            TypeSchema::Float => {
                let f = self.read_float()?;
                Ok(Value::Float(f))
            },
            TypeSchema::String => {
                let s = self.read_string()?;
                Ok(Value::String(s))
            },
            TypeSchema::ByteSlice => {
                let b = self.read_bytes()?;
                Ok(Value::Bytes(b))
            },
            TypeSchema::MapOf(m) => {
                let ghost w = self@.window;
                proof {
                    lemma_decode_bounds(w);
                }
                let count = self.read_uint()?;
                if count > self.remaining() as u64 {
                    return Err(GobError::InvalidData);
                }
                let v = self.decode_map_body(count, m.key, m.elem)?;
                proof {
                    let n = decode_uvarint(w)->Ok_0.1;
                    let step = decode_entries(
                        old(self)@.registry,
                        lookup(old(self)@.registry.types, m.key),
                        lookup(old(self)@.registry.types, m.elem),
                        count as nat,
                        Seq::empty(),
                        after(w, n),
                    )->Ok_0;
                    lemma_after_after(w, n, step.used);
                }
                Ok(v)
            },
            TypeSchema::Struct(t) => self.decode_struct_body(t),
            TypeSchema::Interface => self.decode_interface(),
            TypeSchema::Complex => Err(GobError::Unsupported),
            TypeSchema::Custom(_) => Err(GobError::UnknownType),
        }
    }

    /// Reads the fields of a struct value, up to the zero delta that ends
    /// it. A delta that leads past the last field of `t` is invalid; a
    /// field whose type is not registered is of unknown type.
    pub fn decode_struct_body(&mut self, t: &StructType) -> (r: Result<Value, GobError>)
        ensures
            match decode_fields(
                old(self)@.registry,
                t@,
                -1,
                Seq::empty(),
                old(self)@.window,
            ) {
                Ok(step) => {
                    &&& r is Ok
                    &&& r->Ok_0@ == step.value
                    &&& final(self)@ == old(self)@.advance_with(step.used, step.registry)
                },
                Err(e) => r == Err::<Value, GobError>(e),
            },
        decreases old(self)@.window.len(), 0nat, 0nat,
    {
        let mut fields: Vec<(String, Value)> = Vec::new();
        // The number of fields of `t` that lie behind: one more than the
        // index of the field read last.
        let mut base: usize = 0;
        let len = t.fields.len();
        let ghost w0 = self@.window;
        let ghost r0 = self@.registry;
        let ghost mut used: nat = 0;
        proof {
            assert(after(w0, 0) =~= w0);
            assert(named_view(fields@) =~= Seq::<(Seq<char>, ValueView)>::empty());
        }
        loop
            invariant
                base <= len,
                len == t.fields@.len(),
                w0 == old(self)@.window,
                r0 == old(self)@.registry,
                self@ == old(self)@.advance_with(used, self@.registry),
                decode_fields(r0, t@, -1, Seq::empty(), w0) == shift_step(
                    decode_fields(
                        self@.registry,
                        t@,
                        base - 1,
                        named_view(fields@),
                        self@.window,
                    ),
                    used,
                ),
            decreases self@.window.len(),
        {
            let ghost w = self@.window;
            let ghost reg = self@.registry;
            proof {
                lemma_decode_fields_step(reg, t@, base - 1, named_view(fields@), w);
                lemma_decode_bounds(w);
            }
            let delta = self.read_uint()?;
            let ghost n = decode_uvarint(w)->Ok_0.1;
            if delta == 0 {
                proof {
                    lemma_after_after(w0, used, n);
                }
                return Ok(Value::Struct(t.common.name.clone(), fields));
            }
            if delta > (len - base) as u64 {
                return Err(GobError::InvalidData);
            }
            let field: usize = base + (delta as usize - 1);
            let f = &t.fields[field];
            assert(t@.fields[base - 1 + delta] == f@);
            if !self.knows(f.id) {
                return Err(GobError::UnknownType);
            }
            let schema = self.schema(f.id);
            let v = self.decode_value(&schema)?;
            let ghost step = crate::grammar::decode_value(reg, reg.types[f.id], after(w, n))->Ok_0;
            put_field(&mut fields, f.name.clone(), v);
            proof {
                lemma_after_after(w, n, step.used);
                lemma_after_after(w0, used, n + step.used);
                used = used + n + step.used;
            }
            base = field + 1;
        }
    }

    /// Reads `count` (key, element) pairs of a map value whose key type is
    /// `kid` and whose element type is `vid`. A later pair replaces an
    /// earlier one with the same key.
    pub fn decode_map_body(&mut self, count: u64, kid: i64, vid: i64) -> (r: Result<
        Value,
        GobError,
    >)
        ensures
            match decode_entries(
                old(self)@.registry,
                lookup(old(self)@.registry.types, kid),
                lookup(old(self)@.registry.types, vid),
                count as nat,
                Seq::empty(),
                old(self)@.window,
            ) {
                Ok(step) => {
                    &&& r is Ok
                    &&& r->Ok_0@ == step.value
                    &&& final(self)@ == old(self)@.advance_with(step.used, step.registry)
                },
                Err(e) => r == Err::<Value, GobError>(e),
            },
        decreases old(self)@.window.len(), 2nat, count,
    {
        let k_schema = self.schema(kid);
        let v_schema = self.schema(vid);
        let mut entries: Vec<(Value, Value)> = Vec::new();
        let mut i: u64 = 0;
        let ghost w0 = self@.window;
        let ghost r0 = self@.registry;
        let ghost mut used: nat = 0;
        proof {
            assert(after(w0, 0) =~= w0);
            assert(entries_view(entries@) =~= Seq::<(ValueView, ValueView)>::empty());
        }
        while i < count
            invariant
                i <= count,
                w0 == old(self)@.window,
                r0 == old(self)@.registry,
                k_schema@ == lookup(r0.types, kid),
                v_schema@ == lookup(r0.types, vid),
                self@ == old(self)@.advance_with(used, self@.registry),
                decode_entries(r0, k_schema@, v_schema@, count as nat, Seq::empty(), w0)
                    == shift_step(
                    decode_entries(
                        self@.registry,
                        k_schema@,
                        v_schema@,
                        (count - i) as nat,
                        entries_view(entries@),
                        self@.window,
                    ),
                    used,
                ),
            decreases count - i,
        {
            let ghost w = self@.window;
            let ghost reg = self@.registry;
            proof {
                lemma_decode_entries_step(
                    reg,
                    k_schema@,
                    v_schema@,
                    (count - i) as nat,
                    entries_view(entries@),
                    w,
                );
            }
            let k = self.decode_value(&k_schema)?;
            let ghost ks = crate::grammar::decode_value(reg, k_schema@, w)->Ok_0;
            let v = self.decode_value(&v_schema)?;
            let ghost vs = crate::grammar::decode_value(
                ks.registry,
                v_schema@,
                after(w, ks.used),
            )->Ok_0;
            put_entry(&mut entries, k, v);
            proof {
                lemma_after_after(w, ks.used, vs.used);
                lemma_after_after(w0, used, ks.used + vs.used);
                used = used + ks.used + vs.used;
            }
            i = i + 1;
        }
        proof {
            lemma_decode_entries_step(
                self@.registry,
                k_schema@,
                v_schema@,
                0,
                entries_view(entries@),
                self@.window,
            );
        }
        Ok(Value::Dict(entries))
    }

    /// Reads the type identifier of an interface value; where it is
    /// negative, also the definition that follows it, which is registered.
    /// Gives the identifier under which the value's type is registered.
    pub fn decode_concrete(&mut self) -> (r: Result<i64, GobError>)
        ensures
            match decode_concrete(old(self)@.registry, old(self)@.window) {
                Ok(c) => r == Ok::<i64, GobError>(c.id) && final(self)@
                    == old(self)@.advance_with(c.used, c.registry),
                Err(e) => r == Err::<i64, GobError>(e),
            },
    {
        let ghost w = self@.window;
        let id = self.read_int()?;
        if id >= 0 {
            return Ok(id);
        }
        if id == i64::MIN {
            return Err(GobError::InvalidData);
        }
        let schema = self.decode_wire_type()?;
        self.register_type(-id, schema)?;
        proof {
            let n = decode_int(w)->Ok_0.1;
            let k = decode_wire_type(after(w, n))->Ok_0.1;
            lemma_after_after(w, n, k);
        }
        Ok(-id)
    }

    /// Reads an interface value: the name of its concrete type (empty for
    /// nil), the type's identifier and, where that is negative, its
    /// definition, the length of the value, the zero byte that may precede
    /// it, and the value by the schema of its type.
    pub fn decode_interface(&mut self) -> (r: Result<Value, GobError>)
        ensures
            match decode_interface(old(self)@.registry, old(self)@.window) {
                Ok(step) => {
                    &&& r is Ok
                    &&& r->Ok_0@ == step.value
                    &&& final(self)@ == old(self)@.advance_with(step.used, step.registry)
                },
                Err(e) => r == Err::<Value, GobError>(e),
            },
        decreases old(self)@.window.len(), 0nat, 0nat,
    {
        let ghost w = self@.window;
        let ghost reg = self@.registry;
        proof {
            reveal(crate::grammar::decode_value);
            reveal(decode_interface);
            lemma_decode_bounds(w);
        }
        let name = self.read_string()?;
        let ghost n = decode_string(w)->Ok_0.1;
        if name.as_str().is_empty() {
            return Ok(Value::Nil);
        }
        let type_id = self.decode_concrete()?;
        let ghost c = decode_concrete(reg, after(w, n))->Ok_0;
        proof {
            lemma_after_after(w, n, c.used);
        }
        let _len = self.read_uint()?;
        let ghost m = decode_uvarint(after(w, n + c.used))->Ok_0.1;
        let ghost p = n + c.used + m;
        proof {
            lemma_after_after(w, n + c.used, m);
        }
        self.skip_marker()?;
        let ghost q = if after(w, p)[0] == 0 {
            p + 1
        } else {
            p
        };
        proof {
            lemma_after_after(w, p, (q - p) as nat);
        }
        if !self.knows(type_id) {
            return Err(GobError::UnknownType);
        }
        let schema = self.schema(type_id);
        let v = self.decode_value(&schema)?;
        proof {
            let step = crate::grammar::decode_value(
                c.registry,
                c.registry.types[c.id],
                after(w, q),
            )->Ok_0;
            lemma_after_after(w, q, step.used);
        }
        Ok(v)
    }
}

} // verus!
