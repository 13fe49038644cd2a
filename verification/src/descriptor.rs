//! The decoder of type descriptors.

use crate::decode::Decoder;
use crate::error::GobError;
use crate::grammar::{
    after, decode_end, decode_map_type_from, decode_struct_type_from, lemma_after_after, shift,
    NameId,
};
use crate::schema::{SchemaView, TypeSchema};
use crate::types::{
    fields_view, CommonType, FieldType, FieldTypeView, MapType, MapTypeView, StructType,
    StructTypeView,
};
use crate::wire::{decode_int, decode_string, decode_uvarint, lemma_decode_bounds};
use vstd::prelude::*;

verus! {

impl Decoder {
    /// Reads a (name, identifier) struct: the header of a descriptor, or
    /// the descriptor of one field.
    fn decode_name_id(&mut self) -> (r: Result<(String, i64), GobError>)
        ensures
            match crate::grammar::decode_name_id(old(self)@.window) {
                Ok((v, n)) => r is Ok && r->Ok_0.0@ == v.name && r->Ok_0.1 == v.id && final(self)@
                    == old(self)@.advance(n),
                Err(e) => r == Err::<(String, i64), GobError>(e),
            },
    {
        let mut name = String::new();
        let mut id: i64 = 0;
        let mut idx: i64 = -1;
        let ghost w0 = self@.window;
        let ghost mut used: nat = 0;
        assert(after(w0, 0) =~= w0);
        loop
            invariant
                -1 <= idx <= 1,
                w0 == old(self)@.window,
                self@ == old(self)@.advance(used),
                crate::grammar::decode_name_id(w0) == shift(
                    crate::grammar::decode_name_id_from(
                        idx as int,
                        NameId { name: name@, id },
                        self@.window,
                    ),
                    used,
                ),
            decreases self@.window.len(),
        {
            let ghost w = self@.window;
            proof {
                lemma_decode_bounds(w);
            }
            let delta = self.read_uint()?;
            let ghost n = decode_uvarint(w)->Ok_0.1;
            if delta == 0 {
                proof {
                    lemma_after_after(w0, used, n);
                }
                return Ok((name, id));
            }
            if idx == -1 && delta == 1 {
                name = self.read_string()?;
                proof {
                    let k = decode_string(after(w, n))->Ok_0.1;
                    lemma_after_after(w, n, k);
                    lemma_after_after(w0, used, n + k);
                    used = used + n + k;
                }
                idx = 0;
            } else if (idx == -1 && delta == 2) || (idx == 0 && delta == 1) {
                id = self.read_int()?;
                proof {
                    let k = decode_int(after(w, n))->Ok_0.1;
                    lemma_after_after(w, n, k);
                    lemma_after_after(w0, used, n + k);
                    used = used + n + k;
                }
                idx = 1;
            } else {
                return Err(GobError::InvalidData);
            }
        }
    }

    /// Reads `count` field descriptors.
    fn decode_field_list(&mut self, count: u64) -> (r: Result<Vec<FieldType>, GobError>)
        ensures
            match crate::grammar::decode_field_list(
                count as nat,
                Seq::empty(),
                old(self)@.window,
            ) {
                Ok((v, n)) => r is Ok && fields_view(r->Ok_0@) == v && final(self)@
                    == old(self)@.advance(n),
                Err(e) => r == Err::<Vec<FieldType>, GobError>(e),
            },
    {
        let mut fields: Vec<FieldType> = Vec::new();
        let mut i: u64 = 0;
        let ghost w0 = self@.window;
        let ghost mut used: nat = 0;
        proof {
            assert(fields_view(fields@) =~= Seq::<FieldTypeView>::empty());
            assert(after(w0, 0) =~= w0);
        }
        while i < count
            invariant
                i <= count,
                w0 == old(self)@.window,
                self@ == old(self)@.advance(used),
                crate::grammar::decode_field_list(count as nat, Seq::empty(), w0) == shift(
                    crate::grammar::decode_field_list(
                        (count - i) as nat,
                        fields_view(fields@),
                        self@.window,
                    ),
                    used,
                ),
            decreases count - i,
        {
            let ghost w = self@.window;
            let ghost before = fields_view(fields@);
            let (name, id) = self.decode_name_id()?;
            proof {
                let f = crate::grammar::decode_name_id(w)->Ok_0.0;
                let k = crate::grammar::decode_name_id(w)->Ok_0.1;
                lemma_after_after(w0, used, k);
                used = used + k;
                assert(fields_view(fields@.push(FieldType { name, id })) =~= before.push(
                    FieldTypeView { name: f.name, id: f.id },
                ));
            }
            fields.push(FieldType { name, id });
            i = i + 1;
        }
        Ok(fields)
    }

    /// Reads a list of field descriptors with its count in front. A count
    /// larger than the number of bytes left is invalid.
    fn decode_counted_fields(&mut self) -> (r: Result<Vec<FieldType>, GobError>)
        ensures
            match crate::grammar::decode_counted_fields(old(self)@.window) {
                Ok((v, n)) => r is Ok && fields_view(r->Ok_0@) == v && final(self)@
                    == old(self)@.advance(n),
                Err(e) => r == Err::<Vec<FieldType>, GobError>(e),
            },
    {
        let ghost w = self@.window;
        let count = self.read_uint()?;
        if count > self.remaining() as u64 {
            return Err(GobError::InvalidData);
        }
        let fields = self.decode_field_list(count)?;
        proof {
            let m = decode_uvarint(w)->Ok_0.1;
            let k = crate::grammar::decode_field_list(
                count as nat,
                Seq::empty(),
                after(w, m),
            )->Ok_0.1;
            lemma_after_after(w, m, k);
        }
        Ok(fields)
    }

    /// Reads a struct descriptor: its header and the list of its fields.
    /// A field index past 1 is invalid.
    pub fn decode_struct_type(&mut self) -> (r: Result<TypeSchema, GobError>)
        ensures
            match crate::grammar::decode_struct_type(old(self)@.window) {
                Ok((t, n)) => r is Ok && r->Ok_0@ == SchemaView::Struct(t) && final(self)@
                    == old(self)@.advance(n),
                Err(e) => r == Err::<TypeSchema, GobError>(e),
            },
    {
        let mut common = CommonType::new();
        let mut fields: Vec<FieldType> = Vec::new();
        let mut idx: i64 = -1;
        let ghost w0 = self@.window;
        let ghost mut used: nat = 0;
        proof {
            assert(after(w0, 0) =~= w0);
            assert(fields_view(fields@) =~= Seq::<FieldTypeView>::empty());
        }
        loop
            invariant
                -1 <= idx <= 1,
                w0 == old(self)@.window,
                self@ == old(self)@.advance(used),
                crate::grammar::decode_struct_type(w0) == shift(
                    decode_struct_type_from(
                        idx as int,
                        StructTypeView { common: common@, fields: fields_view(fields@) },
                        self@.window,
                    ),
                    used,
                ),
            decreases self@.window.len(),
        {
            let ghost w = self@.window;
            proof {
                lemma_decode_bounds(w);
            }
            let delta = self.read_uint()?;
            let ghost n = decode_uvarint(w)->Ok_0.1;
            if delta == 0 {
                proof {
                    lemma_after_after(w0, used, n);
                }
                return Ok(TypeSchema::Struct(StructType { common, fields }));
            }
            if idx == -1 && delta == 1 {
                let (name, id) = self.decode_name_id()?;
                common = CommonType { name, id };
                proof {
                    let k = crate::grammar::decode_name_id(after(w, n))->Ok_0.1;
                    lemma_after_after(w, n, k);
                    lemma_after_after(w0, used, n + k);
                    used = used + n + k;
                }
                idx = 0;
            } else if (idx == -1 && delta == 2) || (idx == 0 && delta == 1) {
                fields = self.decode_counted_fields()?;
                proof {
                    let k = crate::grammar::decode_counted_fields(after(w, n))->Ok_0.1;
                    lemma_after_after(w, n, k);
                    lemma_after_after(w0, used, n + k);
                    used = used + n + k;
                }
                idx = 1;
            } else {
                return Err(GobError::InvalidData);
            }
        }
    }

    /// Reads a map descriptor: its header and the identifiers of its key
    /// and element types. A field index past 2 is invalid.
    pub fn decode_map_type(&mut self) -> (r: Result<TypeSchema, GobError>)
        ensures
            match crate::grammar::decode_map_type(old(self)@.window) {
                Ok((t, n)) => r is Ok && r->Ok_0@ == SchemaView::MapOf(t) && final(self)@
                    == old(self)@.advance(n),
                Err(e) => r == Err::<TypeSchema, GobError>(e),
            },
    {
        let mut common = CommonType::new();
        let mut key_id: i64 = 0;
        let mut elem_id: i64 = 0;
        let mut idx: i64 = -1;
        let ghost w0 = self@.window;
        let ghost mut used: nat = 0;
        proof {
            assert(after(w0, 0) =~= w0);
        }
        loop
            invariant
                -1 <= idx <= 2,
                w0 == old(self)@.window,
                self@ == old(self)@.advance(used),
                crate::grammar::decode_map_type(w0) == shift(
                    decode_map_type_from(
                        idx as int,
                        MapTypeView { common: common@, key: key_id, elem: elem_id },
                        self@.window,
                    ),
                    used,
                ),
            decreases self@.window.len(),
        {
            let ghost w = self@.window;
            proof {
                lemma_decode_bounds(w);
            }
            let delta = self.read_uint()?;
            let ghost n = decode_uvarint(w)->Ok_0.1;
            if delta == 0 {
                proof {
                    lemma_after_after(w0, used, n);
                }
                return Ok(TypeSchema::MapOf(MapType { common, key: key_id, elem: elem_id }));
            }
            if delta > 3 {
                return Err(GobError::InvalidData);
            }
            let field = idx + delta as i64;
            if field == 0 {
                let (name, id) = self.decode_name_id()?;
                common = CommonType { name, id };
                proof {
                    let k = crate::grammar::decode_name_id(after(w, n))->Ok_0.1;
                    lemma_after_after(w, n, k);
                    lemma_after_after(w0, used, n + k);
                    used = used + n + k;
                }
            } else if field == 1 {
                key_id = self.read_int()?;
                proof {
                    let k = decode_int(after(w, n))->Ok_0.1;
                    lemma_after_after(w, n, k);
                    lemma_after_after(w0, used, n + k);
                    used = used + n + k;
                }
            } else if field == 2 {
                elem_id = self.read_int()?;
                proof {
                    let k = decode_int(after(w, n))->Ok_0.1;
                    lemma_after_after(w, n, k);
                    lemma_after_after(w0, used, n + k);
                    used = used + n + k;
                }
            } else {
                return Err(GobError::InvalidData);
            }
            idx = field;
        }
    }

    /// Reads the zero delta that ends a definition.
    fn decode_end(&mut self) -> (r: Result<(), GobError>)
        ensures
            match decode_end(old(self)@.window) {
                Ok(n) => r is Ok && final(self)@ == old(self)@.advance(n),
                Err(e) => r == Err::<(), GobError>(e),
            },
    {
        let delta = self.read_uint()?;
        if delta == 0 {
            Ok(())
        } else {
            Err(GobError::InvalidData)
        }
    }

    /// Reads a type definition and gives the schema it defines. Structs and
    /// maps are read; arrays, slices and types with encoders of their own
    /// are unsupported; anything else is invalid.
    pub fn decode_wire_type(&mut self) -> (r: Result<TypeSchema, GobError>)
        ensures
            match crate::grammar::decode_wire_type(old(self)@.window) {
                Ok((t, n)) => r is Ok && r->Ok_0@ == t && final(self)@ == old(self)@.advance(n),
                Err(e) => r == Err::<TypeSchema, GobError>(e),
            },
    {
        let ghost w = self@.window;
        let delta = self.read_uint()?;
        let ghost n = decode_uvarint(w)->Ok_0.1;
        if delta == 0 || delta > 7 {
            return Err(GobError::InvalidData);
        }
        if delta == 3 {
            let schema = self.decode_struct_type()?;
            let ghost k = crate::grammar::decode_struct_type(after(w, n))->Ok_0.1;
            proof {
                lemma_after_after(w, n, k);
            }
            self.decode_end()?;
            proof {
                let m = decode_end(after(w, n + k))->Ok_0;
                lemma_after_after(w, n + k, m);
            }
            Ok(schema)
        } else if delta == 4 {
            let schema = self.decode_map_type()?;
            let ghost k = crate::grammar::decode_map_type(after(w, n))->Ok_0.1;
            proof {
                lemma_after_after(w, n, k);
            }
            self.decode_end()?;
            proof {
                let m = decode_end(after(w, n + k))->Ok_0;
                lemma_after_after(w, n + k, m);
            }
            Ok(schema)
        } else {
            Err(GobError::Unsupported)
        }
    }
}

} // verus!
