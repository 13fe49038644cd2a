//! The writing half of the bit codec.

use crate::error::GobError;
use crate::layout::{
    encode_field_list, encode_map_type, encode_name_id, encode_struct_type, encode_wire_type,
    frame, guarded, message, payload,
};
use crate::schema::TypeSchema;
use crate::types::{fields_view, FieldType, MapType, StructType};
use crate::wire::{
    be_bytes, byte_width, encode_bool, encode_bytes, encode_float, encode_int, encode_string,
    encode_uvarint, lemma_byte_width_u64, swap_bytes, zigzag,
};
use vstd::prelude::*;

verus! {

/// Writes primitives onto the end of a byte buffer.
pub struct Encoder {
    writer: Vec<u8>,
}

impl View for Encoder {
    type V = Seq<u8>;

    /// Everything the buffer holds.
    closed spec fn view(&self) -> Seq<u8> {
        self.writer@
    }
}

/// The byte-reversed form of a 64-bit pattern.
pub fn reverse_bytes(x: u64) -> (r: u64)
    ensures
        r == swap_bytes(x),
{
    ((x & 0xff) << 56) | (((x >> 8) & 0xff) << 48) | (((x >> 16) & 0xff) << 40) | (((x >> 24)
        & 0xff) << 32) | (((x >> 32) & 0xff) << 24) | (((x >> 40) & 0xff) << 16) | (((x >> 48)
        & 0xff) << 8) | ((x >> 56) & 0xff)
}

/// The unsigned integer that stands for a signed one on the wire.
pub fn fold_sign(v: i64) -> (u: u64)
    ensures
        u == zigzag(v),
{
    if v < 0 {
        ((-(v + 1)) as u64) * 2 + 1
    } else {
        (v as u64) * 2
    }
}

impl Encoder {
    /// An encoder that appends to `writer`.
    pub fn new(writer: Vec<u8>) -> (e: Self)
        ensures
            e@ == writer@,
    {
        Self { writer }
    }

    /// Gives the buffer back.
    pub fn into_inner(self) -> (bytes: Vec<u8>)
        ensures
            bytes@ == self@,
    {
        self.writer
    }

    /// Hands on what was written. The buffer holds it already, so that
    /// nothing is left to do.
    pub fn flush(&mut self) -> (r: Result<(), GobError>)
        ensures
            r is Ok,
            final(self)@ == old(self)@,
    {
        Ok(())
    }

    /// Appends `buf` as it is.
    pub fn write_all(&mut self, buf: &[u8]) -> (r: Result<(), GobError>)
        ensures
            r is Ok,
            final(self)@ == old(self)@ + buf@,
    {
        self.writer.extend_from_slice(buf);
        Ok(())
    }

    /// Appends a single byte.
    pub fn write_u8(&mut self, v: u8) -> (r: Result<(), GobError>)
        ensures
            r is Ok,
            final(self)@ == old(self)@.push(v),
    {
        self.writer.push(v);
        Ok(())
    }

    /// Appends an unsigned integer: one byte for a value under 128, else
    /// the complemented byte count and the value's bytes, big-endian and
    /// without leading zeros.
    pub fn write_uint(&mut self, v: u64) -> (r: Result<(), GobError>)
        ensures
            r is Ok,
            final(self)@ == old(self)@ + encode_uvarint(v),
    {
        if v < 128 {
            self.writer.push(v as u8);
            assert(self@ =~= old(self)@ + encode_uvarint(v));
            return Ok(());
        }
        proof {
            lemma_byte_width_u64(v);
        }
        let mut n: usize = 1;
        let mut temp: u64 = v;
        while temp >= 256
            invariant
                1 <= n,
                byte_width(v as nat) == (n - 1) + byte_width(temp as nat),
                byte_width(v as nat) <= 8,
            decreases temp,
        {
            n = n + 1;
            temp = temp / 256;
        }
        assert(n == byte_width(v as nat));
        let mut digits: Vec<u8> = Vec::new();
        let mut k: usize = 0;
        while k < n
            invariant
                k <= n,
                digits.len() == k,
            decreases n - k,
        {
            digits.push(0);
            k = k + 1;
        }
        let mut temp: u64 = v;
        let mut i: usize = 0;
        while i < n
            invariant
                i <= n,
                n <= 8,
                digits.len() == n,
                be_bytes(v as nat, n as nat) == be_bytes(temp as nat, (n - i) as nat)
                    + digits@.subrange(n - i, n as int),
            decreases n - i,
        {
            let ghost before = digits@;
            digits.set(n - 1 - i, (temp % 256) as u8);
            proof {
                let m = (n - i) as nat;
                assert(be_bytes(temp as nat, m) == be_bytes((temp / 256) as nat, (m - 1) as nat).push(
                    (temp % 256) as u8,
                ));
                assert(digits@.subrange(n - i - 1, n as int) =~= seq![(temp % 256) as u8]
                    + before.subrange(n - i, n as int));
                assert(be_bytes(v as nat, n as nat) =~= be_bytes(
                    (temp / 256) as nat,
                    (m - 1) as nat,
                ) + digits@.subrange(n - i - 1, n as int));
            }
            temp = temp / 256;
            i = i + 1;
        }
        self.writer.push((256 - n) as u8);
        self.writer.extend_from_slice(digits.as_slice());
        proof {
            assert(digits@.subrange(0, n as int) =~= digits@);
            assert(be_bytes(temp as nat, 0) =~= Seq::<u8>::empty());
            assert(be_bytes(v as nat, n as nat) =~= digits@);
            assert(self@ =~= old(self)@ + encode_uvarint(v));
        }
        Ok(())
    }

    /// Appends a signed integer: its sign folded into the lowest bit, then
    /// written as an unsigned integer.
    pub fn write_int(&mut self, v: i64) -> (r: Result<(), GobError>)
        ensures
            r is Ok,
            final(self)@ == old(self)@ + encode_int(v),
    {
        self.write_uint(fold_sign(v))
    }

    /// Appends a float, given by its IEEE-754 bit pattern: the pattern with
    /// its bytes reversed, written as an unsigned integer.
    pub fn write_float(&mut self, bits: u64) -> (r: Result<(), GobError>)
        ensures
            r is Ok,
            final(self)@ == old(self)@ + encode_float(bits),
    {
        self.write_uint(reverse_bytes(bits))
    }

    /// Appends a boolean: the unsigned integer 1 or 0.
    pub fn write_bool(&mut self, v: bool) -> (r: Result<(), GobError>)
        ensures
            r is Ok,
            final(self)@ == old(self)@ + encode_bool(v),
    {
        if v {
            self.write_uint(1)
        } else {
            self.write_uint(0)
        }
    }

    /// Appends a byte string: its length, then its bytes.
    pub fn write_bytes(&mut self, v: &[u8]) -> (r: Result<(), GobError>)
        ensures
            r is Ok,
            final(self)@ == old(self)@ + encode_bytes(v@),
    {
        let _ = self.write_uint(v.len() as u64);
        self.writer.extend_from_slice(v);
        assert(self@ =~= old(self)@ + encode_bytes(v@));
        Ok(())
    }

    /// Appends a string: its UTF-8 bytes as a byte string.
    pub fn write_string(&mut self, v: &str) -> (r: Result<(), GobError>)
        ensures
            r is Ok,
            final(self)@ == old(self)@ + encode_string(v@),
    {
        self.write_bytes(v.as_bytes())
    }

    /// Appends a message: the length of identifier and body together, the
    /// identifier, the body. Where that length does not fit an unsigned
    /// 64-bit integer, the message is unsupported and nothing is written.
    pub fn write_message(&mut self, id: i64, body: &[u8]) -> (r: Result<(), GobError>)
        ensures
            match message(id, body@) {
                Some(m) => r is Ok && final(self)@ == old(self)@ + m,
                None => r == Err::<(), GobError>(GobError::Unsupported) && final(self)@ == old(self)@,
            },
    {
        let mut head = Encoder::new(Vec::new());
        let _ = head.write_int(id);
        let head = head.into_inner();
        assert(head@ =~= encode_int(id));
        proof {
            crate::wire::law_uvarint_len(zigzag(id));
        }
        if body.len() as u64 > u64::MAX - head.len() as u64 {
            return Err(GobError::Unsupported);
        }
        let total = head.len() as u64 + body.len() as u64;
        let _ = self.write_uint(total);
        let _ = self.write_all(head.as_slice());
        let _ = self.write_all(body);
        assert(self@ =~= old(self)@ + frame(id, body@));
        Ok(())
    }

    /// Appends a (name, identifier) struct with both fields sent.
    pub fn write_name_id(&mut self, name: &str, id: i64) -> (r: Result<(), GobError>)
        ensures
            r is Ok,
            final(self)@ == old(self)@ + encode_name_id(name@, id),
    {
        let _ = self.write_uint(1);
        let _ = self.write_string(name);
        let _ = self.write_uint(1);
        let _ = self.write_int(id);
        let _ = self.write_uint(0);
        assert(self@ =~= old(self)@ + encode_name_id(name@, id));
        Ok(())
    }

    /// Appends the descriptors of `fields`, one after the other.
    pub fn write_field_list(&mut self, fields: &Vec<FieldType>) -> (r: Result<(), GobError>)
        ensures
            r is Ok,
            final(self)@ == old(self)@ + encode_field_list(fields_view(fields@)),
    {
        let ghost fv = fields_view(fields@);
        let mut i: usize = 0;
        proof {
            assert(fv.subrange(0, 0) =~= Seq::empty());
            assert(self@ =~= old(self)@ + encode_field_list(fv.subrange(0, 0)));
        }
        while i < fields.len()
            invariant
                i <= fields.len(),
                fv == fields_view(fields@),
                self@ == old(self)@ + encode_field_list(fv.subrange(0, i as int)),
            decreases fields.len() - i,
        {
            let ghost before = self@;
            let _ = self.write_name_id(fields[i].name.as_str(), fields[i].id);
            proof {
                crate::layout::lemma_field_list_push(fv.subrange(0, i as int), fv[i as int]);
                assert(fv.subrange(0, i + 1) =~= fv.subrange(0, i as int).push(fv[i as int]));
                assert(self@ =~= old(self)@ + encode_field_list(fv.subrange(0, i + 1)));
            }
            i = i + 1;
        }
        assert(fv.subrange(0, i as int) =~= fv);
        Ok(())
    }

    /// Appends a struct descriptor.
    pub fn write_struct_type(&mut self, t: &StructType) -> (r: Result<(), GobError>)
        ensures
            r is Ok,
            final(self)@ == old(self)@ + encode_struct_type(t@),
    {
        let _ = self.write_uint(1);
        let _ = self.write_name_id(t.common.name.as_str(), t.common.id);
        let _ = self.write_uint(1);
        let _ = self.write_uint(t.fields.len() as u64);
        let _ = self.write_field_list(&t.fields);
        let _ = self.write_uint(0);
        assert(self@ =~= old(self)@ + encode_struct_type(t@));
        Ok(())
    }

    /// Appends a map descriptor.
    pub fn write_map_type(&mut self, m: &MapType) -> (r: Result<(), GobError>)
        ensures
            r is Ok,
            final(self)@ == old(self)@ + encode_map_type(m@),
    {
        let _ = self.write_uint(1);
        let _ = self.write_name_id(m.common.name.as_str(), m.common.id);
        let _ = self.write_uint(1);
        let _ = self.write_int(m.key);
        let _ = self.write_uint(1);
        let _ = self.write_int(m.elem);
        let _ = self.write_uint(0);
        assert(self@ =~= old(self)@ + encode_map_type(m@));
        Ok(())
    }

    /// Appends the body of a definition message for `schema`. Only struct
    /// and map types can be defined; anything else is unsupported, and
    /// nothing is written.
    pub fn write_wire_type(&mut self, schema: &TypeSchema) -> (r: Result<(), GobError>)
        ensures
            schema is Struct || schema is MapOf ==> r is Ok && final(self)@ == old(self)@
                + encode_wire_type(schema@),
            !(schema is Struct || schema is MapOf) ==> r == Err::<(), GobError>(
                GobError::Unsupported,
            ) && final(self)@ == old(self)@,
    {
        match schema {
            TypeSchema::Struct(t) => {
                let _ = self.write_uint(3);
                let _ = self.write_struct_type(t);
                let _ = self.write_uint(0);
                assert(self@ =~= old(self)@ + encode_wire_type(schema@));
                Ok(())
            },
            TypeSchema::MapOf(m) => {
                let _ = self.write_uint(4);
                let _ = self.write_map_type(m);
                let _ = self.write_uint(0);
                assert(self@ =~= old(self)@ + encode_wire_type(schema@));
                Ok(())
            },
            _ => Err(GobError::Unsupported),
        }
    }

    /// Appends a value's bytes as they stand in an interface value: their
    /// length, a zero byte where the first of them is zero, and the bytes.
    /// Where that length does not fit an unsigned 64-bit integer, the value
    /// is unsupported and nothing is written.
    pub fn write_guarded(&mut self, body: &[u8]) -> (r: Result<(), GobError>)
        ensures
            match payload(body@) {
                Some(p) => r is Ok && final(self)@ == old(self)@ + p,
                None => r == Err::<(), GobError>(GobError::Unsupported) && final(self)@ == old(self)@,
            },
    {
        if body.len() > 0 && body[0] == 0 {
            if body.len() as u64 == u64::MAX {
                return Err(GobError::Unsupported);
            }
            let _ = self.write_uint(body.len() as u64 + 1);
            let _ = self.write_u8(0);
            let _ = self.write_all(body);
            assert(self@ =~= old(self)@ + encode_bytes(guarded(body@)));
        } else {
            let _ = self.write_bytes(body);
        }
        Ok(())
    }
}

/// The bytes of an interface value in one piece: the name of the concrete
/// type, its identifier, and the value's bytes with their length in front.
pub open spec fn interface_of(name: Seq<char>, id: i64, body: Seq<u8>) -> Option<Seq<u8>> {
    match payload(body) {
        Some(p) => Some(encode_string(name) + encode_int(id) + p),
        None => None,
    }
}

/// A type that can be written into the body of a message.
pub trait GobEncodable {
    /// The bytes that `encode` appends, or the error that it ends in.
    spec fn wire(&self) -> Result<Seq<u8>, GobError>;

    /// What `type_id` gives.
    spec fn wire_id(&self) -> i64;

    /// What `concrete_name` gives.
    spec fn wire_name(&self) -> Seq<char>;

    /// Appends this value to `encoder`.
    fn encode(&self, encoder: &mut Encoder) -> (r: Result<(), GobError>)
        ensures
            match self.wire() {
                Ok(b) => r is Ok && final(encoder)@ == old(encoder)@ + b,
                Err(e) => r == Err::<(), GobError>(e),
            },
    ;

    /// The identifier of this value's type.
    fn type_id(&self) -> (id: i64)
        ensures
            id == self.wire_id(),
    ;

    /// The name that an interface value gives for this value's type.
    fn concrete_name(&self) -> (name: &'static str)
        ensures
            name@ == self.wire_name(),
    ;
}

impl GobEncodable for bool {
    open spec fn wire(&self) -> Result<Seq<u8>, GobError> {
        Ok(encode_bool(*self))
    }

    open spec fn wire_id(&self) -> i64 {
        1
    }

    open spec fn wire_name(&self) -> Seq<char> {
        "bool"@
    }

    fn encode(&self, encoder: &mut Encoder) -> (r: Result<(), GobError>) {
        encoder.write_bool(*self)
    }

    fn type_id(&self) -> (id: i64) {
        1
    }

    fn concrete_name(&self) -> (name: &'static str) {
        "bool"
    }
}

impl GobEncodable for i64 {
    open spec fn wire(&self) -> Result<Seq<u8>, GobError> {
        Ok(encode_int(*self))
    }

    open spec fn wire_id(&self) -> i64 {
        2
    }

    open spec fn wire_name(&self) -> Seq<char> {
        "int64"@
    }

    fn encode(&self, encoder: &mut Encoder) -> (r: Result<(), GobError>) {
        encoder.write_int(*self)
    }

    fn type_id(&self) -> (id: i64) {
        2
    }

    fn concrete_name(&self) -> (name: &'static str) {
        "int64"
    }
}

impl GobEncodable for u64 {
    open spec fn wire(&self) -> Result<Seq<u8>, GobError> {
        Ok(encode_uvarint(*self))
    }

    open spec fn wire_id(&self) -> i64 {
        3
    }

    open spec fn wire_name(&self) -> Seq<char> {
        "uint64"@
    }

    fn encode(&self, encoder: &mut Encoder) -> (r: Result<(), GobError>) {
        encoder.write_uint(*self)
    }

    fn type_id(&self) -> (id: i64) {
        3
    }

    fn concrete_name(&self) -> (name: &'static str) {
        "uint64"
    }
}

impl GobEncodable for String {
    open spec fn wire(&self) -> Result<Seq<u8>, GobError> {
        Ok(encode_string(self@))
    }

    open spec fn wire_id(&self) -> i64 {
        6
    }

    open spec fn wire_name(&self) -> Seq<char> {
        "string"@
    }

    fn encode(&self, encoder: &mut Encoder) -> (r: Result<(), GobError>) {
        encoder.write_string(self.as_str())
    }

    fn type_id(&self) -> (id: i64) {
        6
    }

    fn concrete_name(&self) -> (name: &'static str) {
        "string"
    }
}

impl GobEncodable for Vec<u8> {
    open spec fn wire(&self) -> Result<Seq<u8>, GobError> {
        Ok(encode_bytes(self@))
    }

    open spec fn wire_id(&self) -> i64 {
        5
    }

    open spec fn wire_name(&self) -> Seq<char> {
        "[]byte"@
    }

    fn encode(&self, encoder: &mut Encoder) -> (r: Result<(), GobError>) {
        encoder.write_bytes(self.as_slice())
    }

    fn type_id(&self) -> (id: i64) {
        5
    }

    fn concrete_name(&self) -> (name: &'static str) {
        "[]byte"
    }
}

impl Encoder {
    /// Appends `val` as an interface value that is said to be of the type
    /// `name` with the identifier `type_id`. Where `val` cannot be encoded,
    /// or is too long for its length to be said, nothing is written.
    pub fn write_interface_wrapper<T: GobEncodable>(
        &mut self,
        name: &str,
        type_id: i64,
        val: &T,
    ) -> (r: Result<(), GobError>)
        ensures
            match val.wire() {
                Err(e) => r == Err::<(), GobError>(e) && final(self)@ == old(self)@,
                Ok(b) => match interface_of(name@, type_id, b) {
                    None => r == Err::<(), GobError>(GobError::Unsupported) && final(self)@
                        == old(self)@,
                    Some(bytes) => r is Ok && final(self)@ == old(self)@ + bytes,
                },
            },
    {
        let mut temp_enc = Encoder::new(Vec::new());
        val.encode(&mut temp_enc)?;
        let temp_buf = temp_enc.into_inner();
        assert(temp_buf@ =~= val.wire()->Ok_0);
        if temp_buf.len() > 0 && temp_buf[0] == 0 && temp_buf.len() as u64 == u64::MAX {
            return Err(GobError::Unsupported);
        }
        let _ = self.write_string(name);
        let _ = self.write_int(type_id);
        let _ = self.write_guarded(temp_buf.as_slice());
        assert(self@ =~= old(self)@ + interface_of(name@, type_id, temp_buf@)->0);
        Ok(())
    }
}

/// Appends `value` as an interface value, under the name and the identifier
/// that its type gives for itself. Where `value` cannot be encoded, or is too
/// long for its length to be said, nothing is written.
pub fn encode_as_interface<T: GobEncodable>(value: &T, encoder: &mut Encoder) -> (r: Result<
    (),
    GobError,
>)
    ensures
        match value.wire() {
            Err(e) => r == Err::<(), GobError>(e) && final(encoder)@ == old(encoder)@,
            Ok(b) => match interface_of(value.wire_name(), value.wire_id(), b) {
                None => r == Err::<(), GobError>(GobError::Unsupported) && final(encoder)@ == old(encoder)@,
                Some(bytes) => r is Ok && final(encoder)@ == old(encoder)@ + bytes,
            },
        },
{
    let name = value.concrete_name();
    let type_id = value.type_id();
    encoder.write_interface_wrapper(name, type_id, value)
}

} // verus!
