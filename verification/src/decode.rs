//! The decoder: a framer and the registry of the types that its stream has
//! defined.

use crate::error::GobError;
use crate::framer::Framer;
use crate::grammar::{after, decode_header};
use crate::schema::{lookup, predeclared, register, Registry, RegistryView};
use crate::wire::{
    decode_bool, decode_bytes, decode_float, decode_int, decode_string, decode_uvarint,
};
use vstd::prelude::*;

pub use crate::schema::TypeSchema;

verus! {

/// Reads messages, type definitions and values from a byte source held in
/// memory.
///
/// While no message is open, reads see all of the source that is unread.
/// While one is open, they see what is left of that message. After any
/// error a decoder is to be discarded: nothing is promised of its state.
pub struct Decoder {
    reader: Framer,
    types: Registry,
}

/// A [`Decoder`] as mathematics.
pub ghost struct DecoderView {
    /// The bytes that may be read now: what is left of the open message, or
    /// of the source while none is open.
    pub window: Seq<u8>,
    /// The bytes of the source that follow the open message.
    pub rest: Seq<u8>,
    /// Whether a message is open.
    pub open: bool,
    /// Whether the source ended before the open message did.
    pub cut: bool,
    /// The types known so far.
    pub registry: RegistryView,
}

/// The state of a decoder between messages: `stream` is what is left of the
/// source.
pub open spec fn closed(stream: Seq<u8>, registry: RegistryView) -> DecoderView {
    DecoderView { window: stream, rest: Seq::empty(), open: false, cut: false, registry }
}

impl DecoderView {
    /// What of the source is left once the open message is closed. There is
    /// no closing a message that the source does not hold to its end.
    pub open spec fn pending(self) -> Result<Seq<u8>, GobError> {
        if !self.open {
            Ok(self.window)
        } else if self.cut {
            Err(GobError::TruncatedStream)
        } else {
            Ok(self.rest)
        }
    }

    /// The state after `n` bytes were read.
    pub open spec fn advance(self, n: nat) -> DecoderView {
        DecoderView { window: after(self.window, n), ..self }
    }

    /// The state after `n` bytes were read and the registry became
    /// `registry`.
    pub open spec fn advance_with(self, n: nat, registry: RegistryView) -> DecoderView {
        DecoderView { window: after(self.window, n), registry, ..self }
    }
}

impl View for Decoder {
    type V = DecoderView;

    closed spec fn view(&self) -> DecoderView {
        DecoderView {
            window: self.reader@.window,
            rest: self.reader@.rest,
            open: self.reader@.open,
            cut: self.reader@.cut,
            registry: self.types@,
        }
    }
}

impl Decoder {
    /// A decoder at the start of `reader`, with no message open and the
    /// predeclared types.
    pub fn new(reader: Vec<u8>) -> (d: Self)
        ensures
            d@ == closed(reader@, RegistryView { types: predeclared(), limit: None }),
    {
        Decoder { reader: Framer::new(reader), types: Registry::new() }
    }

    /// Like [`Decoder::new`], with a registry that never holds more than
    /// `limit` types.
    pub fn with_type_limit(reader: Vec<u8>, limit: usize) -> (d: Self)
        ensures
            d@ == closed(
                reader@,
                RegistryView { types: predeclared(), limit: Some(limit as nat) },
            ),
    {
        Decoder { reader: Framer::new(reader), types: Registry::with_limit(limit) }
    }

    /// The number of bytes that may be read now.
    pub fn remaining(&self) -> (n: usize)
        ensures
            n == self@.window.len(),
    {
        self.reader.remaining()
    }

    /// Reads one byte.
    pub fn read_u8(&mut self) -> (r: Result<u8, GobError>)
        ensures
            old(self)@.window.len() > 0 ==> r == Ok::<u8, GobError>(old(self)@.window[0])
                && final(self)@ == old(self)@.advance(1),
            old(self)@.window.len() == 0 ==> r == Err::<u8, GobError>(GobError::TruncatedMessage),
    {
        self.reader.read_u8()
    }

    /// Reads an unsigned integer. A count byte that announces more than
    /// eight bytes, or more bytes than are left, is invalid.
    pub fn read_uint(&mut self) -> (r: Result<u64, GobError>)
        ensures
            match decode_uvarint(old(self)@.window) {
                Ok((v, n)) => r == Ok::<u64, GobError>(v) && final(self)@ == old(self)@.advance(n),
                Err(e) => r == Err::<u64, GobError>(e),
            },
    {
        self.reader.read_uint()
    }

    /// Reads a signed integer.
    pub fn read_int(&mut self) -> (r: Result<i64, GobError>)
        ensures
            match decode_int(old(self)@.window) {
                Ok((v, n)) => r == Ok::<i64, GobError>(v) && final(self)@ == old(self)@.advance(n),
                Err(e) => r == Err::<i64, GobError>(e),
            },
    {
        self.reader.read_int()
    }

    /// Reads a float, as its IEEE-754 bit pattern.
    pub fn read_float(&mut self) -> (r: Result<u64, GobError>)
        ensures
            match decode_float(old(self)@.window) {
                Ok((v, n)) => r == Ok::<u64, GobError>(v) && final(self)@ == old(self)@.advance(n),
                Err(e) => r == Err::<u64, GobError>(e),
            },
    {
        self.reader.read_float()
    }

    /// Reads a boolean. An integer other than 0 and 1 is invalid.
    pub fn read_bool(&mut self) -> (r: Result<bool, GobError>)
        ensures
            match decode_bool(old(self)@.window) {
                Ok((v, n)) => r == Ok::<bool, GobError>(v) && final(self)@ == old(self)@.advance(n),
                Err(e) => r == Err::<bool, GobError>(e),
            },
    {
        self.reader.read_bool()
    }

    /// Reads the next `len` bytes as they are.
    pub fn read_exact_bytes(&mut self, len: usize) -> (r: Result<Vec<u8>, GobError>)
        ensures
            len <= old(self)@.window.len() ==> r is Ok && r->Ok_0@ == old(self)@.window.subrange(
                0,
                len as int,
            ) && final(self)@ == old(self)@.advance(len as nat),
            len > old(self)@.window.len() ==> r == Err::<Vec<u8>, GobError>(
                GobError::TruncatedMessage,
            ),
    {
        self.reader.read_exact_bytes(len)
    }

    /// Reads a byte string: its length, then that many bytes.
    pub fn read_bytes(&mut self) -> (r: Result<Vec<u8>, GobError>)
        ensures
            match decode_bytes(old(self)@.window) {
                Ok((v, n)) => r is Ok && r->Ok_0@ == v && final(self)@ == old(self)@.advance(n),
                Err(e) => r == Err::<Vec<u8>, GobError>(e),
            },
    {
        self.reader.read_bytes()
    }

    /// Reads a string: a byte string that must be well-formed UTF-8.
    pub fn read_string(&mut self) -> (r: Result<String, GobError>)
        ensures
            match decode_string(old(self)@.window) {
                Ok((v, n)) => r is Ok && r->Ok_0@ == v && final(self)@ == old(self)@.advance(n),
                Err(e) => r == Err::<String, GobError>(e),
            },
    {
        self.reader.read_string()
    }

    /// Whether the registry holds `id`.
    pub fn knows(&self, id: i64) -> (b: bool)
        ensures
            b == self@.registry.types.contains_key(id),
    {
        self.types.contains(id)
    }

    /// The schema registered under `id`, or the placeholder for it.
    pub fn schema(&self, id: i64) -> (s: TypeSchema)
        ensures
            s@ == lookup(self@.registry.types, id),
    {
        self.types.lookup(id)
    }

    /// Registers `schema` under `id`. Nothing changes where `id` already
    /// means `schema`; it is a `Redefinition` where `id` means something else,
    /// and `TooManyTypes` where the registry is full.
    pub fn register_type(&mut self, id: i64, schema: TypeSchema) -> (r: Result<(), GobError>)
        ensures
            match register(old(self)@.registry, id, schema@) {
                Ok(after) => r is Ok && final(self)@ == (DecoderView {
                    registry: after,
                    ..old(self)@
                }),
                Err(e) => r == Err::<(), GobError>(e) && final(self)@ == old(self)@,
            },
    {
        self.types.register(id, schema)
    }

    /// Steps over the zero byte that may stand in front of an interface
    /// value.
    pub fn skip_marker(&mut self) -> (r: Result<(), GobError>)
        ensures
            old(self)@.window.len() == 0 ==> r == Err::<(), GobError>(GobError::TruncatedMessage),
            old(self)@.window.len() > 0 ==> r is Ok && final(self)@ == old(self)@.advance(
                if old(self)@.window[0] == 0 {
                    1
                } else {
                    0
                },
            ),
    {
        self.reader.skip_marker()
    }

    /// Opens the next message, if the source holds one: reads its length,
    /// bounds what may be read by it, and reads its type identifier.
    pub(crate) fn open_message(&mut self) -> (r: Result<Option<i64>, GobError>)
        requires
            !old(self)@.open,
        ensures
            old(self)@.window.len() == 0 ==> r == Ok::<Option<i64>, GobError>(None) && final(self)@
                == old(self)@,
            old(self)@.window.len() > 0 ==> match decode_header(old(self)@.window) {
                Ok(h) => r == Ok::<Option<i64>, GobError>(Some(h.id)) && final(self)@
                    == (DecoderView {
                    window: old(self)@.window.subrange(h.body as int, h.end as int),
                    rest: old(self)@.window.skip(h.end as int),
                    open: true,
                    cut: h.cut,
                    registry: old(self)@.registry,
                }),
                Err(e) => r == Err::<Option<i64>, GobError>(e),
            },
    {
        self.reader.open_message()
    }

    /// Closes the open message, if there is one: what is left of it is
    /// passed over. Where the source ends before the message does, the
    /// stream is truncated.
    pub fn close(&mut self) -> (r: Result<(), GobError>)
        ensures
            match old(self)@.pending() {
                Ok(stream) => r is Ok && final(self)@ == closed(stream, old(self)@.registry),
                Err(e) => r == Err::<(), GobError>(e),
            },
    {
        self.reader.close()
    }
}

} // verus!
