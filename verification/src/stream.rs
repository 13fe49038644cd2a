//! Reading a stream message by message.

use crate::decode::{closed, Decoder, DecoderView};
use crate::wire::{decode_bool, decode_bytes, decode_int, decode_string, decode_uvarint};
use crate::error::GobError;
use crate::grammar::{
    define, lemma_header_bounds, next_message, next_value, read_all, Arrival, Message,
};
use crate::schema::RegistryView;
use crate::value::{canonical, items_view, Value, ValueView};
use vstd::prelude::*;

verus! {

/// The state of a decoder inside the message `m`, before anything of its
/// body is read.
pub open spec fn opened(m: Message, registry: RegistryView) -> DecoderView {
    DecoderView { window: m.body, rest: m.rest, open: true, cut: m.cut, registry }
}

/// The state of a decoder at what [`next_message`] arrives at.
pub open spec fn arrived(a: Arrival) -> DecoderView {
    match a.message {
        None => closed(Seq::empty(), a.registry),
        Some(m) => opened(m, a.registry),
    }
}

/// The identifier of the message that [`next_message`] arrives at.
pub open spec fn arrived_id(a: Arrival) -> Option<i64> {
    match a.message {
        None => None,
        Some(m) => Some(m.id),
    }
}

/// A type that can be read from the body of a message.
pub trait GobDecodable: Sized {
    /// What `decode` does: `before` and `after` are the decoder's states
    /// around the call, and `r` is what the call returns.
    spec fn decoded(before: DecoderView, r: Result<Self, GobError>, after: DecoderView) -> bool;

    /// Reads a value of this type from what is left of the open message.
    fn decode(decoder: &mut Decoder) -> (r: Result<Self, GobError>)
        ensures
            Self::decoded(old(decoder)@, r, final(decoder)@),
    ;
}

impl GobDecodable for bool {
    open spec fn decoded(before: DecoderView, r: Result<Self, GobError>, after: DecoderView) -> bool {
        match decode_bool(before.window) {
            Ok((v, n)) => r == Ok::<bool, GobError>(v) && after == before.advance(n),
            Err(e) => r == Err::<bool, GobError>(e),
        }
    }

    fn decode(decoder: &mut Decoder) -> (r: Result<Self, GobError>) {
        decoder.read_bool()
    }
}

impl GobDecodable for i64 {
    open spec fn decoded(before: DecoderView, r: Result<Self, GobError>, after: DecoderView) -> bool {
        match decode_int(before.window) {
            Ok((v, n)) => r == Ok::<i64, GobError>(v) && after == before.advance(n),
            Err(e) => r == Err::<i64, GobError>(e),
        }
    }

    fn decode(decoder: &mut Decoder) -> (r: Result<Self, GobError>) {
        decoder.read_int()
    }
}

impl GobDecodable for u64 {
    open spec fn decoded(before: DecoderView, r: Result<Self, GobError>, after: DecoderView) -> bool {
        match decode_uvarint(before.window) {
            Ok((v, n)) => r == Ok::<u64, GobError>(v) && after == before.advance(n),
            Err(e) => r == Err::<u64, GobError>(e),
        }
    }

    fn decode(decoder: &mut Decoder) -> (r: Result<Self, GobError>) {
        decoder.read_uint()
    }
}

impl GobDecodable for String {
    open spec fn decoded(before: DecoderView, r: Result<Self, GobError>, after: DecoderView) -> bool {
        match decode_string(before.window) {
            Ok((v, n)) => r is Ok && r->Ok_0@ == v && after == before.advance(n),
            Err(e) => r == Err::<String, GobError>(e),
        }
    }

    fn decode(decoder: &mut Decoder) -> (r: Result<Self, GobError>) {
        decoder.read_string()
    }
}

impl GobDecodable for Vec<u8> {
    open spec fn decoded(before: DecoderView, r: Result<Self, GobError>, after: DecoderView) -> bool {
        match decode_bytes(before.window) {
            Ok((v, n)) => r is Ok && r->Ok_0@ == v && after == before.advance(n),
            Err(e) => r == Err::<Vec<u8>, GobError>(e),
        }
    }

    fn decode(decoder: &mut Decoder) -> (r: Result<Self, GobError>) {
        decoder.read_bytes()
    }
}

impl GobDecodable for Value {
    /// A dynamic value stands where the wire holds an interface value.
    open spec fn decoded(before: DecoderView, r: Result<Self, GobError>, after: DecoderView) -> bool {
        match crate::grammar::decode_interface(before.registry, before.window) {
            Ok(step) => r is Ok && r->Ok_0@ == step.value && after == before.advance_with(
                step.used,
                step.registry,
            ),
            Err(e) => r == Err::<Value, GobError>(e),
        }
    }

    fn decode(decoder: &mut Decoder) -> (r: Result<Self, GobError>) {
        decoder.decode_interface()
    }
}

/// What [`Decoder::decode_into`] returns, given what the value's own
/// `decode` returned in the message and the state it left: an error is
/// handed on; after a value the message is closed, which fails where the
/// source does not hold the message to its end.
pub open spec fn delivered<T>(
    inner: Result<T, GobError>,
    mid: DecoderView,
    r: Result<T, GobError>,
    after: DecoderView,
) -> bool {
    match inner {
        Err(e) => r == Err::<T, GobError>(e),
        Ok(v) => match mid.pending() {
            Err(e) => r == Err::<T, GobError>(e),
            Ok(stream) => r == inner && after == closed(stream, mid.registry),
        },
    }
}

impl Decoder {
    /// Reads the next value of the stream as a `T`: goes to the next value
    /// message, lets `T` read itself from the body, and closes the message.
    /// The identifier of the message is not looked at. A source that ends
    /// where the message should start is truncated.
    pub fn decode_into<T: GobDecodable>(&mut self) -> (r: Result<T, GobError>)
        ensures
            match old(self)@.pending() {
                Err(e) => r == Err::<T, GobError>(e),
                Ok(stream) => match next_message(old(self)@.registry, stream) {
                    Err(e) => r == Err::<T, GobError>(e),
                    Ok(a) => match a.message {
                        None => r == Err::<T, GobError>(GobError::TruncatedStream),
                        Some(m) => exists|inner: Result<T, GobError>, mid: DecoderView|
                            #[trigger] T::decoded(opened(m, a.registry), inner, mid) && delivered(
                                inner,
                                mid,
                                r,
                                final(self)@,
                            ),
                    },
                },
            },
    {
        match self.process_next_message_header()? {
            None => {
                return Err(GobError::TruncatedStream);
            },
            Some(_) => {},
        }
        let ghost start = self@;
        let inner = T::decode(self);
        let ghost mid = self@;
        let val = match inner {
            Ok(v) => v,
            Err(e) => {
                assert(T::decoded(start, inner, mid) && delivered(
                    inner,
                    mid,
                    Err::<T, GobError>(e),
                    self@,
                ));
                return Err(e);
            },
        };
        match self.close() {
            Ok(()) => {
                assert(T::decoded(start, inner, mid) && delivered(
                    inner,
                    mid,
                    Ok::<T, GobError>(val),
                    self@,
                ));
                Ok(val)
            },
            Err(e) => {
                assert(T::decoded(start, inner, mid) && delivered(
                    inner,
                    mid,
                    Err::<T, GobError>(e),
                    self@,
                ));
                Err(e)
            },
        }
    }

    /// Reads the body of a definition message and registers the schema it
    /// describes under the negation of `id`.
    fn define(&mut self, id: i64) -> (r: Result<(), GobError>)
        requires
            id < 0,
        ensures
            match define(old(self)@.registry, id, old(self)@.window) {
                Ok(after) => {
                    &&& r is Ok
                    &&& final(self)@.registry == after
                    &&& final(self)@.rest == old(self)@.rest
                    &&& final(self)@.open == old(self)@.open
                    &&& final(self)@.cut == old(self)@.cut
                },
                Err(e) => r == Err::<(), GobError>(e),
            },
    {
        if id == i64::MIN {
            return Err(GobError::InvalidData);
        }
        let schema = self.decode_wire_type()?;
        self.register_type(-id, schema)
    }

    /// Goes to the next value message: closes the open message, registers
    /// every definition on the way, and opens the first message that is
    /// none. Gives the identifier of that message's type, or `None` where
    /// the source ends at a message boundary.
    pub fn process_next_message_header(&mut self) -> (r: Result<Option<i64>, GobError>)
        ensures
            match old(self)@.pending() {
                Err(e) => r == Err::<Option<i64>, GobError>(e),
                Ok(stream) => match next_message(old(self)@.registry, stream) {
                    Err(e) => r == Err::<Option<i64>, GobError>(e),
                    Ok(a) => r == Ok::<Option<i64>, GobError>(arrived_id(a)) && final(self)@
                        == arrived(a),
                },
            },
    {
        self.close()?;
        let ghost stream = self@.window;
        loop
            invariant
                self@ == closed(self@.window, self@.registry),
                old(self)@.pending() == Ok::<Seq<u8>, GobError>(stream),
                next_message(old(self)@.registry, stream) == next_message(
                    self@.registry,
                    self@.window,
                ),
            decreases self@.window.len(),
        {
            let ghost w = self@.window;
            proof {
                reveal(next_message);
                lemma_header_bounds(w);
            }
            match self.open_message()? {
                None => {
                    assert(w =~= Seq::<u8>::empty());
                    return Ok(None);
                },
                Some(id) => {
                    if id >= 0 {
                        return Ok(Some(id));
                    }
                    self.define(id)?;
                    self.close()?;
                },
            }
        }
    }

    /// Reads the next value of the stream, by the schema registered for the
    /// identifier of its message. `None` where the source ends at a message
    /// boundary. An identifier that the registry does not hold is of unknown
    /// type. Bytes of the message that the value leaves unread are passed
    /// over; where the source lacks them, the stream is truncated.
    pub fn read_next(&mut self) -> (r: Result<Option<Value>, GobError>)
        ensures
            match old(self)@.pending() {
                Err(e) => r == Err::<Option<Value>, GobError>(e),
                Ok(stream) => match next_value(old(self)@.registry, stream) {
                    Err(e) => r == Err::<Option<Value>, GobError>(e),
                    Ok(d) => {
                        &&& r is Ok
                        &&& final(self)@ == closed(d.rest, d.registry)
                        &&& match d.value {
                            None => r->Ok_0 is None,
                            Some(v) => r->Ok_0 is Some && r->Ok_0->0@ == v && canonical(v),
                        }
                    },
                },
            },
    {
        let type_id = match self.process_next_message_header()? {
            None => {
                return Ok(None);
            },
            Some(id) => id,
        };
        if !self.knows(type_id) {
            return Err(GobError::UnknownType);
        }
        let schema = self.schema(type_id);
        let val = self.decode_value(&schema)?;
        self.close()?;
        Ok(Some(val))
    }

    /// Reads every value that the stream still holds.
    pub fn parse(&mut self) -> (r: Result<Vec<Value>, GobError>)
        ensures
            match old(self)@.pending() {
                Err(e) => r == Err::<Vec<Value>, GobError>(e),
                Ok(stream) => match read_all(old(self)@.registry, stream, Seq::empty()) {
                    Err(e) => r == Err::<Vec<Value>, GobError>(e),
                    Ok((values, registry)) => {
                        &&& r is Ok
                        &&& items_view(r->Ok_0@) == values
                        &&& final(self)@ == closed(Seq::empty(), registry)
                    },
                },
            },
    {
        let mut values: Vec<Value> = Vec::new();
        self.close()?;
        let ghost stream = self@.window;
        proof {
            assert(items_view(values@) =~= Seq::<ValueView>::empty());
        }
        loop
            invariant
                self@ == closed(self@.window, self@.registry),
                old(self)@.pending() == Ok::<Seq<u8>, GobError>(stream),
                read_all(old(self)@.registry, stream, Seq::empty()) == read_all(
                    self@.registry,
                    self@.window,
                    items_view(values@),
                ),
            decreases self@.window.len(),
        {
            let ghost before = items_view(values@);
            let ghost w = self@.window;
            let ghost reg = self@.registry;
            proof {
                crate::grammar::lemma_next_message_rest(reg, w);
            }
            match self.read_next()? {
                None => {
                    return Ok(values);
                },
                Some(v) => {
                    proof {
                        assert(items_view(values@.push(v)) =~= before.push(v@));
                    }
                    values.push(v);
                },
            }
        }
    }
}

} // verus!
