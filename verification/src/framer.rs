//! The framer: a byte source cut into messages, and the bit codec that reads
//! from it.

use crate::error::GobError;
use crate::grammar::{after, decode_header, decode_length, lemma_after_after};
use crate::wire::{
    be_value, decode_bool, decode_bytes, decode_float, decode_int, decode_string, decode_uvarint,
    lemma_be_value_bound, lemma_decode_bounds,
};
use byteorder::{BigEndian, ByteOrder};
use vstd::prelude::*;

verus! {

/// Calls `byteorder::BigEndian::read_uint`, which reads the first `nbytes`
/// bytes of `buf` as one big-endian number. It panics unless `nbytes` is
/// between 1 and 8 and `buf` holds that many bytes.
#[verifier::external_body]
fn big_endian_read_uint(buf: &[u8], nbytes: usize) -> (v: u64)
    requires
        1 <= nbytes <= 8,
        nbytes <= buf@.len(),
    ensures
        v == be_value(buf@.subrange(0, nbytes as int)),
{
    BigEndian::read_uint(buf, nbytes)
}

/// Calls `String::from_utf8`, which accepts exactly the byte strings that
/// are well-formed UTF-8 and yields the text they spell.
#[verifier::external_body]
pub(crate) fn string_from_utf8(bytes: Vec<u8>) -> (s: Option<String>)
    ensures
        s is Some <==> vstd::utf8::valid_utf8(bytes@),
        s is Some ==> s->0@ == vstd::utf8::decode_utf8(bytes@),
{
    match String::from_utf8(bytes) {
        Ok(text) => Some(text),
        Err(_) => None,
    }
}

/// A byte source held in memory, read message by message.
///
/// While no message is open, reads see all of the source that is unread.
/// While one is open, they see what is left of that message.
pub struct Framer {
    reader: Vec<u8>,
    /// The next byte to read.
    pos: usize,
    /// The end of what may be read now.
    limit: usize,
    /// Whether a message is open.
    open: bool,
    /// Whether the source ends before the open message does.
    cut: bool,
}

/// A [`Framer`] as mathematics.
pub ghost struct FramerView {
    /// The bytes that may be read now: what is left of the open message, or
    /// of the source while none is open.
    pub window: Seq<u8>,
    /// The bytes of the source that follow the open message.
    pub rest: Seq<u8>,
    /// Whether a message is open.
    pub open: bool,
    /// Whether the source ended before the open message did.
    pub cut: bool,
}

impl FramerView {
    /// What of the source is left once the open message is closed. There is
    /// no closing a message that the source does not hold to its end.
    pub open spec fn pending(self) -> Result<Seq<u8>, GobError> {
        if !self.open {
            Ok(self.window)
        } else if self.cut {
            Err(GobError::TruncatedStream)
        } else {
            Ok(self.rest)
        }
    }

    /// The state after `n` bytes were read.
    pub open spec fn advance(self, n: nat) -> FramerView {
        FramerView { window: after(self.window, n), ..self }
    }
}

impl View for Framer {
    type V = FramerView;

    closed spec fn view(&self) -> FramerView {
        FramerView {
            window: self.reader@.subrange(self.pos as int, self.limit as int),
            rest: self.reader@.subrange(self.limit as int, self.reader@.len() as int),
            open: self.open,
            cut: self.cut,
        }
    }
}

impl Framer {
    #[verifier::type_invariant]
    spec fn inv(self) -> bool {
        &&& self.pos <= self.limit <= self.reader@.len()
        &&& !self.open ==> self.limit == self.reader@.len() && !self.cut
        &&& self.cut ==> self.limit == self.reader@.len()
    }

    /// A framer at the start of `reader`, with no message open.
    pub fn new(reader: Vec<u8>) -> (f: Self)
        ensures
            f@ == (FramerView { window: reader@, rest: Seq::empty(), open: false, cut: false }),
    {
        let limit = reader.len();
        let f = Framer { reader, pos: 0, limit, open: false, cut: false };
        assert(f@.window =~= reader@);
        assert(f@.rest =~= Seq::<u8>::empty());
        f
    }

    /// Takes the next `n` bytes: the index of the first of them.
    fn read_exact_internal(&mut self, n: usize) -> (r: Result<usize, GobError>)
        ensures
            n <= old(self)@.window.len() ==> {
                &&& r == Ok::<usize, GobError>(old(self).pos)
                &&& old(self).pos + n <= usize::MAX
                &&& final(self)@ == old(self)@.advance(n as nat)
                &&& final(self).reader == old(self).reader
                &&& old(self).pos + n <= old(self).reader@.len()
                &&& old(self)@.window.subrange(0, n as int) == old(self).reader@.subrange(
                    old(self).pos as int,
                    old(self).pos + n,
                )
            },
            n > old(self)@.window.len() ==> {
                &&& r == Err::<usize, GobError>(GobError::TruncatedMessage)
                &&& *final(self) == *old(self)
            },
    {
        proof {
            use_type_invariant(&*self);
        }
        if n > self.limit - self.pos {
            return Err(GobError::TruncatedMessage);
        }
        let start = self.pos;
        self.pos = start + n;
        proof {
            assert(self@.window =~= old(self)@.window.skip(n as int));
            assert(old(self)@.window.subrange(0, n as int) =~= old(self).reader@.subrange(
                start as int,
                start + n,
            ));
        }
        Ok(start)
    }

    /// Reads one byte.
    pub fn read_u8(&mut self) -> (r: Result<u8, GobError>)
        ensures
            old(self)@.window.len() > 0 ==> r == Ok::<u8, GobError>(old(self)@.window[0])
                && final(self)@ == old(self)@.advance(1),
            old(self)@.window.len() == 0 ==> r == Err::<u8, GobError>(GobError::TruncatedMessage),
    {
        let at = self.read_exact_internal(1)?;
        assert(old(self)@.window.subrange(0, 1)[0] == old(self)@.window[0]);
        Ok(self.reader[at])
    }

    /// Reads an unsigned integer. A count byte that announces more than
    /// eight bytes, or more bytes than are left, is invalid.
    pub fn read_uint(&mut self) -> (r: Result<u64, GobError>)
        ensures
            match decode_uvarint(old(self)@.window) {
                Ok((v, n)) => r == Ok::<u64, GobError>(v) && final(self)@ == old(self)@.advance(n),
                Err(e) => r == Err::<u64, GobError>(e),
            },
    {
        proof {
            reveal(decode_uvarint);
        }
        let u7_or_len = self.read_u8()?;
        if u7_or_len < 128 {
            return Ok(u7_or_len as u64);
        }
        let len: usize = (256 - u7_or_len as usize);
        if len > 8 {
            return Err(GobError::InvalidData);
        }
        proof {
            let w = old(self)@.window;
            if len <= after(w, 1).len() {
                assert(after(w, 1).subrange(0, len as int) =~= w.subrange(1, 1 + len));
            }
            lemma_after_after(w, 1, len as nat);
        }
        self.fast_get_uint_be(len)
    }

    /// Reads `nbytes` bytes as one big-endian number.
    fn fast_get_uint_be(&mut self, nbytes: usize) -> (r: Result<u64, GobError>)
        requires
            1 <= nbytes <= 8,
        ensures
            nbytes <= old(self)@.window.len() ==> r == Ok::<u64, GobError>(
                be_value(old(self)@.window.subrange(0, nbytes as int)) as u64,
            ) && final(self)@ == old(self)@.advance(nbytes as nat),
            nbytes > old(self)@.window.len() ==> r == Err::<u64, GobError>(GobError::InvalidData),
    {
        let at = match self.read_exact_internal(nbytes) {
            Ok(at) => at,
            Err(_) => {
                return Err(GobError::InvalidData);
            },
        };
        let digits = vstd::slice::slice_subrange(self.reader.as_slice(), at, at + nbytes);
        proof {
            assert(digits@.subrange(0, nbytes as int) =~= digits@);
            lemma_be_value_bound(digits@);
        }
        Ok(big_endian_read_uint(digits, nbytes))
    }

    /// Reads a signed integer.
    pub fn read_int(&mut self) -> (r: Result<i64, GobError>)
        ensures
            match decode_int(old(self)@.window) {
                Ok((v, n)) => r == Ok::<i64, GobError>(v) && final(self)@ == old(self)@.advance(n),
                Err(e) => r == Err::<i64, GobError>(e),
            },
    {
        proof {
            reveal(decode_int);
        }
        let bits = self.read_uint()?;
        if bits % 2 == 0 {
            Ok((bits / 2) as i64)
        } else {
            Ok(-((bits / 2) as i64) - 1)
        }
    }

    /// Reads a float, as its IEEE-754 bit pattern.
    pub fn read_float(&mut self) -> (r: Result<u64, GobError>)
        ensures
            match decode_float(old(self)@.window) {
                Ok((v, n)) => r == Ok::<u64, GobError>(v) && final(self)@ == old(self)@.advance(n),
                Err(e) => r == Err::<u64, GobError>(e),
            },
    {
        proof {
            reveal(decode_float);
        }
        let bits = self.read_uint()?;
        Ok(crate::encode::reverse_bytes(bits))
    }

    /// Reads a boolean. An integer other than 0 and 1 is invalid.
    pub fn read_bool(&mut self) -> (r: Result<bool, GobError>)
        ensures
            match decode_bool(old(self)@.window) {
                Ok((v, n)) => r == Ok::<bool, GobError>(v) && final(self)@ == old(self)@.advance(n),
                Err(e) => r == Err::<bool, GobError>(e),
            },
    {
        proof {
            reveal(decode_bool);
        }
        let v = self.read_uint()?;
        if v == 0 {
            Ok(false)
        } else if v == 1 {
            Ok(true)
        } else {
            Err(GobError::InvalidData)
        }
    }

    /// Reads the next `len` bytes as they are.
    pub fn read_exact_bytes(&mut self, len: usize) -> (r: Result<Vec<u8>, GobError>)
        ensures
            len <= old(self)@.window.len() ==> r is Ok && r->Ok_0@ == old(self)@.window.subrange(
                0,
                len as int,
            ) && final(self)@ == old(self)@.advance(len as nat),
            len > old(self)@.window.len() ==> r == Err::<Vec<u8>, GobError>(
                GobError::TruncatedMessage,
            ),
    {
        let at = self.read_exact_internal(len)?;
        let bytes = vstd::slice::slice_subrange(self.reader.as_slice(), at, at + len);
        Ok(vstd::slice::slice_to_vec(bytes))
    }

    /// Reads a byte string: its length, then that many bytes.
    pub fn read_bytes(&mut self) -> (r: Result<Vec<u8>, GobError>)
        ensures
            match decode_bytes(old(self)@.window) {
                Ok((v, n)) => r is Ok && r->Ok_0@ == v && final(self)@ == old(self)@.advance(n),
                Err(e) => r == Err::<Vec<u8>, GobError>(e),
            },
    {
        proof {
            reveal(decode_bytes);
            lemma_decode_bounds(old(self)@.window);
        }
        let len = self.read_uint()?;
        proof {
            use_type_invariant(&*self);
            let w = old(self)@.window;
            let n = decode_uvarint(w)->Ok_0.1;
            assert(self@.window.len() == self.limit - self.pos);
            assert(self@.window.len() == w.len() - n);
        }
        if len > (self.limit - self.pos) as u64 {
            return Err(GobError::TruncatedMessage);
        }
        let bytes = self.read_exact_bytes(len as usize)?;
        proof {
            let w = old(self)@.window;
            let n = decode_uvarint(w)->Ok_0.1;
            assert(bytes@ =~= w.subrange(n as int, n + len));
            lemma_after_after(w, n, len as nat);
        }
        Ok(bytes)
    }

    /// Reads a string: a byte string that must be well-formed UTF-8.
    pub fn read_string(&mut self) -> (r: Result<String, GobError>)
        ensures
            match decode_string(old(self)@.window) {
                Ok((v, n)) => r is Ok && r->Ok_0@ == v && final(self)@ == old(self)@.advance(n),
                Err(e) => r == Err::<String, GobError>(e),
            },
    {
        proof {
            reveal(decode_string);
        }
        let bytes = self.read_bytes()?;
        match string_from_utf8(bytes) {
            Some(s) => Ok(s),
            None => Err(GobError::InvalidData),
        }
    }

    /// The number of bytes that may be read now.
    pub fn remaining(&self) -> (n: usize)
        ensures
            n == self@.window.len(),
    {
        proof {
            use_type_invariant(self);
        }
        self.limit - self.pos
    }

    /// Steps over the zero byte that may stand in front of an interface
    /// value.
    pub fn skip_marker(&mut self) -> (r: Result<(), GobError>)
        ensures
            old(self)@.window.len() == 0 ==> r == Err::<(), GobError>(GobError::TruncatedMessage),
            old(self)@.window.len() > 0 ==> r is Ok && final(self)@ == old(self)@.advance(
                if old(self)@.window[0] == 0 {
                    1
                } else {
                    0
                },
            ),
    {
        proof {
            use_type_invariant(&*self);
        }
        if self.pos >= self.limit {
            return Err(GobError::TruncatedMessage);
        }
        if self.reader[self.pos] == 0 {
            self.pos = self.pos + 1;
            assert(self@.window =~= old(self)@.window.skip(1));
        } else {
            assert(self@.window =~= old(self)@.window.skip(0));
        }
        Ok(())
    }

    /// Reads the length that a message starts with.
    fn read_raw_uint(&mut self) -> (r: Result<u64, GobError>)
        requires
            !old(self)@.open,
            old(self)@.window.len() > 0,
        ensures
            match decode_length(old(self)@.window) {
                Ok((v, n)) => r == Ok::<u64, GobError>(v) && final(self)@ == old(self)@.advance(n)
                    && n <= old(self)@.window.len(),
                Err(e) => r == Err::<u64, GobError>(e),
            },
    {
        let u7_or_len = self.read_u8()?;
        if u7_or_len < 128 {
            return Ok(u7_or_len as u64);
        }
        let len: usize = (256 - u7_or_len as usize);
        if len > 8 {
            return Err(GobError::InvalidData);
        }
        if len > self.remaining() {
            return Err(GobError::TruncatedStream);
        }
        proof {
            let w = old(self)@.window;
            assert(after(w, 1).subrange(0, len as int) =~= w.subrange(1, 1 + len));
            lemma_after_after(w, 1, len as nat);
        }
        self.fast_get_uint_be(len)
    }

    /// Opens the next message, if the source holds one: reads its length,
    /// bounds what may be read by it, and reads its type identifier.
    pub(crate) fn open_message(&mut self) -> (r: Result<Option<i64>, GobError>)
        requires
            !old(self)@.open,
        ensures
            old(self)@.window.len() == 0 ==> r == Ok::<Option<i64>, GobError>(None) && final(self)@
                == old(self)@,
            old(self)@.window.len() > 0 ==> match decode_header(old(self)@.window) {
                Ok(h) => r == Ok::<Option<i64>, GobError>(Some(h.id)) && final(self)@
                    == (FramerView {
                    window: old(self)@.window.subrange(h.body as int, h.end as int),
                    rest: old(self)@.window.skip(h.end as int),
                    open: true,
                    cut: h.cut,
                }),
                Err(e) => r == Err::<Option<i64>, GobError>(e),
            },
    {
        proof {
            use_type_invariant(&*self);
        }
        if self.pos >= self.limit {
            return Ok(None);
        }
        let ghost w = self@.window;
        let len = self.read_raw_uint()?;
        let ghost n = decode_length(w)->Ok_0.1;
        let ghost w1 = self@.window;
        proof {
            use_type_invariant(&*self);
            assert(w1 == w.skip(n as int));
        }
        let left = self.reader.len() - self.pos;
        let cut = len > left as u64;
        self.open = true;
        if !cut {
            self.limit = self.pos + len as usize;
        }
        self.cut = cut;
        let ghost mid = self@;
        let ghost end: nat = if cut {
            w.len()
        } else {
            n + len as nat
        };
        proof {
            let span: int = if cut {
                w1.len() as int
            } else {
                len as int
            };
            assert(mid.window =~= w1.subrange(0, span));
            assert(mid.rest =~= w1.skip(span));
            assert(mid.window =~= w.subrange(n as int, end as int));
            assert(mid.rest =~= w.skip(end as int));
        }
        let id = self.read_int()?;
        proof {
            let k = decode_int(mid.window)->Ok_0.1;
            lemma_decode_bounds(mid.window);
            assert(after(mid.window, k) =~= w.subrange((n + k) as int, end as int));
        }
        Ok(Some(id))
    }

    /// Closes the open message, if there is one: what is left of it is
    /// passed over. Where the source ends before the message does, the
    /// stream is truncated.
    pub fn close(&mut self) -> (r: Result<(), GobError>)
        ensures
            match old(self)@.pending() {
                Ok(stream) => r is Ok && final(self)@ == (FramerView {
                    window: stream,
                    rest: Seq::empty(),
                    open: false,
                    cut: false,
                }),
                Err(e) => r == Err::<(), GobError>(e),
            },
    {
        proof {
            use_type_invariant(&*self);
        }
        if !self.open {
            assert(self@.rest =~= Seq::<u8>::empty());
            return Ok(());
        }
        if self.cut {
            return Err(GobError::TruncatedStream);
        }
        self.pos = self.limit;
        self.limit = self.reader.len();
        self.open = false;
        proof {
            assert(self@.window =~= old(self)@.rest);
            assert(self@.rest =~= Seq::<u8>::empty());
        }
        Ok(())
    }
}

} // verus!
