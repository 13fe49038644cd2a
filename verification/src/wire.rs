//! The bit codec as mathematics: what each primitive looks like on the wire,
//! and how a byte string is read back.

use crate::error::GobError;
use vstd::prelude::*;

verus! {

/// The number that a byte string spells when read big-endian.
pub open spec fn be_value(s: Seq<u8>) -> nat
    decreases s.len(),
{
    if s.len() == 0 {
        0
    } else {
        be_value(s.drop_last()) * 256 + s.last() as nat
    }
}

/// The `n` low-order base-256 digits of `v`, most significant first.
pub open spec fn be_bytes(v: nat, n: nat) -> Seq<u8>
    decreases n,
{
    if n == 0 {
        Seq::empty()
    } else {
        be_bytes(v / 256, (n - 1) as nat).push((v % 256) as u8)
    }
}

/// The number of base-256 digits of `v`, counting one digit for zero.
pub open spec fn byte_width(v: nat) -> nat
    decreases v,
{
    if v < 256 {
        1
    } else {
        1 + byte_width(v / 256)
    }
}

/// The wire form of an unsigned integer: one byte for a value under 128,
/// else a count byte `256 - n` followed by the `n` digits of the value,
/// without leading zeros.
pub open spec fn encode_uvarint(v: u64) -> Seq<u8> {
    if v < 128 {
        seq![v as u8]
    } else {
        seq![(256 - byte_width(v as nat)) as u8] + be_bytes(v as nat, byte_width(v as nat))
    }
}

/// Reads an unsigned integer from the front of `s`: the value and the number
/// of bytes it took.
#[verifier::opaque]
pub open spec fn decode_uvarint(s: Seq<u8>) -> Result<(u64, nat), GobError> {
    if s.len() == 0 {
        Err(GobError::TruncatedMessage)
    } else if s[0] < 128 {
        Ok((s[0] as u64, 1))
    } else {
        let n = (256 - s[0]) as nat;
        if n > 8 || s.len() < 1 + n {
            Err(GobError::InvalidData)
        } else {
            Ok((be_value(s.subrange(1, 1 + n as int)) as u64, 1 + n))
        }
    }
}

/// The fold that maps 0, -1, 1, -2, 2, ... to 0, 1, 2, 3, 4, ...
pub open spec fn zigzag(i: i64) -> u64 {
    if i >= 0 {
        (2 * i) as u64
    } else {
        (-2 * i - 1) as u64
    }
}

/// The inverse of [`zigzag`].
pub open spec fn unzigzag(u: u64) -> i64 {
    if u % 2 == 0 {
        (u / 2) as i64
    } else {
        (-(u / 2) - 1) as i64
    }
}

/// The wire form of a signed integer.
pub open spec fn encode_int(i: i64) -> Seq<u8> {
    encode_uvarint(zigzag(i))
}

/// Reads a signed integer from the front of `s`.
#[verifier::opaque]
pub open spec fn decode_int(s: Seq<u8>) -> Result<(i64, nat), GobError> {
    match decode_uvarint(s) {
        Ok((u, n)) => Ok((unzigzag(u), n)),
        Err(e) => Err(e),
    }
}

/// The 64-bit pattern with its eight bytes in the opposite order.
pub open spec fn swap_bytes(x: u64) -> u64 {
    ((x & 0xff) << 56) | (((x >> 8) & 0xff) << 48) | (((x >> 16) & 0xff) << 40) | (((x >> 24)
        & 0xff) << 32) | (((x >> 32) & 0xff) << 24) | (((x >> 40) & 0xff) << 16) | (((x >> 48)
        & 0xff) << 8) | ((x >> 56) & 0xff)
}

/// The wire form of a float, given by its IEEE-754 bit pattern.
pub open spec fn encode_float(bits: u64) -> Seq<u8> {
    encode_uvarint(swap_bytes(bits))
}

/// Reads a float from the front of `s`, as its IEEE-754 bit pattern.
#[verifier::opaque]
pub open spec fn decode_float(s: Seq<u8>) -> Result<(u64, nat), GobError> {
    match decode_uvarint(s) {
        Ok((u, n)) => Ok((swap_bytes(u), n)),
        Err(e) => Err(e),
    }
}

/// The wire form of a boolean.
pub open spec fn encode_bool(b: bool) -> Seq<u8> {
    encode_uvarint(if b { 1 } else { 0 })
}

/// Reads a boolean from the front of `s`.
#[verifier::opaque]
pub open spec fn decode_bool(s: Seq<u8>) -> Result<(bool, nat), GobError> {
    match decode_uvarint(s) {
        Ok((u, n)) => if u == 0 {
            Ok((false, n))
        } else if u == 1 {
            Ok((true, n))
        } else {
            Err(GobError::InvalidData)
        },
        Err(e) => Err(e),
    }
}

/// The wire form of a byte string: its length, then the bytes.
pub open spec fn encode_bytes(b: Seq<u8>) -> Seq<u8>
    recommends
        b.len() <= u64::MAX,
{
    encode_uvarint(b.len() as u64) + b
}

/// Reads a length-prefixed byte string from the front of `s`.
#[verifier::opaque]
pub open spec fn decode_bytes(s: Seq<u8>) -> Result<(Seq<u8>, nat), GobError> {
    match decode_uvarint(s) {
        Ok((len, n)) => if s.len() - n < len {
            Err(GobError::TruncatedMessage)
        } else {
            Ok((s.subrange(n as int, n + len), n + len as nat))
        },
        Err(e) => Err(e),
    }
}

/// The wire form of a string: its UTF-8 bytes as a byte string.
pub open spec fn encode_string(s: Seq<char>) -> Seq<u8> {
    encode_bytes(vstd::utf8::encode_utf8(s))
}

/// Reads a string from the front of `s`.
#[verifier::opaque]
pub open spec fn decode_string(s: Seq<u8>) -> Result<(Seq<char>, nat), GobError> {
    match decode_bytes(s) {
        Ok((b, n)) => if vstd::utf8::valid_utf8(b) {
            Ok((vstd::utf8::decode_utf8(b), n))
        } else {
            Err(GobError::InvalidData)
        },
        Err(e) => Err(e),
    }
}

/// A successful read takes at least one byte and no more than there are.
pub proof fn lemma_decode_bounds(s: Seq<u8>)
    ensures
        decode_uvarint(s) matches Ok((_, n)) ==> 1 <= n <= s.len(),
        decode_int(s) matches Ok((_, n)) ==> 1 <= n <= s.len(),
        decode_float(s) matches Ok((_, n)) ==> 1 <= n <= s.len(),
        decode_bool(s) matches Ok((_, n)) ==> 1 <= n <= s.len(),
        decode_bytes(s) matches Ok((_, n)) ==> 1 <= n <= s.len(),
        decode_string(s) matches Ok((_, n)) ==> 1 <= n <= s.len(),
{
    reveal(decode_uvarint);
    reveal(decode_int);
    reveal(decode_float);
    reveal(decode_bool);
    reveal(decode_bytes);
    reveal(decode_string);
}

/// `be_bytes` yields exactly `n` digits.
pub proof fn lemma_be_bytes_len(v: nat, n: nat)
    ensures
        be_bytes(v, n).len() == n,
    decreases n,
{
    if n > 0 {
        lemma_be_bytes_len(v / 256, (n - 1) as nat);
    }
}

/// A number with no more than `n` digits is recovered from its `n` digits.
pub proof fn lemma_be_value_of_be_bytes(v: nat, n: nat)
    requires
        v == 0 || byte_width(v) <= n,
    ensures
        be_value(be_bytes(v, n)) == v,
    decreases n,
{
    if n > 0 {
        let head = be_bytes(v / 256, (n - 1) as nat);
        assert(be_bytes(v, n).drop_last() =~= head);
        lemma_be_value_of_be_bytes(v / 256, (n - 1) as nat);
    }
}

/// A 64-bit number has at most eight digits.
pub proof fn lemma_byte_width_u64(v: u64)
    ensures
        1 <= byte_width(v as nat) <= 8,
{
    reveal_with_fuel(byte_width, 9);
}

/// Up to eight bytes spell a number that fits 64 bits.
pub proof fn lemma_be_value_bound(s: Seq<u8>)
    requires
        s.len() <= 8,
    ensures
        be_value(s) <= u64::MAX,
{
    reveal_with_fuel(be_value, 9);
}

/// The encoding of an unsigned integer takes one byte under 128 and never
/// more than nine.
pub proof fn law_uvarint_len(v: u64)
    ensures
        1 <= encode_uvarint(v).len() <= 9,
        v < 128 ==> encode_uvarint(v).len() == 1,
        v >= 128 ==> encode_uvarint(v).len() == 1 + byte_width(v as nat),
{
    lemma_byte_width_u64(v);
    lemma_be_bytes_len(v as nat, byte_width(v as nat));
}

/// Decoding what `encode_uvarint` wrote gives the value back, whatever
/// follows it.
pub proof fn lemma_uvarint_roundtrip(v: u64, tail: Seq<u8>)
    ensures
        decode_uvarint(encode_uvarint(v) + tail) == Ok::<(u64, nat), GobError>(
            (v, encode_uvarint(v).len()),
        ),
{
    reveal(decode_uvarint);
    let s = encode_uvarint(v) + tail;
    law_uvarint_len(v);
    if v >= 128 {
        let n = byte_width(v as nat);
        lemma_byte_width_u64(v);
        lemma_be_bytes_len(v as nat, n);
        assert(s[0] == (256 - n) as u8);
        assert(s.subrange(1, 1 + n as int) =~= be_bytes(v as nat, n));
        lemma_be_value_of_be_bytes(v as nat, n);
    } else {
        assert(s[0] == v as u8);
    }
}

/// The unsigned codec is lossless on every 64-bit value.
pub proof fn law_uvarint_round_trip(v: u64)
    ensures
        decode_uvarint(encode_uvarint(v)) == Ok::<(u64, nat), GobError>(
            (v, encode_uvarint(v).len()),
        ),
{
    lemma_uvarint_roundtrip(v, Seq::empty());
    assert(encode_uvarint(v) + Seq::<u8>::empty() =~= encode_uvarint(v));
}

/// The fold is undone by its inverse.
pub proof fn lemma_zigzag_inverse(i: i64)
    ensures
        unzigzag(zigzag(i)) == i,
{
}

/// Decoding what `encode_int` wrote gives the value back, whatever follows.
pub proof fn lemma_int_roundtrip(i: i64, tail: Seq<u8>)
    ensures
        decode_int(encode_int(i) + tail) == Ok::<(i64, nat), GobError>((i, encode_int(i).len())),
{
    reveal(decode_int);
    lemma_uvarint_roundtrip(zigzag(i), tail);
    lemma_zigzag_inverse(i);
}

/// The signed codec is lossless on every 64-bit value.
pub proof fn law_int_round_trip(i: i64)
    ensures
        decode_int(encode_int(i)) == Ok::<(i64, nat), GobError>((i, encode_int(i).len())),
{
    lemma_int_roundtrip(i, Seq::empty());
    assert(encode_int(i) + Seq::<u8>::empty() =~= encode_int(i));
}

/// Reversing the bytes twice restores the pattern.
pub proof fn lemma_swap_bytes_involution(x: u64)
    ensures
        swap_bytes(swap_bytes(x)) == x,
{
    assert(swap_bytes(swap_bytes(x)) == x) by (bit_vector);
}

/// Decoding what `encode_float` wrote gives the bit pattern back, whatever
/// follows.
pub proof fn lemma_float_roundtrip(bits: u64, tail: Seq<u8>)
    ensures
        decode_float(encode_float(bits) + tail) == Ok::<(u64, nat), GobError>(
            (bits, encode_float(bits).len()),
        ),
{
    reveal(decode_float);
    lemma_uvarint_roundtrip(swap_bytes(bits), tail);
    lemma_swap_bytes_involution(bits);
}

/// The float codec preserves every bit pattern, finite or not.
pub proof fn law_float_round_trip(bits: u64)
    ensures
        decode_float(encode_float(bits)) == Ok::<(u64, nat), GobError>(
            (bits, encode_float(bits).len()),
        ),
{
    lemma_float_roundtrip(bits, Seq::empty());
    assert(encode_float(bits) + Seq::<u8>::empty() =~= encode_float(bits));
}

/// Positive zero, whose pattern is all zero bits, takes a single byte.
pub proof fn law_float_zero_is_short()
    ensures
        encode_float(0) =~= seq![0u8],
{
    assert(swap_bytes(0) == 0) by (bit_vector);
}

/// Decoding what `encode_bool` wrote gives the value back.
pub proof fn lemma_bool_roundtrip(b: bool, tail: Seq<u8>)
    ensures
        decode_bool(encode_bool(b) + tail) == Ok::<(bool, nat), GobError>((b, 1)),
{
    reveal(decode_bool);
    lemma_uvarint_roundtrip(if b { 1 } else { 0 }, tail);
}

/// Decoding what `encode_bytes` wrote gives the bytes back.
pub proof fn lemma_bytes_roundtrip(b: Seq<u8>, tail: Seq<u8>)
    requires
        b.len() <= u64::MAX,
    ensures
        decode_bytes(encode_bytes(b) + tail) == Ok::<(Seq<u8>, nat), GobError>(
            (b, encode_bytes(b).len()),
        ),
{
    reveal(decode_bytes);
    let head = encode_uvarint(b.len() as u64);
    let s = encode_bytes(b) + tail;
    assert(s =~= head + (b + tail));
    lemma_uvarint_roundtrip(b.len() as u64, b + tail);
    assert(s.subrange(head.len() as int, (head.len() + b.len()) as int) =~= b);
}

/// Decoding what `encode_string` wrote gives the string back.
pub proof fn lemma_string_roundtrip(s: Seq<char>, tail: Seq<u8>)
    requires
        vstd::utf8::encode_utf8(s).len() <= u64::MAX,
    ensures
        decode_string(encode_string(s) + tail) == Ok::<(Seq<char>, nat), GobError>(
            (s, encode_string(s).len()),
        ),
{
    reveal(decode_string);
    let b = vstd::utf8::encode_utf8(s);
    lemma_bytes_roundtrip(b, tail);
    vstd::utf8::encode_utf8_valid_utf8(s);
    vstd::utf8::encode_utf8_decode_utf8(s);
}

} // verus!
