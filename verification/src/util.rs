//! Primitive values of the wire protocol and of the tagged binary store:
//! big-endian integers, fixed 64-byte strings, length-prefixed strings and
//! byte arrays, read from a [`Reader`] and appended to a `Vec<u8>`.

use vstd::prelude::*;
use vstd::slice::{slice_subrange, slice_to_vec};
use vstd::utf8::{decode_utf8, encode_utf8, valid_utf8};
use crate::text::{from_utf8, from_utf8_lossy, lossy_text};

verus! {

/// Why a value could not be read or written.
#[derive(Clone, Copy, Debug, PartialEq, Eq, Structural)]
pub enum CodecError {
    /// Fewer bytes were left than the value takes.
    UnexpectedEof,
    /// A length-prefixed string did not hold UTF-8.
    InvalidUtf8,
    /// A length does not fit the field that carries it.
    TooLong,
}

/// A cursor over bytes that were received. Its view is what is still unread.
#[derive(Clone, Copy)]
pub struct Reader<'a> {
    rest: &'a [u8],
}

impl<'a> View for Reader<'a> {
    type V = Seq<u8>;

    closed spec fn view(&self) -> Seq<u8> {
        self.rest@
    }
}

impl<'a> Reader<'a> {
    /// A reader positioned at the start of `data`.
    pub fn new(data: &'a [u8]) -> (r: Self)
        ensures
            r@ == data@,
    {
        Reader { rest: data }
    }

    /// The number of unread bytes.
    pub fn remaining(&self) -> (n: usize)
        ensures
            n == self@.len(),
    {
        self.rest.len()
    }

    /// Hands out the next `n` bytes and moves past them, or fails and stays
    /// in place when fewer than `n` bytes are left.
    pub fn take(&mut self, n: usize) -> (r: Result<&'a [u8], CodecError>)
        ensures
            match r {
                Ok(bytes) => n <= old(self)@.len() && bytes@ == old(self)@.take(n as int)
                    && final(self)@ == old(self)@.skip(n as int),
                Err(e) => n > old(self)@.len() && e == CodecError::UnexpectedEof && final(self)@
                    == old(self)@,
            },
    {
        let len: usize = self.rest.len();
        if n > len {
            return Err(CodecError::UnexpectedEof);
        }
        let head = slice_subrange(self.rest, 0, n);
        let tail = slice_subrange(self.rest, n, len);
        self.rest = tail;
        Ok(head)
    }
}


/// The unsigned number that holds the two's-complement bits of `v`, where
/// `modulus` is two to the number of bits.
pub open spec fn to_unsigned(v: int, modulus: int) -> int {
    if v >= 0 {
        v
    } else {
        v + modulus
    }
}

/// The signed number whose two's-complement bits are those of `u`.
pub open spec fn to_signed(u: int, modulus: int) -> int {
    if 2 * u < modulus {
        u
    } else {
        u - modulus
    }
}

/// The big-endian number in the first two bytes of `b`.
pub open spec fn be2(b: Seq<u8>) -> int {
    b[0] * 0x100 + b[1]
}

/// The big-endian number in the first four bytes of `b`.
pub open spec fn be4(b: Seq<u8>) -> int {
    b[0] * 0x100_0000 + b[1] * 0x1_0000 + b[2] * 0x100 + b[3]
}

/// The big-endian number in the first eight bytes of `b`.
pub open spec fn be8(b: Seq<u8>) -> int {
    be4(b) * 0x1_0000_0000 + be4(b.skip(4))
}

/// The two big-endian bytes of `u`.
pub open spec fn be2_bytes(u: int) -> Seq<u8> {
    seq![(u / 0x100 % 0x100) as u8, (u % 0x100) as u8]
}

/// The four big-endian bytes of `u`.
pub open spec fn be4_bytes(u: int) -> Seq<u8> {
    seq![
        (u / 0x100_0000 % 0x100) as u8,
        (u / 0x1_0000 % 0x100) as u8,
        (u / 0x100 % 0x100) as u8,
        (u % 0x100) as u8,
    ]
}

/// The eight big-endian bytes of `u`.
pub open spec fn be8_bytes(u: int) -> Seq<u8> {
    be4_bytes(u / 0x1_0000_0000 % 0x1_0000_0000) + be4_bytes(u % 0x1_0000_0000)
}

/// The signed byte that the wire byte `b` stands for.
pub open spec fn sbyte_of(b: u8) -> i8 {
    to_signed(b as int, 0x100) as i8
}

/// The wire byte of a signed byte.
pub open spec fn sbyte_bits(v: i8) -> u8 {
    to_unsigned(v as int, 0x100) as u8
}

/// The signed 16-bit number in the first two bytes of `b`.
pub open spec fn short_of(b: Seq<u8>) -> i16 {
    to_signed(be2(b), 0x1_0000) as i16
}

/// The two bytes of a signed 16-bit number.
pub open spec fn short_bytes(v: i16) -> Seq<u8> {
    be2_bytes(to_unsigned(v as int, 0x1_0000))
}

/// The signed 32-bit number in the first four bytes of `b`.
pub open spec fn int_of(b: Seq<u8>) -> i32 {
    to_signed(be4(b), 0x1_0000_0000) as i32
}

/// The four bytes of a signed 32-bit number.
pub open spec fn int_bytes(v: i32) -> Seq<u8> {
    be4_bytes(to_unsigned(v as int, 0x1_0000_0000))
}

/// The signed 64-bit number in the first eight bytes of `b`.
pub open spec fn long_of(b: Seq<u8>) -> i64 {
    to_signed(be8(b), 0x1_0000_0000_0000_0000) as i64
}

/// The eight bytes of a signed 64-bit number.
pub open spec fn long_bytes(v: i64) -> Seq<u8> {
    be8_bytes(to_unsigned(v as int, 0x1_0000_0000_0000_0000))
}

/// The bits of the IEEE 754 single in the first four bytes of `b`.
pub open spec fn float_of(b: Seq<u8>) -> u32 {
    be4(b) as u32
}

/// The four bytes of an IEEE 754 single, given by its bits.
pub open spec fn float_bytes(bits: u32) -> Seq<u8> {
    be4_bytes(bits as int)
}

/// The bits of the IEEE 754 double in the first eight bytes of `b`.
pub open spec fn double_of(b: Seq<u8>) -> u64 {
    be8(b) as u64
}

/// The eight bytes of an IEEE 754 double, given by its bits.
pub open spec fn double_bytes(bits: u64) -> Seq<u8> {
    be8_bytes(bits as int)
}

/// Bytes taken as signed bytes, one for one.
pub open spec fn sbytes_of(b: Seq<u8>) -> Seq<i8> {
    Seq::new(b.len(), |i: int| sbyte_of(b[i]))
}

/// Signed bytes as they are written, one for one.
pub open spec fn sbytes_bits(v: Seq<i8>) -> Seq<u8> {
    Seq::new(v.len(), |i: int| sbyte_bits(v[i]))
}

/// The signed byte that a wire byte stands for.
fn sbyte_from(b: u8) -> (v: i8)
    ensures
        v == sbyte_of(b),
{
    if b < 0x80 {
        b as i8
    } else {
        (b as i16 - 0x100) as i8
    }
}

/// The wire byte of a signed byte.
fn sbyte_to(v: i8) -> (b: u8)
    ensures
        b == sbyte_bits(v),
{
    if v >= 0 {
        v as u8
    } else {
        (v as i16 + 0x100) as u8
    }
}

/// The big-endian number in the first four bytes of `b`.
fn unsigned4(b: &[u8]) -> (u: u32)
    requires
        b@.len() >= 4,
    ensures
        u == be4(b@),
{
    (b[0] as u32) * 0x100_0000 + (b[1] as u32) * 0x1_0000 + (b[2] as u32) * 0x100 + (b[3] as u32)
}

/// Appends the four big-endian bytes of `u`.
fn push4(writer: &mut Vec<u8>, u: u32)
    ensures
        final(writer)@ == old(writer)@ + be4_bytes(u as int),
{
    writer.push((u / 0x100_0000 % 0x100) as u8);
    writer.push((u / 0x1_0000 % 0x100) as u8);
    writer.push((u / 0x100 % 0x100) as u8);
    writer.push((u % 0x100) as u8);
}

/// Reads one unsigned byte.
pub fn read_byte(reader: &mut Reader) -> (r: Result<u8, CodecError>)
    ensures
        match r {
            Ok(v) => old(reader)@.len() >= 1 && v == old(reader)@[0] && final(reader)@
                == old(reader)@.skip(1),
            Err(e) => old(reader)@.len() < 1 && e == CodecError::UnexpectedEof && final(reader)@
                == old(reader)@,
        },
{
    let b = reader.take(1)?;
    Ok(b[0])
}

/// Reads one signed byte (two's complement).
pub fn read_sbyte(reader: &mut Reader) -> (r: Result<i8, CodecError>)
    ensures
        match r {
            Ok(v) => old(reader)@.len() >= 1 && v == sbyte_of(old(reader)@[0]) && final(reader)@
                == old(reader)@.skip(1),
            Err(e) => old(reader)@.len() < 1 && e == CodecError::UnexpectedEof && final(reader)@
                == old(reader)@,
        },
{
    let b = reader.take(1)?;
    Ok(sbyte_from(b[0]))
}

/// Reads a signed 16-bit number, big-endian.
pub fn read_short(reader: &mut Reader) -> (r: Result<i16, CodecError>)
    ensures
        match r {
            Ok(v) => old(reader)@.len() >= 2 && v == short_of(old(reader)@) && final(reader)@
                == old(reader)@.skip(2),
            Err(e) => old(reader)@.len() < 2 && e == CodecError::UnexpectedEof && final(reader)@
                == old(reader)@,
        },
{
    let b = reader.take(2)?;
    let u: u16 = (b[0] as u16) * 0x100 + (b[1] as u16);
    if u < 0x8000 {
        Ok(u as i16)
    } else {
        Ok((u as i32 - 0x1_0000) as i16)
    }
}

/// Reads a signed 32-bit number, big-endian.
pub fn read_int(reader: &mut Reader) -> (r: Result<i32, CodecError>)
    ensures
        match r {
            Ok(v) => old(reader)@.len() >= 4 && v == int_of(old(reader)@) && final(reader)@
                == old(reader)@.skip(4),
            Err(e) => old(reader)@.len() < 4 && e == CodecError::UnexpectedEof && final(reader)@
                == old(reader)@,
        },
{
    let b = reader.take(4)?;
    let u: u32 = unsigned4(b);
    if u < 0x8000_0000 {
        Ok(u as i32)
    } else {
        Ok((u as i64 - 0x1_0000_0000) as i32)
    }
}

/// Reads a signed 64-bit number, big-endian.
pub fn read_long(reader: &mut Reader) -> (r: Result<i64, CodecError>)
    ensures
        match r {
            Ok(v) => old(reader)@.len() >= 8 && v == long_of(old(reader)@) && final(reader)@
                == old(reader)@.skip(8),
            Err(e) => old(reader)@.len() < 8 && e == CodecError::UnexpectedEof && final(reader)@
                == old(reader)@,
        },
{
    let u: u64 = read_double(reader)?;
    if u < 0x8000_0000_0000_0000 {
        Ok(u as i64)
    } else {
        Ok((u as i128 - 0x1_0000_0000_0000_0000) as i64)
    }
}

/// Reads an IEEE 754 single, big-endian, and returns its bits.
pub fn read_float(reader: &mut Reader) -> (r: Result<u32, CodecError>)
    ensures
        match r {
            Ok(v) => old(reader)@.len() >= 4 && v == float_of(old(reader)@) && final(reader)@
                == old(reader)@.skip(4),
            Err(e) => old(reader)@.len() < 4 && e == CodecError::UnexpectedEof && final(reader)@
                == old(reader)@,
        },
{
    let b = reader.take(4)?;
    Ok(unsigned4(b))
}

/// Reads an IEEE 754 double, big-endian, and returns its bits.
pub fn read_double(reader: &mut Reader) -> (r: Result<u64, CodecError>)
    ensures
        match r {
            Ok(v) => old(reader)@.len() >= 8 && v == double_of(old(reader)@) && final(reader)@
                == old(reader)@.skip(8),
            Err(e) => old(reader)@.len() < 8 && e == CodecError::UnexpectedEof && final(reader)@
                == old(reader)@,
        },
{
    let b = reader.take(8)?;
    let hi: u32 = unsigned4(b);
    let lo: u32 = unsigned4(slice_subrange(b, 4, 8));
    assert(b@.subrange(4, 8) =~= b@.skip(4));
    assert(be4(b@) == be4(old(reader)@));
    assert(be4(b@.skip(4)) == be4(old(reader)@.skip(4)));
    Ok((hi as u64) * 0x1_0000_0000 + (lo as u64))
}

/// Appends one unsigned byte.
pub fn write_byte(writer: &mut Vec<u8>, val: u8)
    ensures
        final(writer)@ == old(writer)@.push(val),
{
    writer.push(val);
}

/// Appends one signed byte (two's complement).
pub fn write_sbyte(writer: &mut Vec<u8>, val: i8)
    ensures
        final(writer)@ == old(writer)@.push(sbyte_bits(val)),
{
    writer.push(sbyte_to(val));
}

/// Appends a signed 16-bit number, big-endian.
pub fn write_short(writer: &mut Vec<u8>, val: i16)
    ensures
        final(writer)@ == old(writer)@ + short_bytes(val),
{
    let u: u16 = if val >= 0 {
        val as u16
    } else {
        (val as i32 + 0x1_0000) as u16
    };
    writer.push((u / 0x100 % 0x100) as u8);
    writer.push((u % 0x100) as u8);
    assert(final(writer)@ =~= old(writer)@ + short_bytes(val));
}

/// Appends a signed 32-bit number, big-endian.
pub fn write_int(writer: &mut Vec<u8>, val: i32)
    ensures
        final(writer)@ == old(writer)@ + int_bytes(val),
{
    let u: u32 = if val >= 0 {
        val as u32
    } else {
        (val as i64 + 0x1_0000_0000) as u32
    };
    push4(writer, u);
}

/// Appends a signed 64-bit number, big-endian.
pub fn write_long(writer: &mut Vec<u8>, val: i64)
    ensures
        final(writer)@ == old(writer)@ + long_bytes(val),
{
    let u: u64 = if val >= 0 {
        val as u64
    } else {
        (val as i128 + 0x1_0000_0000_0000_0000) as u64
    };
    write_double(writer, u);
}

/// Appends an IEEE 754 single, given by its bits, big-endian.
pub fn write_float(writer: &mut Vec<u8>, val: u32)
    ensures
        final(writer)@ == old(writer)@ + float_bytes(val),
{
    push4(writer, val);
}

/// Appends an IEEE 754 double, given by its bits, big-endian.
pub fn write_double(writer: &mut Vec<u8>, val: u64)
    ensures
        final(writer)@ == old(writer)@ + double_bytes(val),
{
    push4(writer, (val / 0x1_0000_0000 % 0x1_0000_0000) as u32);
    push4(writer, (val % 0x1_0000_0000) as u32);
    assert(final(writer)@ =~= old(writer)@ + double_bytes(val));
}


/// The length of a string on the wire.
pub const STRING_LENGTH: usize = 64;

/// The 64 bytes of a string on the wire: its UTF-8 bytes, cut after 64 or
/// filled up with spaces.
pub open spec fn mcstring_bytes(s: Seq<char>) -> Seq<u8> {
    let b = encode_utf8(s);
    Seq::new(
        64,
        |i: int|
            if i < b.len() {
                b[i]
            } else {
                0x20u8
            },
    )
}

/// The text of a 64-byte wire string.
pub open spec fn mcstring_of(b: Seq<u8>) -> Seq<char> {
    lossy_text(b.take(64))
}

/// The text of a length-prefixed string at the start of `b`, with the
/// number of bytes it takes. A length of zero or less stands for the empty
/// text.
pub open spec fn utfstring_of(b: Seq<u8>) -> Result<(Seq<char>, int), CodecError> {
    if b.len() < 2 {
        Err(CodecError::UnexpectedEof)
    } else if short_of(b) <= 0 {
        Ok((Seq::empty(), 2))
    } else if b.len() < 2 + short_of(b) {
        Err(CodecError::UnexpectedEof)
    } else if !valid_utf8(b.subrange(2, 2 + short_of(b))) {
        Err(CodecError::InvalidUtf8)
    } else {
        Ok((decode_utf8(b.subrange(2, 2 + short_of(b))), 2 + short_of(b)))
    }
}

/// The bytes of a length-prefixed string: the length of its UTF-8 bytes as
/// a signed 16-bit number, then those bytes.
pub open spec fn utfstring_bytes(s: Seq<char>) -> Seq<u8> {
    short_bytes(encode_utf8(s).len() as i16) + encode_utf8(s)
}

/// Reads a 64-byte string. Bytes that are not UTF-8 are replaced.
pub fn read_mcstring(reader: &mut Reader) -> (r: Result<String, CodecError>)
    ensures
        match r {
            Ok(s) => old(reader)@.len() >= 64 && s@ == mcstring_of(old(reader)@)
                && final(reader)@ == old(reader)@.skip(64),
            Err(e) => old(reader)@.len() < 64 && e == CodecError::UnexpectedEof
                && final(reader)@ == old(reader)@,
        },
{
    let b = reader.take(STRING_LENGTH)?;
    Ok(from_utf8_lossy(b))
}

/// Reads a length-prefixed string. The reader stays in place on failure.
pub fn read_utfstring(reader: &mut Reader) -> (r: Result<String, CodecError>)
    ensures
        match r {
            Ok(s) => utfstring_of(old(reader)@) is Ok && s@ == utfstring_of(old(reader)@)->Ok_0.0
                && final(reader)@ == old(reader)@.skip(utfstring_of(old(reader)@)->Ok_0.1),
            Err(e) => utfstring_of(old(reader)@) == Err::<(Seq<char>, int), CodecError>(e)
                && final(reader)@ == old(reader)@,
        },
{
    let mut ahead: Reader = *reader;
    let size: i16 = read_short(&mut ahead)?;
    if size > 0 {
        let b = ahead.take(size as usize)?;
        assert(b@ == old(reader)@.subrange(2, 2 + size));
        match from_utf8(slice_to_vec(b)) {
            Some(s) => {
                *reader = ahead;
                Ok(s)
            },
            None => Err(CodecError::InvalidUtf8),
        }
    } else {
        *reader = ahead;
        Ok(String::new())
    }
}

/// Reads `count` signed bytes.
pub fn read_bytearray(reader: &mut Reader, count: usize) -> (r: Result<Vec<i8>, CodecError>)
    ensures
        match r {
            Ok(v) => old(reader)@.len() >= count && v@ == sbytes_of(old(reader)@.take(count as int))
                && final(reader)@ == old(reader)@.skip(count as int),
            Err(e) => old(reader)@.len() < count && e == CodecError::UnexpectedEof
                && final(reader)@ == old(reader)@,
        },
{
    let b = reader.take(count)?;
    let mut v: Vec<i8> = Vec::new();
    let mut i: usize = 0;
    while i < count
        invariant
            i <= count,
            b@.len() == count,
            v@ == sbytes_of(b@.take(i as int)),
        decreases count - i,
    {
        v.push(sbyte_from(b[i]));
        i += 1;
        assert(v@ =~= sbytes_of(b@.take(i as int)));
    }
    assert(b@.take(count as int) =~= b@);
    Ok(v)
}

/// Appends a 64-byte string: the UTF-8 bytes of `val`, cut after 64 bytes
/// or filled up with spaces.
pub fn write_mcstring(writer: &mut Vec<u8>, val: &str)
    ensures
        final(writer)@ == old(writer)@ + mcstring_bytes(val@),
{
    let b = val.as_bytes();
    let n: usize = b.len();
    let mut i: usize = 0;
    while i < STRING_LENGTH
        invariant
            i <= 64,
            n == b@.len(),
            b@ == encode_utf8(val@),
            writer@ == old(writer)@ + mcstring_bytes(val@).take(i as int),
        decreases 64 - i,
    {
        if i < n {
            writer.push(b[i]);
        } else {
            writer.push(0x20);
        }
        i += 1;
        assert(writer@ =~= old(writer)@ + mcstring_bytes(val@).take(i as int));
    }
    assert(mcstring_bytes(val@).take(64) =~= mcstring_bytes(val@));
}

/// Appends a length-prefixed string, or fails and appends nothing where
/// the UTF-8 bytes of `val` are more than a signed 16-bit length can tell.
pub fn write_utfstring(writer: &mut Vec<u8>, val: &str) -> (r: Result<(), CodecError>)
    ensures
        match r {
            Ok(()) => encode_utf8(val@).len() <= i16::MAX && final(writer)@ == old(writer)@
                + utfstring_bytes(val@),
            Err(e) => encode_utf8(val@).len() > i16::MAX && e == CodecError::TooLong
                && final(writer)@ == old(writer)@,
        },
{
    let b = val.as_bytes();
    let n: usize = b.len();
    if n > 0x7fff {
        return Err(CodecError::TooLong);
    }
    write_short(writer, n as i16);
    append_bytes(writer, b);
    assert(final(writer)@ =~= old(writer)@ + utfstring_bytes(val@));
    Ok(())
}

/// Appends signed bytes, one for one.
pub fn write_bytearray(writer: &mut Vec<u8>, val: &[i8])
    ensures
        final(writer)@ == old(writer)@ + sbytes_bits(val@),
{
    let n: usize = val.len();
    let mut i: usize = 0;
    while i < n
        invariant
            i <= n,
            n == val@.len(),
            writer@ == old(writer)@ + sbytes_bits(val@.take(i as int)),
        decreases n - i,
    {
        writer.push(sbyte_to(val[i]));
        i += 1;
        assert(writer@ =~= old(writer)@ + sbytes_bits(val@.take(i as int)));
    }
    assert(val@.take(n as int) =~= val@);
}

/// Appends bytes as they are.
pub fn append_bytes(writer: &mut Vec<u8>, bytes: &[u8])
    ensures
        final(writer)@ == old(writer)@ + bytes@,
{
    let n: usize = bytes.len();
    let mut i: usize = 0;
    while i < n
        invariant
            i <= n,
            n == bytes@.len(),
            writer@ == old(writer)@ + bytes@.take(i as int),
        decreases n - i,
    {
        writer.push(bytes[i]);
        i += 1;
        assert(writer@ =~= old(writer)@ + bytes@.take(i as int));
    }
    assert(bytes@.take(n as int) =~= bytes@);
}


/// A signed byte that is written and read again is unchanged, and so is a
/// wire byte that is read and written again.
pub proof fn lemma_sbyte_roundtrip(v: i8, b: u8)
    ensures
        sbyte_of(sbyte_bits(v)) == v,
        sbyte_bits(sbyte_of(b)) == b,
{
}

/// A 16-bit number that is written and read again is unchanged, whatever
/// follows it; two bytes that are read and written again are unchanged.
pub proof fn lemma_short_roundtrip(v: i16, rest: Seq<u8>, b: Seq<u8>)
    requires
        b.len() >= 2,
    ensures
        short_bytes(v).len() == 2,
        short_of(short_bytes(v) + rest) == v,
        short_bytes(short_of(b)) == b.take(2),
{
    assert(short_bytes(short_of(b)) =~= b.take(2));
}

/// A 32-bit number is the sum of its four bytes, each at its place.
proof fn lemma_digits_of_value(u: u32)
    ensures
        (u / 0x100_0000 % 0x100) * 0x100_0000 + (u / 0x1_0000 % 0x100) * 0x1_0000 + (u / 0x100
            % 0x100) * 0x100 + u % 0x100 == u,
{
    assert((u / 0x100_0000 % 0x100) * 0x100_0000 + (u / 0x1_0000 % 0x100) * 0x1_0000 + (u / 0x100
        % 0x100) * 0x100 + u % 0x100 == u) by (bit_vector);
}

/// The four bytes of the number that four bytes make up are those bytes.
proof fn lemma_value_of_digits(b0: u8, b1: u8, b2: u8, b3: u8)
    ensures
        ({
            let u = b0 * 0x100_0000 + b1 * 0x1_0000 + b2 * 0x100 + b3;
            &&& 0 <= u < 0x1_0000_0000
            &&& u / 0x100_0000 % 0x100 == b0
            &&& u / 0x1_0000 % 0x100 == b1
            &&& u / 0x100 % 0x100 == b2
            &&& u % 0x100 == b3
        }),
{
    let u: u32 = (b0 * 0x100_0000 + b1 * 0x1_0000 + b2 * 0x100 + b3) as u32;
    assert(u == b0 as u32 * 0x100_0000 + b1 as u32 * 0x1_0000 + b2 as u32 * 0x100 + b3 as u32);
    assert(u / 0x100_0000 % 0x100 == b0 as u32 && u / 0x1_0000 % 0x100 == b1 as u32 && u / 0x100
        % 0x100 == b2 as u32 && u % 0x100 == b3 as u32) by (bit_vector)
        requires
            u == b0 as u32 * 0x100_0000 + b1 as u32 * 0x1_0000 + b2 as u32 * 0x100 + b3 as u32,
    ;
}

/// Four bytes and the number they hold determine each other.
pub proof fn lemma_be4_roundtrip(u: int, rest: Seq<u8>, b: Seq<u8>)
    requires
        0 <= u < 0x1_0000_0000,
        b.len() >= 4,
    ensures
        be4_bytes(u).len() == 4,
        be4(be4_bytes(u) + rest) == u,
        0 <= be4(b) < 0x1_0000_0000,
        be4_bytes(be4(b)) == b.take(4),
{
    lemma_digits_of_value(u as u32);
    lemma_value_of_digits(b[0], b[1], b[2], b[3]);
    assert(be4_bytes(be4(b)) =~= b.take(4));
    let w = be4_bytes(u) + rest;
    assert(w[0] == be4_bytes(u)[0] && w[1] == be4_bytes(u)[1] && w[2] == be4_bytes(u)[2] && w[3]
        == be4_bytes(u)[3]);
}

/// A 32-bit number that is written and read again is unchanged, whatever
/// follows it; four bytes that are read and written again are unchanged.
pub proof fn lemma_int_roundtrip(v: i32, rest: Seq<u8>, b: Seq<u8>)
    requires
        b.len() >= 4,
    ensures
        int_bytes(v).len() == 4,
        int_of(int_bytes(v) + rest) == v,
        int_bytes(int_of(b)) == b.take(4),
{
    lemma_be4_roundtrip(to_unsigned(v as int, 0x1_0000_0000), rest, b);
}

/// The bits of a single that are written and read again are unchanged.
pub proof fn lemma_float_roundtrip(v: u32, rest: Seq<u8>, b: Seq<u8>)
    requires
        b.len() >= 4,
    ensures
        float_bytes(v).len() == 4,
        float_of(float_bytes(v) + rest) == v,
        float_bytes(float_of(b)) == b.take(4),
{
    lemma_be4_roundtrip(v as int, rest, b);
}

/// A 64-bit number is made up of its upper and its lower half.
proof fn lemma_halves_of_value(u: u64)
    ensures
        (u / 0x1_0000_0000 % 0x1_0000_0000) * 0x1_0000_0000 + u % 0x1_0000_0000 == u,
{
    assert((u / 0x1_0000_0000 % 0x1_0000_0000) * 0x1_0000_0000 + u % 0x1_0000_0000 == u)
        by (bit_vector);
}

/// The halves of the number that two halves make up are those halves.
proof fn lemma_value_of_halves(x: u32, y: u32)
    ensures
        ({
            let u = x * 0x1_0000_0000 + y;
            &&& 0 <= u < 0x1_0000_0000_0000_0000
            &&& u / 0x1_0000_0000 % 0x1_0000_0000 == x
            &&& u % 0x1_0000_0000 == y
        }),
{
    let u: u64 = (x * 0x1_0000_0000 + y) as u64;
    assert(u == x as u64 * 0x1_0000_0000 + y as u64);
    assert(u / 0x1_0000_0000 % 0x1_0000_0000 == x as u64 && u % 0x1_0000_0000 == y as u64)
        by (bit_vector)
        requires
            u == x as u64 * 0x1_0000_0000 + y as u64,
    ;
}

/// Eight bytes and the number they hold determine each other.
pub proof fn lemma_be8_roundtrip(u: int, rest: Seq<u8>, b: Seq<u8>)
    requires
        0 <= u < 0x1_0000_0000_0000_0000,
        b.len() >= 8,
    ensures
        be8_bytes(u).len() == 8,
        be8(be8_bytes(u) + rest) == u,
        0 <= be8(b) < 0x1_0000_0000_0000_0000,
        be8_bytes(be8(b)) == b.take(8),
{
    let hi = u / 0x1_0000_0000 % 0x1_0000_0000;
    let lo = u % 0x1_0000_0000;
    lemma_halves_of_value(u as u64);
    let w = be8_bytes(u) + rest;
    assert(be8(w) == u) by {
        lemma_be4_roundtrip(hi, be4_bytes(lo) + rest, b);
        lemma_be4_roundtrip(lo, rest, b);
        assert(w =~= be4_bytes(hi) + (be4_bytes(lo) + rest));
        assert(w.skip(4) =~= be4_bytes(lo) + rest);
    }
    let x = be4(b);
    let y = be4(b.skip(4));
    lemma_be4_roundtrip(0, rest, b);
    lemma_be4_roundtrip(0, rest, b.skip(4));
    lemma_value_of_halves(x as u32, y as u32);
    assert(be8_bytes(be8(b)) == b.take(8)) by {
        assert(be8_bytes(be8(b)) == be4_bytes(x) + be4_bytes(y));
        assert(b.take(4) + b.skip(4).take(4) =~= b.take(8));
    }
}

/// The bits of a double that are written and read again are unchanged.
pub proof fn lemma_double_roundtrip(v: u64, rest: Seq<u8>, b: Seq<u8>)
    requires
        b.len() >= 8,
    ensures
        double_bytes(v).len() == 8,
        double_of(double_bytes(v) + rest) == v,
        double_bytes(double_of(b)) == b.take(8),
{
    lemma_be8_roundtrip(v as int, rest, b);
}

/// A 64-bit number that is written and read again is unchanged, whatever
/// follows it; eight bytes that are read and written again are unchanged.
pub proof fn lemma_long_roundtrip(v: i64, rest: Seq<u8>, b: Seq<u8>)
    requires
        b.len() >= 8,
    ensures
        long_bytes(v).len() == 8,
        long_of(long_bytes(v) + rest) == v,
        long_bytes(long_of(b)) == b.take(8),
{
    lemma_be8_roundtrip(to_unsigned(v as int, 0x1_0000_0000_0000_0000), rest, b);
}

/// Signed bytes that are written and read again are unchanged, and so are
/// bytes that are read as signed bytes and written again.
pub proof fn lemma_bytearray_roundtrip(v: Seq<i8>, b: Seq<u8>)
    ensures
        sbytes_of(sbytes_bits(v)) == v,
        sbytes_bits(sbytes_of(b)) == b,
{
    assert(sbytes_of(sbytes_bits(v)) =~= v);
    assert(sbytes_bits(sbytes_of(b)) =~= b);
}

/// The UTF-8 bytes of two texts in a row are the bytes of the first and
/// then those of the second.
pub proof fn lemma_encode_utf8_concat(a: Seq<char>, b: Seq<char>)
    ensures
        encode_utf8(a + b) == encode_utf8(a) + encode_utf8(b),
    decreases a.len(),
{
    if a.len() == 0 {
        assert(a + b =~= b);
        assert(encode_utf8(a) + encode_utf8(b) =~= encode_utf8(b));
    } else {
        lemma_encode_utf8_concat(a.drop_first(), b);
        assert((a + b).drop_first() =~= a.drop_first() + b);
        assert(encode_utf8(a + b) =~= encode_utf8(a) + encode_utf8(b));
    }
}

/// `n` spaces.
pub open spec fn spaces(n: nat) -> Seq<char> {
    Seq::new(n, |i: int| ' ')
}

/// A text whose UTF-8 bytes fit in 64 bytes is read back from the wire as
/// itself followed by the spaces that filled it up; of a longer text the
/// first 64 bytes are written.
pub proof fn lemma_mcstring_roundtrip(s: Seq<char>, rest: Seq<u8>)
    ensures
        mcstring_bytes(s).len() == 64,
        encode_utf8(s).len() <= 64 ==> mcstring_of(mcstring_bytes(s) + rest) == s + spaces(
            (64 - encode_utf8(s).len()) as nat,
        ),
        encode_utf8(s).len() >= 64 ==> mcstring_bytes(s) == encode_utf8(s).take(64),
{
    broadcast use vstd::utf8::group_utf8_lib;

    let b = encode_utf8(s);
    if b.len() <= 64 {
        let pad = spaces((64 - b.len()) as nat);
        assert(vstd::utf8::is_ascii_chars(pad));
        vstd::utf8::is_ascii_chars_encode_utf8(pad);
        lemma_encode_utf8_concat(s, pad);
        assert(mcstring_bytes(s) =~= encode_utf8(s + pad));
        assert((mcstring_bytes(s) + rest).take(64) =~= mcstring_bytes(s));
        vstd::utf8::encode_utf8_decode_utf8(s + pad);
        vstd::utf8::encode_utf8_valid_utf8(s + pad);
    }
    if b.len() >= 64 {
        assert(mcstring_bytes(s) =~= b.take(64));
    }
}

/// A text whose UTF-8 bytes are at most 32767 is read back as itself from
/// its length-prefixed form, whatever follows it.
pub proof fn lemma_utfstring_roundtrip(s: Seq<char>, rest: Seq<u8>)
    requires
        encode_utf8(s).len() <= i16::MAX,
    ensures
        utfstring_bytes(s).len() == 2 + encode_utf8(s).len(),
        utfstring_of(utfstring_bytes(s) + rest) == Ok::<(Seq<char>, int), CodecError>(
            (s, 2 + encode_utf8(s).len() as int),
        ),
{
    let b = encode_utf8(s);
    let w = utfstring_bytes(s) + rest;
    lemma_short_roundtrip(b.len() as i16, b + rest, seq![0u8, 0u8]);
    assert(w =~= short_bytes(b.len() as i16) + (b + rest));
    if b.len() == 0 {
        if s.len() > 0 {
            vstd::utf8::encode_utf8_first_scalar(s);
        }
        assert(s =~= Seq::<char>::empty());
    } else {
        assert(w.subrange(2, 2 + b.len() as int) =~= b);
        vstd::utf8::encode_utf8_decode_utf8(s);
        vstd::utf8::encode_utf8_valid_utf8(s);
    }
}

} // verus!
