//! The byte format that two peers speak on a stream.
//!
//! Numbers are big-endian. A chunk is its length as eight bytes, then its
//! content. A string is the chunk of its UTF-8 encoding.

use vstd::arithmetic::power::*;
use vstd::prelude::*;
use vstd::utf8::*;

verus! {

/// The number that `bytes` spell in base 256, most significant digit first.
pub open spec fn be_value(bytes: Seq<u8>) -> nat
    decreases bytes.len(),
{
    if bytes.len() == 0 {
        0
    } else {
        be_value(bytes.drop_last()) * 256 + bytes.last() as nat
    }
}

/// The last `len` base-256 digits of `value`, most significant digit first.
pub open spec fn be_bytes(value: nat, len: nat) -> Seq<u8>
    decreases len,
{
    if len == 0 {
        Seq::empty()
    } else {
        be_bytes(value / 256, (len - 1) as nat).push((value % 256) as u8)
    }
}

/// The chunk that carries `data`.
pub open spec fn chunk_bytes(data: Seq<u8>) -> Seq<u8> {
    be_bytes(data.len(), 8) + data
}

/// The chunk that carries the string `text`.
pub open spec fn str_bytes(text: Seq<char>) -> Seq<u8> {
    chunk_bytes(encode_utf8(text))
}

/// Why the bytes of a stream are not a value of the wanted kind.
#[derive(Debug, PartialEq, Eq, Structural, Clone, Copy)]
pub enum ReadError {
    /// The length of a chunk is more than this machine can address.
    Length,
    /// The chunk of a string is not UTF-8.
    Utf8,
}

/// What the front of a stream holds.
pub enum Parsed<T> {
    /// A value, and the stream behind it.
    Value(T, Seq<u8>),
    /// The beginning of a value at most: the stream is too short.
    Short,
    /// Something that is no value, and the stream behind what was read of it.
    Bad(ReadError, Seq<u8>),
}

/// The first `size` bytes of `stream`.
pub open spec fn parse_bytes(stream: Seq<u8>, size: nat) -> Parsed<Seq<u8>> {
    if size <= stream.len() {
        Parsed::Value(stream.take(size as int), stream.skip(size as int))
    } else {
        Parsed::Short
    }
}

/// The 16-bit number at the front of `stream`.
pub open spec fn parse_u16(stream: Seq<u8>) -> Parsed<u16> {
    match parse_bytes(stream, 2) {
        Parsed::Value(bytes, rest) => Parsed::Value(be_value(bytes) as u16, rest),
        Parsed::Short => Parsed::Short,
        Parsed::Bad(e, rest) => Parsed::Bad(e, rest),
    }
}

/// The 64-bit number at the front of `stream`.
pub open spec fn parse_u64(stream: Seq<u8>) -> Parsed<u64> {
    match parse_bytes(stream, 8) {
        Parsed::Value(bytes, rest) => Parsed::Value(be_value(bytes) as u64, rest),
        Parsed::Short => Parsed::Short,
        Parsed::Bad(e, rest) => Parsed::Bad(e, rest),
    }
}

/// The content of the chunk at the front of `stream`. Of a chunk that is too long
/// just the length is read.
pub open spec fn parse_chunk(stream: Seq<u8>) -> Parsed<Seq<u8>> {
    match parse_u64(stream) {
        Parsed::Value(len, rest) => if len <= usize::MAX {
            parse_bytes(rest, len as nat)
        } else {
            Parsed::Bad(ReadError::Length, rest)
        },
        Parsed::Short => Parsed::Short,
        Parsed::Bad(e, rest) => Parsed::Bad(e, rest),
    }
}

/// The string at the front of `stream`. A chunk that is not UTF-8 is read whole.
pub open spec fn parse_str(stream: Seq<u8>) -> Parsed<Seq<char>> {
    match parse_chunk(stream) {
        Parsed::Value(data, rest) => if valid_utf8(data) {
            Parsed::Value(decode_utf8(data), rest)
        } else {
            Parsed::Bad(ReadError::Utf8, rest)
        },
        Parsed::Short => Parsed::Short,
        Parsed::Bad(e, rest) => Parsed::Bad(e, rest),
    }
}

/// A number of `len` digits is less than 256 to the power `len`.
proof fn lemma_be_value_bound(bytes: Seq<u8>)
    ensures
        be_value(bytes) < pow(256, bytes.len()),
    decreases bytes.len(),
{
    reveal(pow);
    if bytes.len() > 0 {
        lemma_be_value_bound(bytes.drop_last());
    }
}

/// The value of two bytes fits in 16 bits, that of eight bytes in 64 bits.
pub proof fn lemma_be_value_fits(bytes: Seq<u8>)
    ensures
        bytes.len() <= 2 ==> be_value(bytes) <= u16::MAX,
        bytes.len() <= 8 ==> be_value(bytes) <= u64::MAX,
{
    lemma_be_value_bound(bytes);
    assert(pow(256, 2) == 0x1_0000) by {
        reveal_with_fuel(pow, 3);
    }
    assert(pow(256, 8) == 0x1_0000_0000_0000_0000) by {
        reveal_with_fuel(pow, 9);
    }
    if bytes.len() <= 2 {
        lemma_pow_increases(256, bytes.len(), 2);
    }
    if bytes.len() <= 8 {
        lemma_pow_increases(256, bytes.len(), 8);
    }
}

/// The digits of a number spell that number, if there are enough of them.
proof fn lemma_be_roundtrip(value: nat, len: nat)
    requires
        value < pow(256, len),
    ensures
        be_bytes(value, len).len() == len,
        be_value(be_bytes(value, len)) == value,
    decreases len,
{
    reveal(pow);
    if len > 0 {
        assert(value / 256 < pow(256, (len - 1) as nat)) by (nonlinear_arith)
            requires
                value < 256 * pow(256, (len - 1) as nat),
        ;
        lemma_be_roundtrip(value / 256, (len - 1) as nat);
        assert(be_bytes(value, len).drop_last() =~= be_bytes(value / 256, (len - 1) as nat));
    }
}

/// There are as many digits as were asked for.
pub proof fn lemma_be_len(value: nat, len: nat)
    ensures
        be_bytes(value, len).len() == len,
    decreases len,
{
    if len > 0 {
        lemma_be_len(value / 256, (len - 1) as nat);
    }
}

/// A 16-bit number that is sent is the number that is read.
pub proof fn u16_roundtrip(value: u16, rest: Seq<u8>)
    ensures
        be_bytes(value as nat, 2).len() == 2,
        parse_u16(be_bytes(value as nat, 2) + rest) == Parsed::Value(value, rest),
{
    assert(pow(256, 2) == 0x1_0000) by {
        reveal_with_fuel(pow, 3);
    }
    lemma_be_roundtrip(value as nat, 2);
    let stream = be_bytes(value as nat, 2) + rest;
    assert(stream.take(2) =~= be_bytes(value as nat, 2));
    assert(stream.skip(2) =~= rest);
}

/// A 64-bit number that is sent is the number that is read.
pub proof fn u64_roundtrip(value: u64, rest: Seq<u8>)
    ensures
        be_bytes(value as nat, 8).len() == 8,
        parse_u64(be_bytes(value as nat, 8) + rest) == Parsed::Value(value, rest),
{
    assert(pow(256, 8) == 0x1_0000_0000_0000_0000) by {
        reveal_with_fuel(pow, 9);
    }
    lemma_be_roundtrip(value as nat, 8);
    let stream = be_bytes(value as nat, 8) + rest;
    assert(stream.take(8) =~= be_bytes(value as nat, 8));
    assert(stream.skip(8) =~= rest);
}

/// The content of a chunk that is sent is the content that is read, and
/// nothing behind the chunk is taken.
pub proof fn chunk_roundtrip(data: Seq<u8>, rest: Seq<u8>)
    requires
        data.len() <= usize::MAX,
    ensures
        parse_chunk(chunk_bytes(data) + rest) == Parsed::Value(data, rest),
{
    u64_roundtrip(data.len() as u64, data + rest);
    assert(chunk_bytes(data) + rest =~= be_bytes(data.len(), 8) + (data + rest));
    assert((data + rest).take(data.len() as int) =~= data);
    assert((data + rest).skip(data.len() as int) =~= rest);
}

/// A string that is sent is the string that is read.
pub proof fn str_roundtrip(text: Seq<char>, rest: Seq<u8>)
    requires
        encode_utf8(text).len() <= usize::MAX,
    ensures
        parse_str(str_bytes(text) + rest) == Parsed::Value(text, rest),
{
    chunk_roundtrip(encode_utf8(text), rest);
    encode_utf8_valid_utf8(text);
    encode_utf8_decode_utf8(text);
}

/// What the front of a stream holds, a longer stream that begins with it holds too.
pub proof fn longer_stream(front: Seq<u8>, stream: Seq<u8>)
    requires
        front.is_prefix_of(stream),
    ensures
        parse_u16(front) matches Parsed::Value(value, rest) ==> parse_u16(
            stream,
        ) matches Parsed::Value(v, r) && v == value && rest.is_prefix_of(r),
        parse_chunk(front) matches Parsed::Value(data, rest) ==> parse_chunk(
            stream,
        ) matches Parsed::Value(d, r) && d == data && rest.is_prefix_of(r),
        parse_str(front) matches Parsed::Value(text, rest) ==> parse_str(
            stream,
        ) matches Parsed::Value(t, r) && t == text && rest.is_prefix_of(r),
{
    if front.len() >= 2 {
        assert(front.take(2) =~= stream.take(2));
        assert(front.skip(2).is_prefix_of(stream.skip(2)));
    }
    if front.len() >= 8 {
        let length = be_value(front.take(8)) as u64 as int;
        let behind = front.skip(8);
        assert(front.take(8) =~= stream.take(8));
        if length <= behind.len() {
            assert(behind.take(length) =~= stream.skip(8).take(length));
            assert(behind.skip(length).is_prefix_of(stream.skip(8).skip(length)));
        }
    }
}

/// A read of the front of a stream that begins with a chunk takes that chunk off it,
/// if the chunk is there in full.
pub proof fn lemma_chunk_off_front(front: Seq<u8>, data: Seq<u8>, behind: Seq<u8>)
    requires
        front.is_prefix_of(chunk_bytes(data) + behind),
        data.len() <= usize::MAX,
        parse_chunk(front) is Value,
    ensures
        parse_chunk(front) matches Parsed::Value(d, rest) && d == data && front == chunk_bytes(data)
            + rest,
{
    let stream = chunk_bytes(data) + behind;
    chunk_roundtrip(data, behind);
    longer_stream(front, stream);
    lemma_be_len(data.len(), 8);
    assert(front.take(8) =~= stream.take(8));
    assert(stream =~= be_bytes(data.len(), 8) + (data + behind));
    u64_roundtrip(data.len() as u64, data + behind);
    assert(front =~= chunk_bytes(data) + front.skip(8).skip(data.len() as int));
}

/// The last `len` base-256 digits of `value`.
pub fn encode_be(value: u64, len: usize) -> (bytes: Vec<u8>)
    ensures
        bytes@ == be_bytes(value as nat, len as nat),
    decreases len,
{
    if len == 0 {
        Vec::new()
    } else {
        let mut bytes = encode_be(value / 256, len - 1);
        bytes.push((value % 256) as u8);
        bytes
    }
}

/// The number that at most eight bytes spell.
pub fn decode_be(bytes: &[u8]) -> (value: u64)
    requires
        bytes@.len() <= 8,
    ensures
        value == be_value(bytes@),
{
    let mut value: u64 = 0;
    let mut i: usize = 0;
    while i < bytes.len()
        invariant
            i <= bytes@.len() <= 8,
            value == be_value(bytes@.take(i as int)),
        decreases bytes@.len() - i,
    {
        proof {
            lemma_be_value_fits(bytes@.take(i + 1));
            assert(bytes@.take(i + 1).drop_last() =~= bytes@.take(i as int));
        }
        value = value * 256 + bytes[i] as u64;
        i += 1;
    }
    assert(bytes@.take(i as int) =~= bytes@);
    value
}

/// The digits of a number: from the last, each is what is left of the number, divided
/// by 256 as often as there are digits behind it, modulo 256.
pub proof fn bytes_are_digits(value: nat, len: nat, i: int)
    requires
        0 <= i < len,
    ensures
        be_bytes(value, len).len() == len,
        be_bytes(value, len)[i] as int == (value as int / pow(256, (len - 1 - i) as nat)) % 256,
    decreases len,
{
    lemma_be_len(value, len);
    lemma_be_len(value / 256, (len - 1) as nat);
    let behind = (len - 1 - i) as nat;
    if behind == 0 {
        assert(pow(256, 0) == 1) by {
            reveal(pow);
        }
        assert(value as int / 1 == value);
    } else {
        bytes_are_digits(value / 256, (len - 1) as nat, i);
        let less = (behind - 1) as nat;
        assert(pow(256, behind) == 256 * pow(256, less)) by {
            reveal(pow);
        }
        lemma_pow_positive(256, less);
        vstd::arithmetic::div_mod::lemma_div_denominator(value as int, 256, pow(256, less));
    }
}

/// The value of bytes is that of the first of them, moved up by the number of the
/// others, and that of the others; one byte is its own value, and no bytes are zero.
pub proof fn value_of_joined_bytes(front: Seq<u8>, back: Seq<u8>)
    ensures
        be_value(front + back) == be_value(front) * pow(256, back.len()) + be_value(back),
        back.len() == 1 ==> be_value(back) == back[0],
        back.len() == 0 ==> be_value(back) == 0,
    decreases back.len(),
{
    if back.len() == 0 {
        assert(front + back =~= front);
        assert(pow(256, 0) == 1) by {
            reveal(pow);
        }
    } else {
        let less = back.drop_last();
        value_of_joined_bytes(front, less);
        assert((front + back).drop_last() =~= front + less);
        assert(pow(256, back.len()) == 256 * pow(256, less.len())) by {
            reveal(pow);
        }
        let a = be_value(front) as int;
        let p = pow(256, less.len());
        assert((a * p) * 256 == a * (256 * p)) by (nonlinear_arith);
        if back.len() == 1 {
            assert(less =~= Seq::empty());
        }
    }
}

/// The bytes of a chunk: eight that spell its length, and then its content.
pub proof fn chunk_is_length_and_content(data: Seq<u8>)
    requires
        data.len() <= u64::MAX,
    ensures
        chunk_bytes(data).len() == 8 + data.len(),
        be_value(chunk_bytes(data).take(8)) == data.len(),
        chunk_bytes(data).skip(8) == data,
{
    u64_roundtrip(data.len() as u64, data);
    assert(chunk_bytes(data).take(8) =~= be_bytes(data.len(), 8));
    assert(pow(256, 8) == 0x1_0000_0000_0000_0000) by {
        reveal_with_fuel(pow, 9);
    }
    lemma_be_roundtrip(data.len(), 8);
    assert(chunk_bytes(data).skip(8) =~= data);
}

/// The bytes of a string: those of the chunk whose content is its UTF-8 encoding.
pub proof fn string_is_chunk_of_its_encoding(text: Seq<char>)
    requires
        encode_utf8(text).len() <= u64::MAX,
    ensures
        str_bytes(text).len() == 8 + encode_utf8(text).len(),
        be_value(str_bytes(text).take(8)) == encode_utf8(text).len(),
        str_bytes(text).skip(8) == encode_utf8(text),
{
    chunk_is_length_and_content(encode_utf8(text));
}

/// The first bytes of a stream are taken off it, and the rest is left; a stream that
/// has fewer is too short.
pub proof fn front_is_taken_off(front: Seq<u8>, rest: Seq<u8>, size: nat)
    ensures
        parse_bytes(front + rest, front.len()) == Parsed::Value(front, rest),
        front.len() < size ==> parse_bytes(front, size) is Short,
{
    assert((front + rest).take(front.len() as int) =~= front);
    assert((front + rest).skip(front.len() as int) =~= rest);
}

/// What the front of a stream is read as: two bytes as a 16-bit number and eight as a
/// 64-bit number, most significant byte first. A stream that has fewer is too short.
pub proof fn numbers_are_read_from_front(stream: Seq<u8>)
    ensures
        stream.len() < 2 <==> parse_u16(stream) is Short,
        stream.len() >= 2 ==> (parse_u16(stream) matches Parsed::Value(value, rest) && value
            == stream[0] * 256 + stream[1] && rest == stream.skip(2)),
        stream.len() < 8 <==> parse_u64(stream) is Short,
        stream.len() >= 8 ==> (parse_u64(stream) matches Parsed::Value(value, rest) && value
            == be_value(stream.take(8)) && rest == stream.skip(8)),
{
    if stream.len() >= 2 {
        lemma_be_value_fits(stream.take(2));
        reveal_with_fuel(be_value, 3);
        assert(stream.take(2).drop_last() =~= seq![stream[0]]);
        assert(seq![stream[0]].drop_last() =~= Seq::empty());
    }
    if stream.len() >= 8 {
        lemma_be_value_fits(stream.take(8));
    }
}

/// What the front of a stream is read as, where a chunk or a string is wanted: the
/// length decides. If the stream holds as many bytes behind it, they are the content,
/// and a string is what they encode, or not a string; if it holds fewer it is too
/// short; a length that this machine cannot address is an error.
pub proof fn chunks_are_read_from_front(stream: Seq<u8>)
    ensures
        stream.len() < 8 ==> parse_chunk(stream) is Short && parse_str(stream) is Short,
        stream.len() >= 8 ==> ({
            let length = be_value(stream.take(8));
            let behind = stream.skip(8);
            let content = behind.take(length as int);
            let rest = behind.skip(length as int);
            if length > usize::MAX {
                &&& parse_chunk(stream) == Parsed::<Seq<u8>>::Bad(ReadError::Length, behind)
                &&& parse_str(stream) == Parsed::<Seq<char>>::Bad(ReadError::Length, behind)
            } else if length > behind.len() {
                parse_chunk(stream) is Short && parse_str(stream) is Short
            } else {
                &&& parse_chunk(stream) == Parsed::Value(content, rest)
                &&& valid_utf8(content) ==> parse_str(stream) == Parsed::Value(
                    decode_utf8(content),
                    rest,
                )
                &&& !valid_utf8(content) ==> parse_str(stream) == Parsed::<Seq<char>>::Bad(
                    ReadError::Utf8,
                    rest,
                )
            }
        }),
{
    if stream.len() >= 8 {
        lemma_be_value_fits(stream.take(8));
    }
}

} // verus!
