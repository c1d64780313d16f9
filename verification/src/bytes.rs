//! Length-prefixed byte sequences: an 8-byte big-endian length, then the bytes.

use crate::error::IoErrorKind;
use vstd::prelude::*;

verus! {

/// Number of bytes in an encoded length.
pub const U64_BYTES_LEN: usize = 8;

/// The eight bytes of `n`, most significant first.
pub open spec fn spec_u64_to_be_bytes(n: u64) -> Seq<u8> {
    seq![
        ((n >> 56) & 0xff) as u8,
        ((n >> 48) & 0xff) as u8,
        ((n >> 40) & 0xff) as u8,
        ((n >> 32) & 0xff) as u8,
        ((n >> 24) & 0xff) as u8,
        ((n >> 16) & 0xff) as u8,
        ((n >> 8) & 0xff) as u8,
        (n & 0xff) as u8,
    ]
}

/// The number whose big-endian bytes are the first eight bytes of `s`.
pub open spec fn spec_u64_from_be_bytes(s: Seq<u8>) -> u64
    recommends
        s.len() >= 8,
{
    (s[0] as u64) << 56 | (s[1] as u64) << 48 | (s[2] as u64) << 40 | (s[3] as u64) << 32 | (
    s[4] as u64) << 24 | (s[5] as u64) << 16 | (s[6] as u64) << 8 | (s[7] as u64)
}

/// Decoding the eight bytes of a number gives the number back.
pub proof fn lemma_u64_be_bytes_roundtrip(n: u64)
    ensures
        spec_u64_to_be_bytes(n).len() == 8,
        spec_u64_from_be_bytes(spec_u64_to_be_bytes(n)) == n,
{
    let b0 = ((n >> 56) & 0xff) as u8;
    let b1 = ((n >> 48) & 0xff) as u8;
    let b2 = ((n >> 40) & 0xff) as u8;
    let b3 = ((n >> 32) & 0xff) as u8;
    let b4 = ((n >> 24) & 0xff) as u8;
    let b5 = ((n >> 16) & 0xff) as u8;
    let b6 = ((n >> 8) & 0xff) as u8;
    let b7 = (n & 0xff) as u8;
    assert((b0 as u64) << 56 | (b1 as u64) << 48 | (b2 as u64) << 40 | (b3 as u64) << 32 | (
    b4 as u64) << 24 | (b5 as u64) << 16 | (b6 as u64) << 8 | (b7 as u64) == n) by (bit_vector)
        requires
            b0 == ((n >> 56) & 0xff) as u8,
            b1 == ((n >> 48) & 0xff) as u8,
            b2 == ((n >> 40) & 0xff) as u8,
            b3 == ((n >> 32) & 0xff) as u8,
            b4 == ((n >> 24) & 0xff) as u8,
            b5 == ((n >> 16) & 0xff) as u8,
            b6 == ((n >> 8) & 0xff) as u8,
            b7 == (n & 0xff) as u8,
    ;
}

/// Encoding the number that eight bytes stand for gives the bytes back.
pub proof fn lemma_u64_be_value_roundtrip(s: Seq<u8>)
    requires
        s.len() == 8,
    ensures
        spec_u64_to_be_bytes(spec_u64_from_be_bytes(s)) == s,
{
    let n = spec_u64_from_be_bytes(s);
    let (b0, b1, b2, b3, b4, b5, b6, b7) = (s[0], s[1], s[2], s[3], s[4], s[5], s[6], s[7]);
    assert(((n >> 56) & 0xff) as u8 == b0 && ((n >> 48) & 0xff) as u8 == b1 && ((n >> 40)
        & 0xff) as u8 == b2 && ((n >> 32) & 0xff) as u8 == b3 && ((n >> 24) & 0xff) as u8 == b4
        && ((n >> 16) & 0xff) as u8 == b5 && ((n >> 8) & 0xff) as u8 == b6 && (n & 0xff) as u8
        == b7) by (bit_vector)
        requires
            n == (b0 as u64) << 56 | (b1 as u64) << 48 | (b2 as u64) << 40 | (b3 as u64) << 32
                | (b4 as u64) << 24 | (b5 as u64) << 16 | (b6 as u64) << 8 | (b7 as u64),
    ;
    assert(spec_u64_to_be_bytes(n) =~= s);
}

/// The eight big-endian bytes of a length.
pub fn encode_be_u64(n: usize) -> (bytes: [u8; 8])
    ensures
        bytes@ == spec_u64_to_be_bytes(n as u64),
{
    let n: u64 = n as u64;
    let bytes: [u8; 8] = [
        ((n >> 56) & 0xff) as u8,
        ((n >> 48) & 0xff) as u8,
        ((n >> 40) & 0xff) as u8,
        ((n >> 32) & 0xff) as u8,
        ((n >> 24) & 0xff) as u8,
        ((n >> 16) & 0xff) as u8,
        ((n >> 8) & 0xff) as u8,
        (n & 0xff) as u8,
    ];
    assert(bytes@ =~= spec_u64_to_be_bytes(n));
    bytes
}

/// A length-prefixed byte sequence: the length in eight bytes, then the bytes.
pub open spec fn spec_encode_bytes(bytes: Seq<u8>) -> Seq<u8> {
    spec_u64_to_be_bytes(bytes.len() as u64) + bytes
}

/// A single character, encoded as a byte sequence of length one.
pub open spec fn spec_encode_char(c: char) -> Seq<u8> {
    spec_u64_to_be_bytes(1) + seq![c as u8]
}

/// Appends the encoding of `c` to `buf`.
pub fn write_encoded_char_to_buffer(c: char, buf: &mut Vec<u8>)
    ensures
        final(buf)@ == old(buf)@ + spec_encode_char(c),
{
    let len = encode_be_u64(1);
    let ghost before = buf@;
    buf.extend_from_slice(len.as_slice());
    buf.push(c as u8);
    assert(buf@ =~= before + spec_encode_char(c));
}

/// Appends the encoding of `bytes` to `buf`.
pub fn write_encoded_bytes_to_buffer(bytes: Vec<u8>, buf: &mut Vec<u8>)
    ensures
        final(buf)@ == old(buf)@ + spec_encode_bytes(bytes@),
{
    let len = encode_be_u64(bytes.len());
    let ghost before = buf@;
    buf.extend_from_slice(len.as_slice());
    buf.extend_from_slice(bytes.as_slice());
    assert(buf@ =~= before + spec_encode_bytes(bytes@));
}

/// A block of bytes that is read from front to back.
#[derive(Debug)]
pub struct ByteReader {
    data: Vec<u8>,
    pos: usize,
}

impl View for ByteReader {
    type V = Seq<u8>;

    /// The bytes that have not been read yet.
    open spec fn view(&self) -> Seq<u8> {
        self.data().skip(self.position() as int)
    }
}

impl ByteReader {
    /// All the bytes, read or not.
    pub closed spec fn data(&self) -> Seq<u8> {
        self.data@
    }

    /// How many bytes have been read.
    pub closed spec fn position(&self) -> nat {
        self.pos as nat
    }

    #[verifier::type_invariant]
    spec fn inv(&self) -> bool {
        self.pos <= self.data.len()
    }

    /// A reader at the start of `data`.
    pub fn new(data: Vec<u8>) -> (reader: ByteReader)
        ensures
            reader.data() == data@,
            reader.position() == 0,
            reader@ == data@,
    {
        assert(data@.skip(0) =~= data@);
        ByteReader { data, pos: 0 }
    }

    /// How many bytes are left to read.
    pub fn remaining(&self) -> (n: usize)
        ensures
            n == self@.len(),
            self.position() <= self.data().len(),
    {
        proof {
            use_type_invariant(self);
        }
        self.data.len() - self.pos
    }

    /// The place that reading has reached, to come back to with `reset`.
    pub fn mark(&self) -> (mark: usize)
        ensures
            mark == self.position(),
            mark <= self.data().len(),
    {
        proof {
            use_type_invariant(self);
        }
        self.pos
    }

    /// Goes back to a place that `mark` gave.
    pub fn reset(&mut self, mark: usize)
        requires
            mark <= old(self).data().len(),
        ensures
            final(self).data() == old(self).data(),
            final(self).position() == mark,
    {
        self.pos = mark;
    }
}

/// Reads exactly `bytes_length` bytes. Where fewer are left, nothing is read
/// and the error is `UnexpectedEof`.
pub fn read_bytes_from_log(reader: &mut ByteReader, bytes_length: u64) -> (result: Result<
    Vec<u8>,
    IoErrorKind,
>)
    ensures
        final(reader).data() == old(reader).data(),
        match result {
            Ok(bytes) => bytes_length <= old(reader)@.len() && bytes@ == old(reader)@.take(
                bytes_length as int,
            ) && final(reader).position() == old(reader).position() + bytes_length,
            Err(e) => bytes_length > old(reader)@.len() && e == IoErrorKind::UnexpectedEof
                && final(reader).position() == old(reader).position(),
        },
{
    proof {
        use_type_invariant(&*reader);
    }
    let left = reader.data.len() - reader.pos;
    if bytes_length > left as u64 {
        return Err(IoErrorKind::UnexpectedEof);
    }
    let n = bytes_length as usize;
    let mut buf: Vec<u8> = Vec::new();
    let start = reader.pos;
    let mut i: usize = 0;
    while i < n
        invariant
            i <= n,
            start + n <= reader.data.len(),
            reader.pos == start,
            reader.data == old(reader).data,
            buf@ == reader.data@.subrange(start as int, start + i),
        decreases n - i,
    {
        buf.push(reader.data[start + i]);
        i += 1;
        assert(buf@ =~= reader.data@.subrange(start as int, start + i));
    }
    reader.pos = start + n;
    assert(buf@ =~= old(reader)@.take(bytes_length as int));
    Ok(buf)
}

/// Reads an eight-byte big-endian length. Where fewer than eight bytes are
/// left, nothing is read and the error is `UnexpectedEof`.
pub fn read_u64_from_log(reader: &mut ByteReader) -> (result: Result<u64, IoErrorKind>)
    ensures
        final(reader).data() == old(reader).data(),
        match result {
            Ok(n) => old(reader)@.len() >= 8 && n == spec_u64_from_be_bytes(old(reader)@)
                && final(reader).position() == old(reader).position() + 8,
            Err(e) => old(reader)@.len() < 8 && e == IoErrorKind::UnexpectedEof
                && final(reader).position() == old(reader).position(),
        },
{
    match read_bytes_from_log(reader, U64_BYTES_LEN as u64) {
        Ok(b) => {
            let n = (b[0] as u64) << 56 | (b[1] as u64) << 48 | (b[2] as u64) << 40 | (
            b[3] as u64) << 32 | (b[4] as u64) << 24 | (b[5] as u64) << 16 | (b[6] as u64) << 8
                | (b[7] as u64);
            Ok(n)
        },
        Err(e) => Err(e),
    }
}

} // verus!
