//! Fixed-width big-endian primitives over a byte buffer: a writer that appends
//! and a reader that keeps a cursor.
use vstd::prelude::*;
use vstd::utf8::{decode_utf8, encode_utf8, valid_utf8};
use crate::buf::{
    bytes_contents, bytes_mut_contents, byte_at, bytes_len, freeze, new_buffer, put_slice, put_u8,
};
use crate::text::decode_utf8_string;

verus! {

broadcast use vstd::utf8::encode_utf8_decode_utf8;

/// Why a read from a buffer failed.
#[derive(Debug, PartialEq, Eq, Clone, Copy)]
pub enum ReadError {
    /// Fewer bytes remain than the value needs.
    UnderRun,
    /// The bytes do not hold a value of the kind read (a bool other than 0
    /// or 1, text that is not UTF-8).
    Corrupted,
}

/// The eight big-endian bytes of `v`.
pub open spec fn u64_be(v: u64) -> Seq<u8> {
    seq![
        (v >> 56u64) as u8,
        (v >> 48u64) as u8,
        (v >> 40u64) as u8,
        (v >> 32u64) as u8,
        (v >> 24u64) as u8,
        (v >> 16u64) as u8,
        (v >> 8u64) as u8,
        v as u8,
    ]
}

/// The `u64` whose big-endian bytes start `s`.
pub open spec fn u64_of_be(s: Seq<u8>) -> u64 {
    ((s[0] as u64) << 56u64) | ((s[1] as u64) << 48u64) | ((s[2] as u64) << 40u64) | ((
    s[3] as u64) << 32u64) | ((s[4] as u64) << 24u64) | ((s[5] as u64) << 16u64) | ((s[6] as u64)
        << 8u64) | (s[7] as u64)
}

/// The four big-endian bytes of `v`.
pub open spec fn u32_be(v: u32) -> Seq<u8> {
    seq![(v >> 24u32) as u8, (v >> 16u32) as u8, (v >> 8u32) as u8, v as u8]
}

/// The `u32` whose big-endian bytes start `s`.
pub open spec fn u32_of_be(s: Seq<u8>) -> u32 {
    ((s[0] as u32) << 24u32) | ((s[1] as u32) << 16u32) | ((s[2] as u32) << 8u32) | (s[3] as u32)
}

/// The four little-endian bytes of `v`.
pub open spec fn u32_le(v: u32) -> Seq<u8> {
    seq![v as u8, (v >> 8u32) as u8, (v >> 16u32) as u8, (v >> 24u32) as u8]
}

/// The `u32` whose little-endian bytes start `s`.
pub open spec fn u32_of_le(s: Seq<u8>) -> u32 {
    (s[0] as u32) | ((s[1] as u32) << 8u32) | ((s[2] as u32) << 16u32) | ((s[3] as u32) << 24u32)
}

/// A string on the wire: its UTF-8 length as a big-endian `u64`, then its bytes.
pub open spec fn string_wire(s: Seq<char>) -> Seq<u8> {
    u64_be(encode_utf8(s).len() as u64) + encode_utf8(s)
}

/// A bool on the wire.
pub open spec fn bool_byte(b: bool) -> u8 {
    if b {
        1
    } else {
        0
    }
}

pub proof fn lemma_u64_be(v: u64)
    ensures
        u64_of_be(u64_be(v)) == v,
        u64_be(v).len() == 8,
{
    let s = u64_be(v);
    assert(((((v >> 56u64) as u8) as u64) << 56u64) | ((((v >> 48u64) as u8) as u64) << 48u64) | ((
    ((v >> 40u64) as u8) as u64) << 40u64) | ((((v >> 32u64) as u8) as u64) << 32u64) | ((((v
        >> 24u64) as u8) as u64) << 24u64) | ((((v >> 16u64) as u8) as u64) << 16u64) | ((((v
        >> 8u64) as u8) as u64) << 8u64) | ((v as u8) as u64) == v) by (bit_vector);
}

pub proof fn lemma_u64_be_inverse(s: Seq<u8>)
    requires
        s.len() >= 8,
    ensures
        u64_be(u64_of_be(s)) == s.subrange(0, 8),
{
    let (b0, b1, b2, b3, b4, b5, b6, b7) = (s[0], s[1], s[2], s[3], s[4], s[5], s[6], s[7]);
    let v = u64_of_be(s);
    assert(v == ((b0 as u64) << 56u64) | ((b1 as u64) << 48u64) | ((b2 as u64) << 40u64) | ((
    b3 as u64) << 32u64) | ((b4 as u64) << 24u64) | ((b5 as u64) << 16u64) | ((b6 as u64)
        << 8u64) | (b7 as u64));
    assert(((v >> 56u64) as u8) == b0 && ((v >> 48u64) as u8) == b1 && ((v >> 40u64) as u8) == b2
        && ((v >> 32u64) as u8) == b3 && ((v >> 24u64) as u8) == b4 && ((v >> 16u64) as u8) == b5
        && ((v >> 8u64) as u8) == b6 && (v as u8) == b7) by (bit_vector)
        requires
            v == ((b0 as u64) << 56u64) | ((b1 as u64) << 48u64) | ((b2 as u64) << 40u64) | ((
            b3 as u64) << 32u64) | ((b4 as u64) << 24u64) | ((b5 as u64) << 16u64) | ((
            b6 as u64) << 8u64) | (b7 as u64),
    ;
    assert(u64_be(v) =~= s.subrange(0, 8));
}

pub proof fn lemma_u32_be(v: u32)
    ensures
        u32_of_be(u32_be(v)) == v,
        u32_be(v).len() == 4,
{
    assert(((((v >> 24u32) as u8) as u32) << 24u32) | ((((v >> 16u32) as u8) as u32) << 16u32) | ((
    ((v >> 8u32) as u8) as u32) << 8u32) | ((v as u8) as u32) == v) by (bit_vector);
}

/// The bytes after a cursor, seen before and after a read of `n` of them.
pub proof fn lemma_rest_advance(before: BinaryReader, after: BinaryReader, n: nat)
    requires
        before.has(n),
        after.data() == before.data(),
        after.position == before.position + n,
    ensures
        before.ahead(n) == before.rest().subrange(0, n as int),
        after.rest() == before.rest().subrange(n as int, before.rest().len() as int),
        after.position <= after.data().len(),
{
    assert(before.ahead(n) =~= before.rest().subrange(0, n as int));
    assert(after.rest() =~= before.rest().subrange(n as int, before.rest().len() as int));
}

/// What the reads of a string see after the cursor, in terms of the bytes
/// that remain.
pub proof fn lemma_ahead_rest(r: BinaryReader, n: nat)
    requires
        r.position <= r.data().len(),
        r.has(n),
    ensures
        r.ahead(n) == r.rest().subrange(0, n as int),
        n >= 8 ==> u64_of_be(r.ahead(8)) == u64_of_be(r.rest()),
        n >= 8 ==> r.text_len() == u64_of_be(r.rest()),
        n >= 8 && r.has(8 + r.text_len()) ==> r.ahead(8 + r.text_len()).subrange(
            8,
            (8 + r.text_len()) as int,
        ) == r.rest().subrange(8, 8 + u64_of_be(r.rest())),
{
    assert(r.ahead(n) =~= r.rest().subrange(0, n as int));
    if n >= 8 {
        assert(r.ahead(8) =~= r.rest().subrange(0, 8));
        if r.has(8 + r.text_len()) {
            assert(r.ahead(8 + r.text_len()).subrange(8, (8 + r.text_len()) as int)
                =~= r.rest().subrange(8, 8 + u64_of_be(r.rest())));
        }
    }
}

/// What the writer appends for a primitive value, the reader reads back as
/// that value: integers through their big-endian bytes, text through its
/// UTF-8 bytes, a bool through its byte.
pub proof fn lemma_primitive_round_trip(u: u64, i: i64, w: u32, j: i32, s: Seq<char>, b: bool)
    ensures
        u64_of_be(u64_be(u)) == u,
        u64_of_be(u64_be(i as u64)) as i64 == i,
        u32_of_be(u32_be(w)) == w,
        u32_of_be(u32_be(j as u32)) as i32 == j,
        u64_of_be(string_wire(s)) == encode_utf8(s).len() as u64,
        string_wire(s).subrange(8, string_wire(s).len() as int) == encode_utf8(s),
        valid_utf8(encode_utf8(s)),
        decode_utf8(encode_utf8(s)) == s,
        bool_byte(b) <= 1,
        (bool_byte(b) == 1) == b,
{
    lemma_u64_be(u);
    lemma_u64_be(i as u64);
    lemma_u32_be(w);
    lemma_u32_be(j as u32);
    assert((i as u64) as i64 == i) by (bit_vector);
    assert((j as u32) as i32 == j) by (bit_vector);
    let n = encode_utf8(s).len() as u64;
    lemma_u64_be(n);
    let x = string_wire(s);
    assert(forall|k: int| 0 <= k < 8 ==> x[k] == u64_be(n)[k]);
    assert(u64_of_be(x) == u64_of_be(u64_be(n)));
    assert(x.subrange(8, x.len() as int) =~= encode_utf8(s));
    vstd::utf8::encode_utf8_valid_utf8(s);
}

/// Appends fixed-width big-endian values to a growable buffer.
pub struct BinaryWriter {
    pub buffer: bytes::BytesMut,
}

impl View for BinaryWriter {
    type V = Seq<u8>;

    open spec fn view(&self) -> Seq<u8> {
        bytes_mut_contents(self.buffer)
    }
}

impl BinaryWriter {
    pub fn with_capacity(capacity: usize) -> (r: BinaryWriter)
        ensures
            r@ == Seq::<u8>::empty(),
    {
        BinaryWriter { buffer: new_buffer(capacity) }
    }

    pub fn write_string(&mut self, value: &str)
        ensures
            final(self)@ == old(self)@ + string_wire(value@),
    {
        let bytes = value.as_bytes();
        self.write_u64(bytes.len() as u64);
        put_slice(&mut self.buffer, bytes);
    }

    pub fn write_i32(&mut self, value: i32)
        ensures
            final(self)@ == old(self)@ + u32_be(value as u32),
    {
        self.write_u32(value as u32);
    }

    pub fn write_u32(&mut self, value: u32)
        ensures
            final(self)@ == old(self)@ + u32_be(value),
    {
        put_u8(&mut self.buffer, (value >> 24u32) as u8);
        put_u8(&mut self.buffer, (value >> 16u32) as u8);
        put_u8(&mut self.buffer, (value >> 8u32) as u8);
        put_u8(&mut self.buffer, value as u8);
        assert(final(self)@ =~= old(self)@ + u32_be(value));
    }

    pub fn write_i64(&mut self, value: i64)
        ensures
            final(self)@ == old(self)@ + u64_be(value as u64),
    {
        self.write_u64(value as u64);
    }

    pub fn write_u64(&mut self, value: u64)
        ensures
            final(self)@ == old(self)@ + u64_be(value),
    {
        put_u8(&mut self.buffer, (value >> 56u64) as u8);
        put_u8(&mut self.buffer, (value >> 48u64) as u8);
        put_u8(&mut self.buffer, (value >> 40u64) as u8);
        put_u8(&mut self.buffer, (value >> 32u64) as u8);
        put_u8(&mut self.buffer, (value >> 24u64) as u8);
        put_u8(&mut self.buffer, (value >> 16u64) as u8);
        put_u8(&mut self.buffer, (value >> 8u64) as u8);
        put_u8(&mut self.buffer, value as u8);
        assert(final(self)@ =~= old(self)@ + u64_be(value));
    }

    /// Writes an IEEE-754 double, given by its bit pattern, as eight
    /// big-endian bytes.
    pub fn write_f64(&mut self, bits: u64)
        ensures
            final(self)@ == old(self)@ + u64_be(bits),
    {
        self.write_u64(bits);
    }

    pub fn write_bool(&mut self, value: bool)
        ensures
            final(self)@ == old(self)@.push(bool_byte(value)),
    {
        let byte: u8 = if value {
            1
        } else {
            0
        };
        put_u8(&mut self.buffer, byte);
    }

    pub fn write_u8(&mut self, byte: u8)
        ensures
            final(self)@ == old(self)@.push(byte),
    {
        put_u8(&mut self.buffer, byte);
    }

    pub fn write_bytes(&mut self, bytes: &[u8])
        ensures
            final(self)@ == old(self)@ + bytes@,
    {
        put_slice(&mut self.buffer, bytes);
    }
}

/// Reads fixed-width big-endian values from a buffer, from a cursor on.
///
/// Each read either advances the cursor by exactly the width of the value it
/// returns, or fails and leaves the cursor where it was.
pub struct BinaryReader {
    pub buffer: bytes::Bytes,
    pub position: usize,
}

impl BinaryReader {
    /// The bytes read from.
    pub open spec fn data(&self) -> Seq<u8> {
        bytes_contents(self.buffer)
    }

    /// Whether `n` bytes remain after the cursor.
    pub open spec fn has(&self, n: nat) -> bool {
        self.position + n <= self.data().len()
    }

    /// The `n` bytes after the cursor.
    pub open spec fn ahead(&self, n: nat) -> Seq<u8> {
        self.data().subrange(self.position as int, self.position + n)
    }

    /// The bytes from the cursor to the end.
    pub open spec fn rest(&self) -> Seq<u8> {
        self.data().subrange(self.position as int, self.data().len() as int)
    }

    /// The length that the eight bytes after the cursor give a string.
    pub open spec fn text_len(&self) -> nat {
        u64_of_be(self.ahead(8)) as nat
    }

    /// A read of `n` bytes went as `ok` says: the cursor moved past them, or
    /// stayed where it was.
    pub open spec fn advanced(&self, before: &Self, n: nat, ok: bool) -> bool {
        &&& self.data() == before.data()
        &&& ok ==> self.position == before.position + n
        &&& !ok ==> self.position == before.position
    }

    pub fn from(buffer: bytes::BytesMut) -> (r: BinaryReader)
        ensures
            r.data() == bytes_mut_contents(buffer),
            r.position == 0,
    {
        BinaryReader { buffer: freeze(buffer), position: 0 }
    }

    /// Whether `n` more bytes can be read.
    fn remains(&self, n: usize) -> (r: bool)
        ensures
            r == self.has(n as nat),
            self.data().len() <= usize::MAX,
    {
        let len = bytes_len(&self.buffer);
        self.position <= len && len - self.position >= n
    }

    /// Copies the `n` bytes after the cursor, without moving it.
    fn peek_bytes(&self, n: usize) -> (r: Vec<u8>)
        requires
            self.has(n as nat),
            self.data().len() <= usize::MAX,
        ensures
            r@ == self.ahead(n as nat),
    {
        let mut out: Vec<u8> = Vec::with_capacity(n);
        let mut i: usize = 0;
        while i < n
            invariant
                self.has(n as nat),
                self.data().len() <= usize::MAX,
                i <= n,
                out@ == self.data().subrange(self.position as int, self.position + i),
            decreases n - i,
        {
            out.push(byte_at(&self.buffer, self.position + i));
            i = i + 1;
            assert(out@ =~= self.data().subrange(self.position as int, self.position + i));
        }
        out
    }

    pub fn read_string(&mut self) -> (r: Result<String, ReadError>)
        ensures
            final(self).advanced(old(self), 8 + old(self).text_len(), r is Ok),
            r is Ok ==> old(self).has(8) && old(self).has(8 + old(self).text_len()),
            r is Err && !old(self).has(8) ==> r->Err_0 == ReadError::UnderRun,
            old(self).has(8) && !old(self).has(8 + old(self).text_len()) ==> r == Err::<
                String,
                ReadError,
            >(ReadError::UnderRun),
            old(self).has(8) && old(self).has(8 + old(self).text_len()) ==> {
                let body = old(self).ahead(8 + old(self).text_len()).subrange(
                    8,
                    (8 + old(self).text_len()) as int,
                );
                &&& !valid_utf8(body) ==> r == Err::<String, ReadError>(ReadError::Corrupted)
                &&& valid_utf8(body) ==> r is Ok && r->Ok_0@ == decode_utf8(body)
            },
    {
        if !self.remains(8) {
            return Err(ReadError::UnderRun);
        }
        let head = self.peek_bytes(8);
        let len = ((head[0] as u64) << 56u64) | ((head[1] as u64) << 48u64) | ((head[2] as u64)
            << 40u64) | ((head[3] as u64) << 32u64) | ((head[4] as u64) << 24u64) | ((head[5] as u64)
            << 16u64) | ((head[6] as u64) << 8u64) | (head[7] as u64);
        let total = bytes_len(&self.buffer);
        if ((total - self.position - 8) as u64) < len {
            return Err(ReadError::UnderRun);
        }
        let n = len as usize;
        let start = self.position + 8;
        let mut body: Vec<u8> = Vec::with_capacity(n);
        let mut i: usize = 0;
        while i < n
            invariant
                start + n <= self.data().len(),
                self.data().len() <= usize::MAX,
                i <= n,
                body@ == self.data().subrange(start as int, start + i),
            decreases n - i,
        {
            body.push(byte_at(&self.buffer, start + i));
            i = i + 1;
            assert(body@ =~= self.data().subrange(start as int, start + i));
        }
        assert(head@ == self.ahead(8));
        assert(len == self.text_len());
        assert(body@ =~= self.ahead(8 + self.text_len()).subrange(8, (8 + self.text_len()) as int));
        match decode_utf8_string(body) {
            Some(s) => {
                self.position = start + n;
                Ok(s)
            },
            None => Err(ReadError::Corrupted),
        }
    }

    pub fn read_i32(&mut self) -> (r: Result<i32, ReadError>)
        ensures
            final(self).advanced(old(self), 4, r is Ok),
            r is Ok <==> old(self).has(4),
            r is Ok ==> r->Ok_0 == u32_of_be(old(self).ahead(4)) as i32,
            r is Err ==> r->Err_0 == ReadError::UnderRun,
    {
        match self.read_u32() {
            Ok(v) => Ok(v as i32),
            Err(e) => Err(e),
        }
    }

    pub fn read_i64(&mut self) -> (r: Result<i64, ReadError>)
        ensures
            final(self).advanced(old(self), 8, r is Ok),
            r is Ok <==> old(self).has(8),
            r is Ok ==> r->Ok_0 == u64_of_be(old(self).ahead(8)) as i64,
            r is Err ==> r->Err_0 == ReadError::UnderRun,
    {
        match self.read_u64() {
            Ok(v) => Ok(v as i64),
            Err(e) => Err(e),
        }
    }

    pub fn read_u64(&mut self) -> (r: Result<u64, ReadError>)
        ensures
            final(self).advanced(old(self), 8, r is Ok),
            r is Ok <==> old(self).has(8),
            r is Ok ==> r->Ok_0 == u64_of_be(old(self).ahead(8)),
            r is Err ==> r->Err_0 == ReadError::UnderRun,
    {
        if !self.remains(8) {
            return Err(ReadError::UnderRun);
        }
        let b = self.peek_bytes(8);
        let v = ((b[0] as u64) << 56u64) | ((b[1] as u64) << 48u64) | ((b[2] as u64) << 40u64) | ((
        b[3] as u64) << 32u64) | ((b[4] as u64) << 24u64) | ((b[5] as u64) << 16u64) | ((b[6] as u64)
            << 8u64) | (b[7] as u64);
        self.position = self.position + 8;
        Ok(v)
    }

    /// Reads an IEEE-754 double as eight big-endian bytes, returned as its
    /// bit pattern.
    pub fn read_f64(&mut self) -> (r: Result<u64, ReadError>)
        ensures
            final(self).advanced(old(self), 8, r is Ok),
            r is Ok <==> old(self).has(8),
            r is Ok ==> r->Ok_0 == u64_of_be(old(self).ahead(8)),
            r is Err ==> r->Err_0 == ReadError::UnderRun,
    {
        self.read_u64()
    }

    pub fn read_u32(&mut self) -> (r: Result<u32, ReadError>)
        ensures
            final(self).advanced(old(self), 4, r is Ok),
            r is Ok <==> old(self).has(4),
            r is Ok ==> r->Ok_0 == u32_of_be(old(self).ahead(4)),
            r is Err ==> r->Err_0 == ReadError::UnderRun,
    {
        if !self.remains(4) {
            return Err(ReadError::UnderRun);
        }
        let b = self.peek_bytes(4);
        let v = ((b[0] as u32) << 24u32) | ((b[1] as u32) << 16u32) | ((b[2] as u32) << 8u32) | (
        b[3] as u32);
        self.position = self.position + 4;
        Ok(v)
    }

    pub fn read_u8(&mut self) -> (r: Result<u8, ReadError>)
        ensures
            final(self).advanced(old(self), 1, r is Ok),
            r is Ok <==> old(self).has(1),
            r is Ok ==> r->Ok_0 == old(self).data()[old(self).position as int],
            r is Err ==> r->Err_0 == ReadError::UnderRun,
    {
        if !self.remains(1) {
            return Err(ReadError::UnderRun);
        }
        let v = byte_at(&self.buffer, self.position);
        self.position = self.position + 1;
        Ok(v)
    }

    pub fn read_bool(&mut self) -> (r: Result<bool, ReadError>)
        ensures
            final(self).advanced(old(self), 1, r is Ok),
            r is Ok ==> old(self).has(1),
            !old(self).has(1) ==> r == Err::<bool, ReadError>(ReadError::UnderRun),
            old(self).has(1) ==> {
                let b = old(self).data()[old(self).position as int];
                &&& b == 0 ==> r == Ok::<bool, ReadError>(false)
                &&& b == 1 ==> r == Ok::<bool, ReadError>(true)
                &&& b > 1 ==> r == Err::<bool, ReadError>(ReadError::Corrupted)
            },
    {
        if !self.remains(1) {
            return Err(ReadError::UnderRun);
        }
        let v = byte_at(&self.buffer, self.position);
        if v == 0 {
            self.position = self.position + 1;
            Ok(false)
        } else if v == 1 {
            self.position = self.position + 1;
            Ok(true)
        } else {
            Err(ReadError::Corrupted)
        }
    }

    /// Whether the cursor has reached the end of the buffer.
    pub fn end(&self) -> (r: bool)
        ensures
            r == (self.position >= self.data().len()),
    {
        self.position >= bytes_len(&self.buffer)
    }
}

} // verus!
