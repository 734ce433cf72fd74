//! The byte buffers of the `bytes` crate and the checksum of `crc32fast`, as
//! the rest of the library sees them.
use vstd::prelude::*;

verus! {

#[verifier::external_type_specification]
#[verifier::external_body]
pub struct ExBytesMut(bytes::BytesMut);

#[verifier::external_type_specification]
#[verifier::external_body]
pub struct ExBytes(bytes::Bytes);

/// The bytes held by a growable buffer.
pub uninterp spec fn bytes_mut_contents(b: bytes::BytesMut) -> Seq<u8>;

/// The bytes held by a frozen buffer.
pub uninterp spec fn bytes_contents(b: bytes::Bytes) -> Seq<u8>;

/// The CRC-32 (IEEE 802.3 polynomial) of a byte sequence.
pub uninterp spec fn crc32_of(b: Seq<u8>) -> u32;

/// Relies on `BytesMut::with_capacity`: a new buffer holds no bytes.
#[verifier::external_body]
pub(crate) fn new_buffer(capacity: usize) -> (r: bytes::BytesMut)
    ensures
        bytes_mut_contents(r) == Seq::<u8>::empty(),
{
    bytes::BytesMut::with_capacity(capacity)
}

/// Relies on `BufMut::put_slice` for `BytesMut`, which extends the buffer by
/// the slice (`extend_from_slice`).
#[verifier::external_body]
pub(crate) fn put_slice(b: &mut bytes::BytesMut, s: &[u8])
    ensures
        bytes_mut_contents(*final(b)) == bytes_mut_contents(*old(b)) + s@,
{
    bytes::BufMut::put_slice(b, s)
}

/// Relies on `BufMut::put_u8` for `BytesMut`, which appends one byte.
#[verifier::external_body]
pub(crate) fn put_u8(b: &mut bytes::BytesMut, v: u8)
    ensures
        bytes_mut_contents(*final(b)) == bytes_mut_contents(*old(b)).push(v),
{
    bytes::BufMut::put_u8(b, v)
}

/// Relies on `BytesMut::freeze`: the frozen buffer holds the same bytes.
#[verifier::external_body]
pub(crate) fn freeze(b: bytes::BytesMut) -> (r: bytes::Bytes)
    ensures
        bytes_contents(r) == bytes_mut_contents(b),
{
    b.freeze()
}

/// Relies on `From<&[u8]> for BytesMut`: a buffer holding a copy of the slice.
#[verifier::external_body]
pub(crate) fn buffer_from_slice(s: &[u8]) -> (r: bytes::BytesMut)
    ensures
        bytes_mut_contents(r) == s@,
{
    bytes::BytesMut::from(s)
}

/// Relies on `Bytes::len` (through `Deref<Target = [u8]>`): the number of bytes held.
#[verifier::external_body]
pub(crate) fn bytes_len(b: &bytes::Bytes) -> (r: usize)
    ensures
        r == bytes_contents(*b).len(),
{
    b.len()
}

/// Relies on indexing a `Bytes` (through `Deref<Target = [u8]>`): the byte at `i`.
#[verifier::external_body]
pub(crate) fn byte_at(b: &bytes::Bytes, i: usize) -> (r: u8)
    requires
        i < bytes_contents(*b).len(),
    ensures
        r == bytes_contents(*b)[i as int],
{
    b[i]
}

/// Relies on `<[u8]>::to_vec` (through `Deref<Target = [u8]>`): the bytes, copied.
#[verifier::external_body]
pub(crate) fn bytes_to_vec(b: &bytes::Bytes) -> (r: Vec<u8>)
    ensures
        r@ == bytes_contents(*b),
{
    b.to_vec()
}

/// Relies on `crc32fast::hash`, the CRC-32 of the bytes.
#[verifier::external_body]
pub(crate) fn crc32(b: &[u8]) -> (r: u32)
    ensures
        r == crc32_of(b@),
{
    crc32fast::hash(b)
}

} // verus!
