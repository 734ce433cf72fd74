//! Values that a sorted index can hold: how they are ordered and how they are
//! written, at a fixed width, into index slots.
use vstd::prelude::*;
use core::cmp::Ordering;
use vstd::string::StrSliceExecFns;
use vstd::utf8::{decode_utf8, encode_utf8, valid_utf8};
use crate::binary::{lemma_u32_be, lemma_u64_be, u32_be, u32_of_be, u64_be, u64_of_be};
use crate::text::{decode_utf8_string, push_char};

verus! {

broadcast use vstd::utf8::decode_utf8_encode_utf8;

/// Why an index value or slot could not be written or read.
#[derive(Debug, PartialEq, Eq, Clone, Copy)]
pub enum IndexError {
    /// Fewer bytes than a slot or header needs.
    Truncated,
    /// A value whose bytes do not have the fixed width, or that is not text.
    Corrupted,
    /// A split was asked for a value not strictly inside the fragment's range.
    OutOfRangeSplit,
    /// A fragment number with no fragment, or an offset past its last slot.
    NoSuchSlot,
}

/// The strict lexicographic order on ranks.
pub open spec fn rank_lt(a: Seq<int>, b: Seq<int>) -> bool
    decreases a.len(),
{
    if a.len() == 0 {
        b.len() > 0
    } else if b.len() == 0 {
        false
    } else if a[0] != b[0] {
        a[0] < b[0]
    } else {
        rank_lt(a.subrange(1, a.len() as int), b.subrange(1, b.len() as int))
    }
}

pub proof fn lemma_rank_lt_irreflexive(a: Seq<int>)
    ensures
        !rank_lt(a, a),
    decreases a.len(),
{
    if a.len() > 0 {
        lemma_rank_lt_irreflexive(a.subrange(1, a.len() as int));
    }
}

pub proof fn lemma_rank_lt_total(a: Seq<int>, b: Seq<int>)
    ensures
        a == b || rank_lt(a, b) || rank_lt(b, a),
        !(rank_lt(a, b) && rank_lt(b, a)),
    decreases a.len(),
{
    if a.len() > 0 && b.len() > 0 && a[0] == b[0] {
        let ta = a.subrange(1, a.len() as int);
        let tb = b.subrange(1, b.len() as int);
        lemma_rank_lt_total(ta, tb);
        if ta == tb {
            assert(a =~= seq![a[0]] + ta);
            assert(b =~= seq![b[0]] + tb);
        }
    } else if a.len() == 0 && b.len() == 0 {
        assert(a =~= b);
    }
}

pub proof fn lemma_rank_lt_transitive(a: Seq<int>, b: Seq<int>, c: Seq<int>)
    requires
        rank_lt(a, b),
        rank_lt(b, c),
    ensures
        rank_lt(a, c),
    decreases a.len(),
{
    if a.len() > 0 && b.len() > 0 && c.len() > 0 && a[0] == b[0] && b[0] == c[0] {
        lemma_rank_lt_transitive(
            a.subrange(1, a.len() as int),
            b.subrange(1, b.len() as int),
            c.subrange(1, c.len() as int),
        );
    }
}

/// How a comparison came out, in terms of ranks.
pub open spec fn compared(r: Ordering, a: Seq<int>, b: Seq<int>) -> bool {
    &&& (r == Ordering::Less) == rank_lt(a, b)
    &&& (r == Ordering::Equal) == (a == b)
    &&& (r == Ordering::Greater) == rank_lt(b, a)
}

/// The ranks of bytes, one number per byte.
pub open spec fn bytes_rank(b: Seq<u8>) -> Seq<int> {
    b.map_values(|x: u8| x as int)
}

proof fn lemma_rank_lt_skip(a: Seq<int>, b: Seq<int>, i: int)
    requires
        0 <= i <= a.len(),
        i <= b.len(),
        a.subrange(0, i) == b.subrange(0, i),
    ensures
        rank_lt(a, b) == rank_lt(a.subrange(i, a.len() as int), b.subrange(i, b.len() as int)),
    decreases i,
{
    if i > 0 {
        assert(a[0] == a.subrange(0, i)[0]);
        assert(b[0] == b.subrange(0, i)[0]);
        let ta = a.subrange(1, a.len() as int);
        let tb = b.subrange(1, b.len() as int);
        assert(ta.subrange(0, i - 1) =~= a.subrange(0, i).subrange(1, i));
        assert(tb.subrange(0, i - 1) =~= b.subrange(0, i).subrange(1, i));
        lemma_rank_lt_skip(ta, tb, i - 1);
        assert(ta.subrange(i - 1, ta.len() as int) =~= a.subrange(i, a.len() as int));
        assert(tb.subrange(i - 1, tb.len() as int) =~= b.subrange(i, b.len() as int));
    } else {
        assert(a.subrange(0, a.len() as int) =~= a);
        assert(b.subrange(0, b.len() as int) =~= b);
    }
}

/// Compares byte strings lexicographically.
fn compare_bytes(a: &[u8], b: &[u8]) -> (r: Ordering)
    ensures
        compared(r, bytes_rank(a@), bytes_rank(b@)),
{
    let ghost ra = bytes_rank(a@);
    let ghost rb = bytes_rank(b@);
    let mut i: usize = 0;
    while i < a.len() && i < b.len()
        invariant
            ra == bytes_rank(a@),
            rb == bytes_rank(b@),
            i <= a@.len(),
            i <= b@.len(),
            ra.subrange(0, i as int) == rb.subrange(0, i as int),
        decreases a.len() - i,
    {
        if a[i] != b[i] {
            proof {
                lemma_rank_lt_skip(ra, rb, i as int);
                lemma_rank_lt_total(ra, rb);
                assert(ra.subrange(i as int, ra.len() as int)[0] == a@[i as int] as int);
                assert(rb.subrange(i as int, rb.len() as int)[0] == b@[i as int] as int);
                if ra == rb {
                    assert(ra[i as int] == rb[i as int]);
                }
            }
            if a[i] < b[i] {
                return Ordering::Less;
            } else {
                return Ordering::Greater;
            }
        }
        proof {
            assert(ra.subrange(0, i + 1) =~= ra.subrange(0, i as int).push(ra[i as int]));
            assert(rb.subrange(0, i + 1) =~= rb.subrange(0, i as int).push(rb[i as int]));
        }
        i = i + 1;
    }
    proof {
        lemma_rank_lt_skip(ra, rb, i as int);
        lemma_rank_lt_total(ra, rb);
        let ta = ra.subrange(i as int, ra.len() as int);
        let tb = rb.subrange(i as int, rb.len() as int);
        if a.len() == b.len() {
            assert(ra.subrange(0, i as int) =~= ra);
            assert(rb.subrange(0, i as int) =~= rb);
        }
    }
    if a.len() < b.len() {
        Ordering::Less
    } else if a.len() > b.len() {
        Ordering::Greater
    } else {
        Ordering::Equal
    }
}

/// The number of bytes a value takes when written.
pub trait BinarySizeable {
    spec fn binary_size(&self) -> nat;

    fn get_binary_size(&self) -> (r: usize)
        requires
            self.binary_size() <= usize::MAX,
        ensures
            r == self.binary_size(),
    ;
}

/// A value that a sorted index can hold.
///
/// Values are ordered by their rank. In a slot a value takes a fixed number
/// of bytes, `width(size)`, where `size` is the value size that the index
/// was made with.
pub trait IndexValue: Sized + BinarySizeable {
    /// Where the value stands in the order of index values.
    spec fn rank(&self) -> Seq<int>;

    /// The number of bytes a value takes in a slot.
    spec fn width(size: nat) -> nat;

    /// The bytes of the value in a slot, if it can be written at that width.
    spec fn slot_value(&self, size: nat) -> Option<Seq<u8>>;

    /// The rank of the value that slot bytes hold.
    spec fn slot_rank(b: Seq<u8>, size: nat) -> Result<Seq<int>, IndexError>;

    fn slot_width(size: usize) -> (r: usize)
        requires
            size + 8 <= usize::MAX,
        ensures
            r == Self::width(size as nat),
            r <= size + 8,
    ;

    fn compare(&self, other: &Self) -> (r: Ordering)
        ensures
            compared(r, self.rank(), other.rank()),
    ;

    fn duplicate(&self) -> (r: Self)
        ensures
            r.rank() == self.rank(),
            forall|size: nat| r.slot_value(size) == self.slot_value(size),
    ;

    fn encode(&self, size: usize) -> (r: Result<Vec<u8>, IndexError>)
        requires
            size + 8 <= usize::MAX,
        ensures
            match self.slot_value(size as nat) {
                Some(b) => r is Ok && r->Ok_0@ == b && b.len() == Self::width(size as nat),
                None => r == Err::<Vec<u8>, IndexError>(IndexError::Corrupted),
            },
    ;

    fn decode(b: &[u8], size: usize) -> (r: Result<Self, IndexError>)
        requires
            size + 8 <= usize::MAX,
        ensures
            match Self::slot_rank(b@, size as nat) {
                Ok(k) => r is Ok && r->Ok_0.rank() == k,
                Err(e) => r == Err::<Self, IndexError>(e),
            },
    ;
}

impl BinarySizeable for u32 {
    open spec fn binary_size(&self) -> nat {
        4
    }

    fn get_binary_size(&self) -> (r: usize) {
        4
    }
}

impl BinarySizeable for u64 {
    open spec fn binary_size(&self) -> nat {
        8
    }

    fn get_binary_size(&self) -> (r: usize) {
        8
    }
}

impl BinarySizeable for String {
    open spec fn binary_size(&self) -> nat {
        8 + encode_utf8(self@).len()
    }

    fn get_binary_size(&self) -> (r: usize) {
        8 + self.as_str().as_bytes().len()
    }
}

impl IndexValue for u32 {
    open spec fn rank(&self) -> Seq<int> {
        seq![*self as int]
    }

    open spec fn width(size: nat) -> nat {
        4
    }

    open spec fn slot_value(&self, size: nat) -> Option<Seq<u8>> {
        Some(u32_be(*self))
    }

    open spec fn slot_rank(b: Seq<u8>, size: nat) -> Result<Seq<int>, IndexError> {
        if b.len() < 4 {
            Err(IndexError::Truncated)
        } else {
            Ok(seq![u32_of_be(b) as int])
        }
    }

    fn slot_width(size: usize) -> (r: usize) {
        4
    }

    fn compare(&self, other: &Self) -> (r: Ordering) {
        proof {
            let (a, b) = (self.rank(), other.rank());
            assert(a.subrange(1, 1) =~= Seq::<int>::empty());
            assert(b.subrange(1, 1) =~= Seq::<int>::empty());
            if *self == *other {
                assert(a =~= b);
            }
            if a == b {
                assert(a[0] == b[0]);
            }
            lemma_rank_lt_irreflexive(Seq::<int>::empty());
            assert(rank_lt(a, b) == (a[0] < b[0]));
            assert(rank_lt(b, a) == (b[0] < a[0]));
        }
        if *self < *other {
            Ordering::Less
        } else if *self > *other {
            Ordering::Greater
        } else {
            Ordering::Equal
        }
    }

    fn duplicate(&self) -> (r: Self) {
        *self
    }

    fn encode(&self, size: usize) -> (r: Result<Vec<u8>, IndexError>) {
        let mut out: Vec<u8> = Vec::with_capacity(4);
        out.push((*self >> 24u32) as u8);
        out.push((*self >> 16u32) as u8);
        out.push((*self >> 8u32) as u8);
        out.push(*self as u8);
        assert(out@ =~= u32_be(*self));
        Ok(out)
    }

    fn decode(b: &[u8], size: usize) -> (r: Result<Self, IndexError>) {
        if b.len() < 4 {
            return Err(IndexError::Truncated);
        }
        Ok(((b[0] as u32) << 24u32) | ((b[1] as u32) << 16u32) | ((b[2] as u32) << 8u32) | (
        b[3] as u32))
    }
}

impl IndexValue for u64 {
    open spec fn rank(&self) -> Seq<int> {
        seq![*self as int]
    }

    open spec fn width(size: nat) -> nat {
        8
    }

    open spec fn slot_value(&self, size: nat) -> Option<Seq<u8>> {
        Some(u64_be(*self))
    }

    open spec fn slot_rank(b: Seq<u8>, size: nat) -> Result<Seq<int>, IndexError> {
        if b.len() < 8 {
            Err(IndexError::Truncated)
        } else {
            Ok(seq![u64_of_be(b) as int])
        }
    }

    fn slot_width(size: usize) -> (r: usize) {
        8
    }

    fn compare(&self, other: &Self) -> (r: Ordering) {
        proof {
            let (a, b) = (self.rank(), other.rank());
            assert(a.subrange(1, 1) =~= Seq::<int>::empty());
            assert(b.subrange(1, 1) =~= Seq::<int>::empty());
            if *self == *other {
                assert(a =~= b);
            }
            if a == b {
                assert(a[0] == b[0]);
            }
            lemma_rank_lt_irreflexive(Seq::<int>::empty());
            assert(rank_lt(a, b) == (a[0] < b[0]));
            assert(rank_lt(b, a) == (b[0] < a[0]));
        }
        if *self < *other {
            Ordering::Less
        } else if *self > *other {
            Ordering::Greater
        } else {
            Ordering::Equal
        }
    }

    fn duplicate(&self) -> (r: Self) {
        *self
    }

    fn encode(&self, size: usize) -> (r: Result<Vec<u8>, IndexError>) {
        let mut out: Vec<u8> = Vec::with_capacity(8);
        out.push((*self >> 56u64) as u8);
        out.push((*self >> 48u64) as u8);
        out.push((*self >> 40u64) as u8);
        out.push((*self >> 32u64) as u8);
        out.push((*self >> 24u64) as u8);
        out.push((*self >> 16u64) as u8);
        out.push((*self >> 8u64) as u8);
        out.push(*self as u8);
        assert(out@ =~= u64_be(*self));
        Ok(out)
    }

    fn decode(b: &[u8], size: usize) -> (r: Result<Self, IndexError>) {
        if b.len() < 8 {
            return Err(IndexError::Truncated);
        }
        Ok(((b[0] as u64) << 56u64) | ((b[1] as u64) << 48u64) | ((b[2] as u64) << 40u64) | ((
        b[3] as u64) << 32u64) | ((b[4] as u64) << 24u64) | ((b[5] as u64) << 16u64) | ((
        b[6] as u64) << 8u64) | (b[7] as u64))
    }
}

/// Appends the eight big-endian bytes of `v`.
pub(crate) fn push_u64_be(out: &mut Vec<u8>, v: u64)
    ensures
        final(out)@ == old(out)@ + u64_be(v),
{
    out.push((v >> 56u64) as u8);
    out.push((v >> 48u64) as u8);
    out.push((v >> 40u64) as u8);
    out.push((v >> 32u64) as u8);
    out.push((v >> 24u64) as u8);
    out.push((v >> 16u64) as u8);
    out.push((v >> 8u64) as u8);
    out.push(v as u8);
    assert(final(out)@ =~= old(out)@ + u64_be(v));
}

/// Appends the bytes of a slice.
pub(crate) fn push_all(out: &mut Vec<u8>, b: &[u8])
    ensures
        final(out)@ == old(out)@ + b@,
{
    let ghost start = out@;
    let mut i: usize = 0;
    while i < b.len()
        invariant
            i <= b@.len(),
            out@ == start + b@.subrange(0, i as int),
        decreases b.len() - i,
    {
        out.push(b[i]);
        i = i + 1;
        assert(out@ =~= start + b@.subrange(0, i as int));
    }
    assert(b@.subrange(0, i as int) =~= b@);
}

/// `s` cut to its first `len` characters, or padded with `pad` to `len`.
pub open spec fn pad_trunc(s: Seq<char>, pad: char, len: nat) -> Seq<char> {
    if s.len() >= len {
        s.subrange(0, len as int)
    } else {
        s + Seq::new((len - s.len()) as nat, |i: int| pad)
    }
}

/// Cuts `s` to its first `len` characters, or pads it with `pad` to `len`
/// characters.
pub fn pad_or_truncate_string(s: String, pad: char, len: usize) -> (r: String)
    ensures
        r@ == pad_trunc(s@, pad, len as nat),
{
    let n = s.as_str().unicode_len();
    if n >= len {
        s.as_str().substring_char(0, len).to_owned()
    } else {
        let ghost start = s@;
        let mut result = s;
        let mut i: usize = n;
        while i < len
            invariant
                n == start.len(),
                n <= i <= len,
                result@ == start + Seq::new((i - n) as nat, |k: int| pad),
            decreases len - i,
        {
            push_char(&mut result, pad);
            i = i + 1;
            assert(result@ =~= start + Seq::new((i - n) as nat, |k: int| pad));
        }
        result
    }
}

/// The rank of a string: its UTF-8 bytes.
pub open spec fn string_rank(s: Seq<char>) -> Seq<int> {
    bytes_rank(encode_utf8(s))
}

/// A string in a slot of value size `size`: padded with spaces (or cut) to
/// `size` characters, which must take `size` bytes; then its length as a
/// big-endian `u64` and its bytes.
pub open spec fn string_slot(v: Seq<char>, size: nat) -> Option<Seq<u8>> {
    let b = encode_utf8(pad_trunc(v, ' ', size));
    if b.len() == size {
        Some(u64_be(size as u64) + b)
    } else {
        None
    }
}

/// The rank of the string that slot bytes hold: a zero length stands for the
/// empty string; any other length must be the value size.
pub open spec fn string_slot_rank(b: Seq<u8>, size: nat) -> Result<Seq<int>, IndexError> {
    if b.len() < 8 {
        Err(IndexError::Truncated)
    } else if u64_of_be(b) == 0 {
        Ok(Seq::empty())
    } else if u64_of_be(b) != size {
        Err(IndexError::Corrupted)
    } else if b.len() < 8 + size {
        Err(IndexError::Truncated)
    } else if !valid_utf8(b.subrange(8, 8 + size as int)) {
        Err(IndexError::Corrupted)
    } else {
        Ok(bytes_rank(b.subrange(8, 8 + size as int)))
    }
}

/// Writes a string into a slot of value size `index_value_size`.
pub fn default_string_writer(index_value_size: usize, v: &String) -> (r: Result<
    Vec<u8>,
    IndexError,
>)
    requires
        index_value_size + 8 <= usize::MAX,
    ensures
        match string_slot(v@, index_value_size as nat) {
            Some(b) => r is Ok && r->Ok_0@ == b,
            None => r == Err::<Vec<u8>, IndexError>(IndexError::Corrupted),
        },
{
    let padded = pad_or_truncate_string(v.clone(), ' ', index_value_size);
    let bytes = padded.as_str().as_bytes();
    if bytes.len() != index_value_size {
        return Err(IndexError::Corrupted);
    }
    let mut out: Vec<u8> = Vec::with_capacity(8 + index_value_size);
    push_u64_be(&mut out, index_value_size as u64);
    push_all(&mut out, bytes);
    Ok(out)
}

/// Reads the string that a slot of value size `index_value_size` holds.
pub fn default_string_fixed_size_reader(index_value_size: usize, b: &[u8]) -> (r: Result<
    String,
    IndexError,
>)
    requires
        index_value_size + 8 <= usize::MAX,
    ensures
        match string_slot_rank(b@, index_value_size as nat) {
            Ok(k) => r is Ok && string_rank(r->Ok_0@) == k,
            Err(e) => r == Err::<String, IndexError>(e),
        },
{
    if b.len() < 8 {
        return Err(IndexError::Truncated);
    }
    let text_len = ((b[0] as u64) << 56u64) | ((b[1] as u64) << 48u64) | ((b[2] as u64) << 40u64)
        | ((b[3] as u64) << 32u64) | ((b[4] as u64) << 24u64) | ((b[5] as u64) << 16u64) | ((
    b[6] as u64) << 8u64) | (b[7] as u64);
    if text_len == 0 {
        let empty = String::new();
        proof {
            assert(encode_utf8(empty@) =~= Seq::<u8>::empty()) by {
                assert(empty@ =~= Seq::<char>::empty());
            }
            assert(bytes_rank(Seq::<u8>::empty()) =~= Seq::<int>::empty());
        }
        return Ok(empty);
    }
    if text_len != index_value_size as u64 {
        return Err(IndexError::Corrupted);
    }
    if b.len() - 8 < index_value_size {
        return Err(IndexError::Truncated);
    }
    let mut body: Vec<u8> = Vec::with_capacity(index_value_size);
    let blen = b.len();
    let mut i: usize = 0;
    while i < index_value_size
        invariant
            blen == b@.len(),
            8 + index_value_size <= b@.len(),
            i <= index_value_size,
            body@ == b@.subrange(8, 8 + i as int),
        decreases index_value_size - i,
    {
        body.push(b[8 + i]);
        i = i + 1;
        assert(body@ =~= b@.subrange(8, 8 + i as int));
    }
    match decode_utf8_string(body) {
        Some(s) => Ok(s),
        None => Err(IndexError::Corrupted),
    }
}

impl IndexValue for String {
    open spec fn rank(&self) -> Seq<int> {
        string_rank(self@)
    }

    open spec fn width(size: nat) -> nat {
        8 + size
    }

    open spec fn slot_value(&self, size: nat) -> Option<Seq<u8>> {
        string_slot(self@, size)
    }

    open spec fn slot_rank(b: Seq<u8>, size: nat) -> Result<Seq<int>, IndexError> {
        string_slot_rank(b, size)
    }

    fn slot_width(size: usize) -> (r: usize) {
        8 + size
    }

    fn compare(&self, other: &Self) -> (r: Ordering) {
        compare_bytes(self.as_str().as_bytes(), other.as_str().as_bytes())
    }

    fn duplicate(&self) -> (r: Self) {
        self.clone()
    }

    fn encode(&self, size: usize) -> (r: Result<Vec<u8>, IndexError>) {
        default_string_writer(size, self)
    }

    fn decode(b: &[u8], size: usize) -> (r: Result<Self, IndexError>) {
        default_string_fixed_size_reader(size, b)
    }
}

/// A `u32` in a slot: its four big-endian bytes.
pub fn default_u32_writer(v: u32) -> (r: Vec<u8>)
    ensures
        r@ == u32_be(v),
{
    match v.encode(0) {
        Ok(b) => b,
        Err(_) => Vec::new(),
    }
}

/// The `u32` that a slot holds.
pub fn default_u32_reader(b: &[u8]) -> (r: Result<u32, IndexError>)
    ensures
        b@.len() < 4 ==> r == Err::<u32, IndexError>(IndexError::Truncated),
        b@.len() >= 4 ==> r == Ok::<u32, IndexError>(u32_of_be(b@)),
{
    let r = <u32 as IndexValue>::decode(b, 0);
    proof {
        if b@.len() >= 4 {
            assert(r->Ok_0.rank() == seq![r->Ok_0 as int]);
            assert(seq![r->Ok_0 as int][0] == seq![u32_of_be(b@) as int][0]);
        }
    }
    r
}

/// A `u64` in a slot: its eight big-endian bytes.
pub fn default_u64_writer(v: u64) -> (r: Vec<u8>)
    ensures
        r@ == u64_be(v),
{
    match v.encode(0) {
        Ok(b) => b,
        Err(_) => Vec::new(),
    }
}

/// The `u64` that a slot holds.
pub fn default_u64_reader(b: &[u8]) -> (r: Result<u64, IndexError>)
    ensures
        b@.len() < 8 ==> r == Err::<u64, IndexError>(IndexError::Truncated),
        b@.len() >= 8 ==> r == Ok::<u64, IndexError>(u64_of_be(b@)),
{
    let r = <u64 as IndexValue>::decode(b, 0);
    proof {
        if b@.len() >= 8 {
            assert(seq![r->Ok_0 as int][0] == seq![u64_of_be(b@) as int][0]);
        }
    }
    r
}

} // verus!
