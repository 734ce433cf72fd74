//! The tagged wire format for JSON-shaped documents: every value is a one-byte
//! type tag followed by its body.
use vstd::prelude::*;
use vstd::utf8::{decode_utf8, encode_utf8, valid_utf8};
use crate::binary::{
    bool_byte, lemma_ahead_rest, lemma_rest_advance, lemma_u64_be, string_wire, u64_be, u64_of_be, BinaryReader,
    BinaryWriter, ReadError,
};
use crate::buf::{buffer_from_slice, bytes_mut_contents};

verus! {

broadcast use vstd::utf8::encode_utf8_decode_utf8;

/// A JSON-shaped document. A non-integral number is held as the bit pattern
/// of its IEEE-754 double; an object keeps its properties in order.
#[derive(Debug, PartialEq)]
pub enum JsonValue {
    Null,
    Bool(bool),
    Int64(i64),
    Float(u64),
    Text(String),
    Array(Vec<JsonValue>),
    Object(Vec<(String, JsonValue)>),
}

/// The mathematical model of a [`JsonValue`].
pub enum Json {
    Null,
    Bool(bool),
    Int64(i64),
    Float(u64),
    Text(Seq<char>),
    Array(Seq<Json>),
    Object(Seq<(Seq<char>, Json)>),
}

pub open spec fn json_view(v: JsonValue) -> Json
    decreases v,
{
    match v {
        JsonValue::Null => Json::Null,
        JsonValue::Bool(b) => Json::Bool(b),
        JsonValue::Int64(n) => Json::Int64(n),
        JsonValue::Float(bits) => Json::Float(bits),
        JsonValue::Text(s) => Json::Text(s@),
        JsonValue::Array(items) => Json::Array(items_view(items@)),
        JsonValue::Object(props) => Json::Object(props_view(props@)),
    }
}

pub open spec fn items_view(s: Seq<JsonValue>) -> Seq<Json>
    decreases s,
{
    if s.len() == 0 {
        Seq::empty()
    } else {
        items_view(s.subrange(0, s.len() - 1)).push(json_view(s[s.len() - 1]))
    }
}

pub open spec fn props_view(s: Seq<(String, JsonValue)>) -> Seq<(Seq<char>, Json)>
    decreases s,
{
    if s.len() == 0 {
        Seq::empty()
    } else {
        props_view(s.subrange(0, s.len() - 1)).push(
            (s[s.len() - 1].0@, json_view(s[s.len() - 1].1)),
        )
    }
}

impl View for JsonValue {
    type V = Json;

    open spec fn view(&self) -> Json {
        json_view(*self)
    }
}

/// The one-byte type tag of each kind of value.
#[derive(Debug, PartialEq, Eq, Clone, Copy)]
pub enum TypeFlag {
    Null,
    Bool,
    Int64,
    Float,
    Text,
    Array,
    Object,
}

pub open spec fn flag_byte(t: TypeFlag) -> u8 {
    match t {
        TypeFlag::Null => 0,
        TypeFlag::Bool => 1,
        TypeFlag::Int64 => 2,
        TypeFlag::Float => 3,
        TypeFlag::Text => 4,
        TypeFlag::Array => 5,
        TypeFlag::Object => 6,
    }
}

/// Why a document could not be decoded.
#[derive(Debug, PartialEq, Eq, Clone, Copy)]
pub enum DecodeError {
    /// The input ends inside a value.
    Truncated,
    /// A type tag that names no kind of value.
    UnknownTag(u8),
    /// A body that its tag does not admit (a bool byte other than 0 or 1,
    /// text that is not UTF-8, a top-level value that is not an object).
    Corrupted,
}

/// The tag of a value.
pub open spec fn tag_of(j: Json) -> u8 {
    match j {
        Json::Null => 0,
        Json::Bool(_) => 1,
        Json::Int64(_) => 2,
        Json::Float(_) => 3,
        Json::Text(_) => 4,
        Json::Array(_) => 5,
        Json::Object(_) => 6,
    }
}

/// The body of a value on the wire, after its tag.
pub open spec fn body(j: Json) -> Seq<u8>
    decreases j,
{
    match j {
        Json::Null => Seq::empty(),
        Json::Bool(b) => seq![bool_byte(b)],
        Json::Int64(n) => u64_be(n as u64),
        Json::Float(bits) => u64_be(bits),
        Json::Text(t) => string_wire(t),
        Json::Array(items) => u64_be(items.len() as u64) + enc_list(items),
        Json::Object(props) => u64_be(props.len() as u64) + enc_props(props),
    }
}

/// A value on the wire: its tag, then its body.
pub open spec fn enc(j: Json) -> Seq<u8> {
    seq![tag_of(j)] + body(j)
}

/// Values on the wire, one after the other.
pub open spec fn enc_list(s: Seq<Json>) -> Seq<u8>
    decreases s,
{
    if s.len() == 0 {
        Seq::empty()
    } else {
        seq![tag_of(s[0])] + body(s[0]) + enc_list(s.subrange(1, s.len() as int))
    }
}

/// Properties on the wire: each name as a string, then its tagged value.
pub open spec fn enc_props(s: Seq<(Seq<char>, Json)>) -> Seq<u8>
    decreases s,
{
    if s.len() == 0 {
        Seq::empty()
    } else {
        string_wire(s[0].0) + seq![tag_of(s[0].1)] + body(s[0].1) + enc_props(
            s.subrange(1, s.len() as int),
        )
    }
}

pub proof fn lemma_items_view(s: Seq<JsonValue>)
    ensures
        items_view(s).len() == s.len(),
        forall|i: int| 0 <= i < s.len() ==> #[trigger] items_view(s)[i] == json_view(s[i]),
    decreases s.len(),
{
    if s.len() > 0 {
        lemma_items_view(s.subrange(0, s.len() - 1));
    }
}

pub proof fn lemma_props_view(s: Seq<(String, JsonValue)>)
    ensures
        props_view(s).len() == s.len(),
        forall|i: int|
            0 <= i < s.len() ==> #[trigger] props_view(s)[i] == (s[i].0@, json_view(s[i].1)),
    decreases s.len(),
{
    if s.len() > 0 {
        lemma_props_view(s.subrange(0, s.len() - 1));
    }
}

pub proof fn lemma_enc_list_push(s: Seq<Json>, x: Json)
    ensures
        enc_list(s.push(x)) == enc_list(s) + enc(x),
    decreases s.len(),
{
    if s.len() == 0 {
        assert(s.push(x).subrange(1, 1) =~= Seq::<Json>::empty());
        assert(s.push(x)[0] == x);
        assert(enc_list(s.push(x).subrange(1, 1)) == Seq::<u8>::empty());
        assert(enc_list(s) == Seq::<u8>::empty());
        assert(enc_list(s.push(x)) =~= enc_list(s) + enc(x));
    } else {
        lemma_enc_list_push(s.subrange(1, s.len() as int), x);
        assert(s.push(x).subrange(1, (s.len() + 1) as int) =~= s.subrange(1, s.len() as int).push(x));
        assert(s.push(x)[0] == s[0]);
        assert(enc_list(s.push(x)) =~= enc_list(s) + enc(x));
    }
}

pub proof fn lemma_enc_props_push(s: Seq<(Seq<char>, Json)>, x: (Seq<char>, Json))
    ensures
        enc_props(s.push(x)) == enc_props(s) + string_wire(x.0) + enc(x.1),
    decreases s.len(),
{
    if s.len() == 0 {
        assert(s.push(x).subrange(1, 1) =~= Seq::<(Seq<char>, Json)>::empty());
        assert(s.push(x)[0] == x);
        assert(enc_props(s.push(x).subrange(1, 1)) == Seq::<u8>::empty());
        assert(enc_props(s) == Seq::<u8>::empty());
        assert(enc_props(s.push(x)) =~= enc_props(s) + string_wire(x.0) + enc(x.1));
    } else {
        lemma_enc_props_push(s.subrange(1, s.len() as int), x);
        assert(s.push(x).subrange(1, (s.len() + 1) as int) =~= s.subrange(1, s.len() as int).push(x));
        assert(s.push(x)[0] == s[0]);
        assert(enc_props(s.push(x)) =~= enc_props(s) + string_wire(x.0) + enc(x.1));
    }
}


/// A string on the wire at the start of `s`, and the number of bytes it takes.
pub open spec fn parse_text(s: Seq<u8>) -> Result<(Seq<char>, nat), DecodeError> {
    if s.len() < 8 {
        Err(DecodeError::Truncated)
    } else if s.len() < 8 + u64_of_be(s) {
        Err(DecodeError::Truncated)
    } else if !valid_utf8(s.subrange(8, 8 + u64_of_be(s))) {
        Err(DecodeError::Corrupted)
    } else {
        Ok((decode_utf8(s.subrange(8, 8 + u64_of_be(s))), (8 + u64_of_be(s)) as nat))
    }
}

/// The body of a value of tag `t` at the start of `s`, and the number of bytes
/// it takes.
pub open spec fn parse_body(t: u8, s: Seq<u8>) -> Result<(Json, nat), DecodeError>
    decreases s.len(), 2nat, 0nat,
{
    if t == 0 {
        Ok((Json::Null, 0))
    } else if t == 1 {
        if s.len() < 1 {
            Err(DecodeError::Truncated)
        } else if s[0] == 0 {
            Ok((Json::Bool(false), 1))
        } else if s[0] == 1 {
            Ok((Json::Bool(true), 1))
        } else {
            Err(DecodeError::Corrupted)
        }
    } else if t == 2 {
        if s.len() < 8 {
            Err(DecodeError::Truncated)
        } else {
            Ok((Json::Int64(u64_of_be(s) as i64), 8))
        }
    } else if t == 3 {
        if s.len() < 8 {
            Err(DecodeError::Truncated)
        } else {
            Ok((Json::Float(u64_of_be(s)), 8))
        }
    } else if t == 4 {
        match parse_text(s) {
            Ok((c, n)) => Ok((Json::Text(c), n)),
            Err(e) => Err(e),
        }
    } else if t == 5 {
        if s.len() < 8 {
            Err(DecodeError::Truncated)
        } else {
            match parse_list(s.subrange(8, s.len() as int), u64_of_be(s) as nat) {
                Ok((items, k)) => Ok((Json::Array(items), 8 + k)),
                Err(e) => Err(e),
            }
        }
    } else if t == 6 {
        parse_object(s)
    } else {
        Err(DecodeError::UnknownTag(t))
    }
}

/// An object body (property count, then the properties) at the start of `s`.
pub open spec fn parse_object(s: Seq<u8>) -> Result<(Json, nat), DecodeError>
    decreases s.len(), 1nat, 0nat,
{
    if s.len() < 8 {
        Err(DecodeError::Truncated)
    } else {
        match parse_props(s.subrange(8, s.len() as int), u64_of_be(s) as nat) {
            Ok((props, k)) => Ok((Json::Object(props), 8 + k)),
            Err(e) => Err(e),
        }
    }
}

/// A tagged value at the start of `s`.
pub open spec fn parse_item(s: Seq<u8>) -> Result<(Json, nat), DecodeError>
    decreases s.len(), 0nat, 0nat,
{
    if s.len() < 1 {
        Err(DecodeError::Truncated)
    } else {
        match parse_body(s[0], s.subrange(1, s.len() as int)) {
            Ok((v, k)) => Ok((v, 1 + k)),
            Err(e) => Err(e),
        }
    }
}

/// A property (a name, then a tagged value) at the start of `s`.
pub open spec fn parse_property(s: Seq<u8>) -> Result<((Seq<char>, Json), nat), DecodeError>
    decreases s.len(), 0nat, 0nat,
{
    match parse_text(s) {
        Err(e) => Err(e),
        Ok((name, a)) => if s.len() < a + 1 {
            Err(DecodeError::Truncated)
        } else {
            match parse_body(s[a as int], s.subrange((a + 1) as int, s.len() as int)) {
                Ok((v, k)) => Ok(((name, v), a + 1 + k)),
                Err(e) => Err(e),
            }
        },
    }
}

/// `n` tagged values at the start of `s`.
pub open spec fn parse_list(s: Seq<u8>, n: nat) -> Result<(Seq<Json>, nat), DecodeError>
    decreases s.len(), 0nat, n,
{
    if n == 0 {
        Ok((Seq::empty(), 0))
    } else {
        match parse_item(s) {
            Err(e) => Err(e),
            Ok((v, k)) => if s.len() < k {
                Err(DecodeError::Truncated)
            } else {
                match parse_list(s.subrange(k as int, s.len() as int), (n - 1) as nat) {
                    Ok((vs, m)) => Ok((seq![v] + vs, k + m)),
                    Err(e) => Err(e),
                }
            },
        }
    }
}

/// `n` properties at the start of `s`.
pub open spec fn parse_props(s: Seq<u8>, n: nat) -> Result<
    (Seq<(Seq<char>, Json)>, nat),
    DecodeError,
>
    decreases s.len(), 0nat, n,
{
    if n == 0 {
        Ok((Seq::empty(), 0))
    } else {
        match parse_property(s) {
            Err(e) => Err(e),
            Ok((p, k)) => if s.len() < k {
                Err(DecodeError::Truncated)
            } else {
                match parse_props(s.subrange(k as int, s.len() as int), (n - 1) as nat) {
                    Ok((ps, m)) => Ok((seq![p] + ps, k + m)),
                    Err(e) => Err(e),
                }
            },
        }
    }
}

/// A whole document: the tag of an object, then its body.
pub open spec fn parse_document(s: Seq<u8>) -> Result<(Json, nat), DecodeError> {
    if s.len() < 1 {
        Err(DecodeError::Truncated)
    } else if s[0] > 6 {
        Err(DecodeError::UnknownTag(s[0]))
    } else if s[0] != 6 {
        Err(DecodeError::Corrupted)
    } else {
        match parse_object(s.subrange(1, s.len() as int)) {
            Ok((j, k)) => Ok((j, 1 + k)),
            Err(e) => Err(e),
        }
    }
}

/// `r` is what the parse `p` gives, and `consumed` the number of bytes it took.
pub open spec fn decoded(
    r: Result<JsonValue, DecodeError>,
    p: Result<(Json, nat), DecodeError>,
    consumed: int,
) -> bool {
    match p {
        Ok((j, k)) => r is Ok && r->Ok_0@ == j && consumed == k,
        Err(e) => r == Err::<JsonValue, DecodeError>(e),
    }
}

/// Values already decoded, in front of what is left to parse.
pub open spec fn after<T>(done: Seq<T>, c: nat, r: Result<(Seq<T>, nat), DecodeError>) -> Result<
    (Seq<T>, nat),
    DecodeError,
> {
    match r {
        Ok((vs, m)) => Ok((done + vs, c + m)),
        Err(e) => Err(e),
    }
}

proof fn lemma_after_step<T>(done: Seq<T>, c: nat, v: T, k: nat, r: Result<(Seq<T>, nat), DecodeError>)
    ensures
        after(
            done,
            c,
            match r {
                Ok((vs, m)) => Ok((seq![v] + vs, k + m)),
                Err(e) => Err(e),
            },
        ) == after(done.push(v), c + k, r),
{
    match r {
        Ok((vs, m)) => {
            assert(done + (seq![v] + vs) =~= done.push(v) + vs);
        },
        Err(e) => {},
    }
}



proof fn lemma_list_advance(s0: Seq<u8>, n: nat, done: Seq<Json>, c: nat, s: Seq<u8>, i: nat)
    requires
        i < n,
        parse_list(s0, n) == after(done, c, parse_list(s, (n - i) as nat)),
    ensures
        parse_item(s) is Err ==> parse_list(s0, n) == Err::<(Seq<Json>, nat), DecodeError>(
            parse_item(s)->Err_0,
        ),
        parse_item(s) is Ok && parse_item(s)->Ok_0.1 <= s.len() ==> parse_list(s0, n) == after(
            done.push(parse_item(s)->Ok_0.0),
            c + parse_item(s)->Ok_0.1,
            parse_list(
                s.subrange(parse_item(s)->Ok_0.1 as int, s.len() as int),
                (n - i - 1) as nat,
            ),
        ),
{
    if parse_item(s) is Ok {
        let (v, k) = parse_item(s)->Ok_0;
        if k <= s.len() {
            lemma_after_step(
                done,
                c,
                v,
                k,
                parse_list(s.subrange(k as int, s.len() as int), (n - i - 1) as nat),
            );
        }
    }
}

proof fn lemma_props_advance(
    s0: Seq<u8>,
    n: nat,
    done: Seq<(Seq<char>, Json)>,
    c: nat,
    s: Seq<u8>,
    i: nat,
)
    requires
        i < n,
        parse_props(s0, n) == after(done, c, parse_props(s, (n - i) as nat)),
    ensures
        parse_property(s) is Err ==> parse_props(s0, n) == Err::<
            (Seq<(Seq<char>, Json)>, nat),
            DecodeError,
        >(parse_property(s)->Err_0),
        parse_property(s) is Ok && parse_property(s)->Ok_0.1 <= s.len() ==> parse_props(s0, n)
            == after(
            done.push(parse_property(s)->Ok_0.0),
            c + parse_property(s)->Ok_0.1,
            parse_props(
                s.subrange(parse_property(s)->Ok_0.1 as int, s.len() as int),
                (n - i - 1) as nat,
            ),
        ),
{
    if parse_property(s) is Ok {
        let (p, k) = parse_property(s)->Ok_0;
        if k <= s.len() {
            lemma_after_step(
                done,
                c,
                p,
                k,
                parse_props(s.subrange(k as int, s.len() as int), (n - i - 1) as nat),
            );
        }
    }
}

proof fn lemma_view_push(items: Seq<JsonValue>, v: JsonValue)
    ensures
        items_view(items.push(v)) == items_view(items).push(json_view(v)),
{
    assert(items.push(v).subrange(0, items.len() as int) =~= items);
}

proof fn lemma_props_view_push(props: Seq<(String, JsonValue)>, p: (String, JsonValue))
    ensures
        props_view(props.push(p)) == props_view(props).push((p.0@, json_view(p.1))),
{
    assert(props.push(p).subrange(0, props.len() as int) =~= props);
}

spec fn read_error_spec(e: ReadError) -> DecodeError {
    match e {
        ReadError::UnderRun => DecodeError::Truncated,
        ReadError::Corrupted => DecodeError::Corrupted,
    }
}

fn read_error(e: ReadError) -> (r: DecodeError)
    ensures
        r == read_error_spec(e),
{
    match e {
        ReadError::UnderRun => DecodeError::Truncated,
        ReadError::Corrupted => DecodeError::Corrupted,
    }
}

/// Every length in the value can be written as a `u64` on the wire.
pub open spec fn fits(j: Json) -> bool
    decreases j,
{
    match j {
        Json::Text(t) => encode_utf8(t).len() <= u64::MAX,
        Json::Array(items) => items.len() <= u64::MAX && fits_list(items),
        Json::Object(props) => props.len() <= u64::MAX && fits_props(props),
        _ => true,
    }
}

pub open spec fn fits_list(s: Seq<Json>) -> bool
    decreases s,
{
    s.len() == 0 || (fits(s[0]) && fits_list(s.subrange(1, s.len() as int)))
}

pub open spec fn fits_props(s: Seq<(Seq<char>, Json)>) -> bool
    decreases s,
{
    s.len() == 0 || (encode_utf8(s[0].0).len() <= u64::MAX && fits(s[0].1) && fits_props(
        s.subrange(1, s.len() as int),
    ))
}

proof fn lemma_u64_prefix(v: u64, rest: Seq<u8>)
    ensures
        u64_of_be(u64_be(v) + rest) == v,
        (u64_be(v) + rest).len() == 8 + rest.len(),
        (u64_be(v) + rest).subrange(8, (8 + rest.len()) as int) == rest,
{
    lemma_u64_be(v);
    let x = u64_be(v) + rest;
    assert(forall|i: int| 0 <= i < 8 ==> x[i] == u64_be(v)[i]);
    assert(u64_of_be(x) == u64_of_be(u64_be(v)));
    assert(x.subrange(8, (8 + rest.len()) as int) =~= rest);
}

proof fn lemma_text_round_trip(t: Seq<char>, rest: Seq<u8>)
    requires
        encode_utf8(t).len() <= u64::MAX,
    ensures
        parse_text(string_wire(t) + rest) == Ok::<(Seq<char>, nat), DecodeError>(
            (t, string_wire(t).len()),
        ),
{
    let b = encode_utf8(t);
    let x = string_wire(t) + rest;
    lemma_u64_prefix(b.len() as u64, b + rest);
    assert(x =~= u64_be(b.len() as u64) + (b + rest));
    assert(x.subrange(8, (8 + b.len()) as int) =~= b);
    vstd::utf8::encode_utf8_valid_utf8(t);
}

#[verifier::rlimit(60)]
proof fn lemma_body_round_trip(j: Json, rest: Seq<u8>)
    requires
        fits(j),
    ensures
        parse_body(tag_of(j), body(j) + rest) == Ok::<(Json, nat), DecodeError>((j, body(j).len())),
    decreases j, 0nat,
{
    let x = body(j) + rest;
    match j {
        Json::Null => {},
        Json::Bool(b) => {},
        Json::Int64(n) => {
            lemma_u64_prefix(n as u64, rest);
            assert((n as u64) as i64 == n) by (bit_vector);
        },
        Json::Float(bits) => {
            lemma_u64_prefix(bits, rest);
        },
        Json::Text(t) => {
            lemma_text_round_trip(t, rest);
        },
        Json::Array(items) => {
            lemma_u64_prefix(items.len() as u64, enc_list(items) + rest);
            assert(x =~= u64_be(items.len() as u64) + (enc_list(items) + rest));
            lemma_list_round_trip(items, rest);
        },
        Json::Object(props) => {
            lemma_u64_prefix(props.len() as u64, enc_props(props) + rest);
            assert(x =~= u64_be(props.len() as u64) + (enc_props(props) + rest));
            lemma_props_round_trip(props, rest);
        },
    }
}

proof fn lemma_list_round_trip(s: Seq<Json>, rest: Seq<u8>)
    requires
        fits_list(s),
    ensures
        parse_list(enc_list(s) + rest, s.len()) == Ok::<(Seq<Json>, nat), DecodeError>(
            (s, enc_list(s).len()),
        ),
    decreases s, 0nat,
{
    let x = enc_list(s) + rest;
    if s.len() == 0 {
        assert(x =~= rest);
        assert(s =~= Seq::<Json>::empty());
    } else {
        let head = s[0];
        let tail = s.subrange(1, s.len() as int);
        lemma_body_round_trip(head, enc_list(tail) + rest);
        lemma_list_round_trip(tail, rest);
        assert(x[0] == tag_of(head));
        assert(x.subrange(1, x.len() as int) =~= body(head) + (enc_list(tail) + rest));
        assert(x.subrange((1 + body(head).len()) as int, x.len() as int) =~= enc_list(tail) + rest);
        assert(parse_item(x) == Ok::<(Json, nat), DecodeError>((head, 1 + body(head).len())));
        assert(seq![head] + tail =~= s);
        assert(enc_list(s).len() == 1 + body(head).len() + enc_list(tail).len());
    }
}

proof fn lemma_property_round_trip(name: Seq<char>, v: Json, rest: Seq<u8>)
    requires
        encode_utf8(name).len() <= u64::MAX,
        fits(v),
    ensures
        parse_property(string_wire(name) + seq![tag_of(v)] + body(v) + rest) == Ok::<
            ((Seq<char>, Json), nat),
            DecodeError,
        >(((name, v), string_wire(name).len() + 1 + body(v).len())),
    decreases v, 1nat,
{
    let x = string_wire(name) + seq![tag_of(v)] + body(v) + rest;
    let after_name = seq![tag_of(v)] + body(v) + rest;
    lemma_text_round_trip(name, after_name);
    assert(x =~= string_wire(name) + after_name);
    let a = string_wire(name).len();
    lemma_body_round_trip(v, rest);
    assert(x[a as int] == tag_of(v));
    assert(x.subrange((a + 1) as int, x.len() as int) =~= body(v) + rest);
}

proof fn lemma_props_round_trip(s: Seq<(Seq<char>, Json)>, rest: Seq<u8>)
    requires
        fits_props(s),
    ensures
        parse_props(enc_props(s) + rest, s.len()) == Ok::<
            (Seq<(Seq<char>, Json)>, nat),
            DecodeError,
        >((s, enc_props(s).len())),
    decreases s, 0nat,
{
    let x = enc_props(s) + rest;
    if s.len() == 0 {
        assert(x =~= rest);
        assert(s =~= Seq::<(Seq<char>, Json)>::empty());
    } else {
        let (name, v) = s[0];
        let tail = s.subrange(1, s.len() as int);
        let a = string_wire(name).len();
        lemma_property_round_trip(name, v, enc_props(tail) + rest);
        lemma_props_round_trip(tail, rest);
        assert(x =~= string_wire(name) + seq![tag_of(v)] + body(v) + (enc_props(tail) + rest));
        assert(x.subrange((a + 1 + body(v).len()) as int, x.len() as int) =~= enc_props(tail)
            + rest);
        assert(seq![(name, v)] + tail =~= s);
        assert(enc_props(s).len() == a + 1 + body(v).len() + enc_props(tail).len());
    }
}

/// Decoding what the encoder wrote gives the document back: every value, and
/// the properties of each object in their order. Whatever follows the
/// encoding is left unread.
pub proof fn lemma_decode_encode(j: Json, rest: Seq<u8>)
    requires
        fits(j),
        j is Object,
    ensures
        parse_document(enc(j) + rest) == Ok::<(Json, nat), DecodeError>((j, enc(j).len())),
{
    lemma_body_round_trip(j, rest);
    let x = enc(j) + rest;
    assert(x.subrange(1, x.len() as int) =~= body(j) + rest);
}

impl TypeFlag {
    pub fn to_bin(&self) -> (r: u8)
        ensures
            r == flag_byte(*self),
    {
        match self {
            TypeFlag::Null => 0,
            TypeFlag::Bool => 1,
            TypeFlag::Int64 => 2,
            TypeFlag::Float => 3,
            TypeFlag::Text => 4,
            TypeFlag::Array => 5,
            TypeFlag::Object => 6,
        }
    }

    /// The flag that a tag byte names.
    #[allow(non_snake_case)]
    pub fn From(v: u8) -> (r: Result<TypeFlag, DecodeError>)
        ensures
            r is Ok <==> v <= 6,
            r is Ok ==> flag_byte(r->Ok_0) == v,
            r is Err ==> r->Err_0 == DecodeError::UnknownTag(v),
    {
        match v {
            0 => Ok(TypeFlag::Null),
            1 => Ok(TypeFlag::Bool),
            2 => Ok(TypeFlag::Int64),
            3 => Ok(TypeFlag::Float),
            4 => Ok(TypeFlag::Text),
            5 => Ok(TypeFlag::Array),
            6 => Ok(TypeFlag::Object),
            n => Err(DecodeError::UnknownTag(n)),
        }
    }
}

/// Encodes documents into the tagged wire format, and decodes them back.
pub struct BinarySerializer {
    pub writer: Box<BinaryWriter>,
}

impl BinarySerializer {
    pub fn new() -> (r: BinarySerializer)
        ensures
            (*r.writer)@ == Seq::<u8>::empty(),
    {
        BinarySerializer { writer: Box::new(BinaryWriter::with_capacity(0)) }
    }

    /// Appends the tagged encoding of `json`.
    pub fn serialize_json_value(&mut self, json: &JsonValue)
        ensures
            (*final(self).writer)@ == (*old(self).writer)@ + enc(json@),
        decreases json,
    {
        match json {
            JsonValue::Object(o) => {
                self.writer.write_u8(6);
                self.writer.write_u64(o.len() as u64);
                let ghost start = (*self.writer)@;
                proof {
                    lemma_props_view(o@);
                }
                let mut i: usize = 0;
                while i < o.len()
                    invariant
                        *json == JsonValue::Object(*o),
                        i <= o.len(),
                        props_view(o@).len() == o@.len(),
                        forall|k: int|
                            0 <= k < o@.len() ==> #[trigger] props_view(o@)[k] == (
                                o@[k].0@,
                                json_view(o@[k].1),
                            ),
                        (*self.writer)@ == start + enc_props(props_view(o@).take(i as int)),
                    decreases o.len() - i,
                {
                    self.writer.write_string(o[i].0.as_str());
                    proof {
                        assert(decreases_to!(*json => (*json)->Object_0));
                        assert(decreases_to!(*o => o[i as int]));
                        assert(decreases_to!(o[i as int] => o[i as int].1));
                    }
                    self.serialize_json_value(&o[i].1);
                    proof {
                        lemma_enc_props_push(props_view(o@).take(i as int), props_view(o@)[i as int]);
                        assert(props_view(o@).take(i + 1) =~= props_view(o@).take(i as int).push(
                            props_view(o@)[i as int],
                        ));
                    }
                    i = i + 1;
                }
                assert(props_view(o@).take(i as int) =~= props_view(o@));
                assert((*self.writer)@ =~= (*old(self).writer)@ + enc(json@));
            },
            JsonValue::Null => {
                self.writer.write_u8(0);
                assert((*self.writer)@ =~= (*old(self).writer)@ + enc(json@));
            },
            JsonValue::Bool(b) => {
                self.writer.write_u8(1);
                self.writer.write_bool(*b);
                assert((*self.writer)@ =~= (*old(self).writer)@ + enc(json@));
            },
            JsonValue::Int64(n) => {
                self.writer.write_u8(2);
                self.writer.write_i64(*n);
                assert((*self.writer)@ =~= (*old(self).writer)@ + enc(json@));
            },
            JsonValue::Float(bits) => {
                self.writer.write_u8(3);
                self.writer.write_f64(*bits);
                assert((*self.writer)@ =~= (*old(self).writer)@ + enc(json@));
            },
            JsonValue::Text(s) => {
                self.writer.write_u8(4);
                self.writer.write_string(s.as_str());
                assert((*self.writer)@ =~= (*old(self).writer)@ + enc(json@));
            },
            JsonValue::Array(a) => {
                self.writer.write_u8(5);
                self.writer.write_u64(a.len() as u64);
                let ghost start = (*self.writer)@;
                proof {
                    lemma_items_view(a@);
                }
                let mut i: usize = 0;
                while i < a.len()
                    invariant
                        *json == JsonValue::Array(*a),
                        i <= a.len(),
                        items_view(a@).len() == a@.len(),
                        forall|k: int|
                            0 <= k < a@.len() ==> #[trigger] items_view(a@)[k] == json_view(a@[k]),
                        (*self.writer)@ == start + enc_list(items_view(a@).take(i as int)),
                    decreases a.len() - i,
                {
                    proof {
                        assert(decreases_to!(*json => (*json)->Array_0));
                        assert(decreases_to!(*a => a[i as int]));
                    }
                    self.serialize_json_value(&a[i]);
                    proof {
                        lemma_enc_list_push(items_view(a@).take(i as int), items_view(a@)[i as int]);
                        assert(items_view(a@).take(i + 1) =~= items_view(a@).take(i as int).push(
                            items_view(a@)[i as int],
                        ));
                    }
                    i = i + 1;
                }
                assert(items_view(a@).take(i as int) =~= items_view(a@));
                assert((*self.writer)@ =~= (*old(self).writer)@ + enc(json@));
            },
        }
    }

    /// Reads one tagged value: its tag, then its body.
    fn read_item(reader: &mut BinaryReader) -> (r: Result<JsonValue, DecodeError>)
        requires
            old(reader).position <= old(reader).data().len(),
        ensures
            final(reader).data() == old(reader).data(),
            final(reader).position <= final(reader).data().len(),
            decoded(r, parse_item(old(reader).rest()), final(reader).position - old(reader).position),
        decreases old(reader).data().len() - old(reader).position, 0nat,
    {
        let ghost r0 = *old(reader);
        let flag_data = match reader.read_u8() {
            Ok(b) => b,
            Err(e) => {
                return Err(read_error(e));
            },
        };
        proof {
            lemma_rest_advance(r0, *reader, 1);
        }
        let flag = match TypeFlag::From(flag_data) {
            Ok(f) => f,
            Err(e) => {
                return Err(e);
            },
        };
        BinarySerializer::read_value(flag, reader)
    }

    /// Reads one property: its name, then its tagged value.
    fn read_property(reader: &mut BinaryReader) -> (r: Result<(String, JsonValue), DecodeError>)
        requires
            old(reader).position <= old(reader).data().len(),
        ensures
            final(reader).data() == old(reader).data(),
            final(reader).position <= final(reader).data().len(),
            match parse_property(old(reader).rest()) {
                Ok(((name, j), k)) => r is Ok && r->Ok_0.0@ == name && r->Ok_0.1@ == j
                    && final(reader).position - old(reader).position == k,
                Err(e) => r is Err && r->Err_0 == e,
            },
        decreases old(reader).data().len() - old(reader).position, 0nat,
    {
        let ghost r0 = *old(reader);
        let name = match reader.read_string() {
            Ok(name) => name,
            Err(e) => {
                proof {
                    if r0.has(8) {
                        lemma_ahead_rest(r0, 8);
                    }
                }
                return Err(read_error(e));
            },
        };
        let ghost a = 8 + r0.text_len();
        proof {
            lemma_ahead_rest(r0, 8);
            assert(parse_text(r0.rest()) == Ok::<(Seq<char>, nat), DecodeError>((name@, a)));
            lemma_rest_advance(r0, *reader, a);
        }
        let ghost r1 = *reader;
        let flag_data = match reader.read_u8() {
            Ok(b) => b,
            Err(e) => {
                return Err(read_error(e));
            },
        };
        proof {
            lemma_rest_advance(r1, *reader, 1);
            assert(r0.rest()[a as int] == flag_data);
            assert(reader.rest() =~= r0.rest().subrange((a + 1) as int, r0.rest().len() as int));
        }
        let flag = match TypeFlag::From(flag_data) {
            Ok(f) => f,
            Err(e) => {
                return Err(e);
            },
        };
        let value = match BinarySerializer::read_value(flag, reader) {
            Ok(v) => v,
            Err(e) => {
                return Err(e);
            },
        };
        Ok((name, value))
    }

    /// Reads the properties of an object: their count, then each property.
    pub fn read_json_object_properties(reader: &mut BinaryReader) -> (r: Result<
        JsonValue,
        DecodeError,
    >)
        requires
            old(reader).position <= old(reader).data().len(),
        ensures
            final(reader).data() == old(reader).data(),
            final(reader).position <= final(reader).data().len(),
            decoded(
                r,
                parse_object(old(reader).rest()),
                final(reader).position - old(reader).position,
            ),
        decreases old(reader).data().len() - old(reader).position, 0nat,
    {
        let ghost r0 = *old(reader);
        let property_count = match reader.read_u64() {
            Ok(n) => n,
            Err(e) => {
                return Err(read_error(e));
            },
        };
        proof {
            lemma_rest_advance(r0, *reader, 8);
            lemma_ahead_rest(r0, 8);
        }
        let ghost s0 = reader.rest();
        let ghost entry = reader.position;
        let mut properties: Vec<(String, JsonValue)> = Vec::new();
        let mut i: u64 = 0;
        while i < property_count
            invariant
                r0 == *old(reader),
                reader.data() == r0.data(),
                entry == r0.position + 8,
                entry <= reader.position <= reader.data().len(),
                s0 == r0.rest().subrange(8, r0.rest().len() as int),
                property_count as nat == u64_of_be(r0.rest()),
                reader.rest() == s0.subrange(reader.position - entry, s0.len() as int),
                i <= property_count,
                parse_props(s0, property_count as nat) == after(
                    props_view(properties@),
                    (reader.position - entry) as nat,
                    parse_props(reader.rest(), (property_count - i) as nat),
                ),
            decreases property_count - i,
        {
            let ghost before = *reader;
            proof {
                lemma_props_advance(
                    s0,
                    property_count as nat,
                    props_view(properties@),
                    (reader.position - entry) as nat,
                    reader.rest(),
                    i as nat,
                );
            }
            let property = match BinarySerializer::read_property(reader) {
                Ok(p) => p,
                Err(e) => {
                    return Err(e);
                },
            };
            proof {
                lemma_rest_advance(before, *reader, (reader.position - before.position) as nat);
                assert(reader.rest() =~= s0.subrange(reader.position - entry, s0.len() as int));
                lemma_props_view_push(properties@, property);
            }
            properties.push(property);
            i = i + 1;
        }
        assert(props_view(properties@) + Seq::empty() =~= props_view(properties@));
        Ok(JsonValue::Object(properties))
    }

    /// Reads the body of a value whose tag was `t`.
    pub fn read_value(t: TypeFlag, reader: &mut BinaryReader) -> (r: Result<JsonValue, DecodeError>)
        requires
            old(reader).position <= old(reader).data().len(),
        ensures
            final(reader).data() == old(reader).data(),
            final(reader).position <= final(reader).data().len(),
            decoded(
                r,
                parse_body(flag_byte(t), old(reader).rest()),
                final(reader).position - old(reader).position,
            ),
        decreases old(reader).data().len() - old(reader).position, 1nat,
    {
        let ghost r0 = *old(reader);
        match t {
            TypeFlag::Null => Ok(JsonValue::Null),
            TypeFlag::Bool => {
                match reader.read_bool() {
                    Ok(b) => Ok(JsonValue::Bool(b)),
                    Err(e) => Err(read_error(e)),
                }
            },
            TypeFlag::Text => {
                match reader.read_string() {
                    Ok(s) => {
                        proof {
                            lemma_ahead_rest(r0, 8);
                        }
                        Ok(JsonValue::Text(s))
                    },
                    Err(e) => {
                        proof {
                            if r0.has(8) {
                                lemma_ahead_rest(r0, 8);
                            }
                        }
                        Err(read_error(e))
                    },
                }
            },
            TypeFlag::Int64 => {
                match reader.read_i64() {
                    Ok(v) => {
                        proof {
                            lemma_ahead_rest(r0, 8);
                        }
                        Ok(JsonValue::Int64(v))
                    },
                    Err(e) => Err(read_error(e)),
                }
            },
            TypeFlag::Float => {
                match reader.read_f64() {
                    Ok(v) => {
                        proof {
                            lemma_ahead_rest(r0, 8);
                        }
                        Ok(JsonValue::Float(v))
                    },
                    Err(e) => Err(read_error(e)),
                }
            },
            TypeFlag::Array => {
                let count = match reader.read_u64() {
                    Ok(n) => n,
                    Err(e) => {
                        return Err(read_error(e));
                    },
                };
                proof {
                    lemma_rest_advance(r0, *reader, 8);
                    lemma_ahead_rest(r0, 8);
                }
                let ghost s0 = reader.rest();
                let ghost entry = reader.position;
                let mut items: Vec<JsonValue> = Vec::new();
                let mut i: u64 = 0;
                while i < count
                    invariant
                        t == TypeFlag::Array,
                        r0 == *old(reader),
                        reader.data() == r0.data(),
                        entry == r0.position + 8,
                        entry <= reader.position <= reader.data().len(),
                        r0.rest().len() >= 8,
                        s0 == r0.rest().subrange(8, r0.rest().len() as int),
                        count as nat == u64_of_be(r0.rest()),
                        reader.rest() == s0.subrange(reader.position - entry, s0.len() as int),
                        i <= count,
                        parse_list(s0, count as nat) == after(
                            items_view(items@),
                            (reader.position - entry) as nat,
                            parse_list(reader.rest(), (count - i) as nat),
                        ),
                    decreases count - i,
                {
                    let ghost before = *reader;
                    proof {
                        lemma_list_advance(
                            s0,
                            count as nat,
                            items_view(items@),
                            (reader.position - entry) as nat,
                            reader.rest(),
                            i as nat,
                        );
                    }
                    let value = match BinarySerializer::read_item(reader) {
                        Ok(v) => v,
                        Err(e) => {
                            return Err(e);
                        },
                    };
                    proof {
                        lemma_rest_advance(before, *reader, (reader.position - before.position) as nat);
                        assert(reader.rest() =~= s0.subrange(
                            reader.position - entry,
                            s0.len() as int,
                        ));
                        lemma_view_push(items@, value);
                    }
                    items.push(value);
                    i = i + 1;
                }
                assert(items_view(items@) + Seq::empty() =~= items_view(items@));
                Ok(JsonValue::Array(items))
            },
            TypeFlag::Object => BinarySerializer::read_json_object_properties(reader),
        }
    }

    /// Reads a document: the tag of an object, then its properties.
    pub fn read_json_object(reader: &mut BinaryReader) -> (r: Result<JsonValue, DecodeError>)
        requires
            old(reader).position <= old(reader).data().len(),
        ensures
            final(reader).data() == old(reader).data(),
            final(reader).position <= final(reader).data().len(),
            decoded(
                r,
                parse_document(old(reader).rest()),
                final(reader).position - old(reader).position,
            ),
    {
        let ghost r0 = *old(reader);
        let flag_data = match reader.read_u8() {
            Ok(b) => b,
            Err(e) => {
                return Err(read_error(e));
            },
        };
        proof {
            lemma_rest_advance(r0, *reader, 1);
        }
        let flag = match TypeFlag::From(flag_data) {
            Ok(f) => f,
            Err(e) => {
                return Err(e);
            },
        };
        match flag {
            TypeFlag::Object => BinarySerializer::read_json_object_properties(reader),
            _ => Err(DecodeError::Corrupted),
        }
    }

    /// Decodes a document from its tagged encoding.
    pub fn deserialize_json(src: &[u8]) -> (r: Result<JsonValue, DecodeError>)
        ensures
            match parse_document(src@) {
                Ok((j, _)) => r is Ok && r->Ok_0@ == j,
                Err(e) => r == Err::<JsonValue, DecodeError>(e),
            },
    {
        let mut reader = BinaryReader::from(buffer_from_slice(src));
        assert(reader.rest() =~= src@);
        BinarySerializer::read_json_object(&mut reader)
    }
}

} // verus!
