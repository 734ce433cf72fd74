//! Reading documents: the `id` of a document, and the values found along a
//! dotted property path.
use vstd::prelude::*;
use vstd::string::StrSliceExecFns;
use crate::binary_serializer::{
    items_view, json_view, lemma_items_view, lemma_props_view, props_view, Json, JsonValue,
};
use crate::text::{decimal, i64_to_string};

verus! {

/// The value of the first property named `key`, if any.
pub open spec fn lookup(props: Seq<(Seq<char>, Json)>, key: Seq<char>) -> Option<Json>
    decreases props.len(),
{
    if props.len() == 0 {
        None
    } else if props[0].0 == key {
        Some(props[0].1)
    } else {
        lookup(props.subrange(1, props.len() as int), key)
    }
}

/// The text that names a document: its top-level `id`, when that is a string
/// or an integer.
pub open spec fn document_id(j: Json) -> Option<Seq<char>> {
    match j {
        Json::Object(props) => match lookup(props, seq!['i', 'd']) {
            Some(Json::Text(t)) => Some(t),
            Some(Json::Int64(n)) => Some(decimal(n as int)),
            _ => None,
        },
        _ => None,
    }
}

/// What one step of a path yields from a value: an array yields what each of
/// its items yields; an object yields the value of the property (nothing
/// when it is missing or null); any other value yields nothing.
pub open spec fn step_value(j: Json, part: Seq<char>) -> Seq<Json>
    decreases j,
{
    match j {
        Json::Array(items) => step_list(items, part),
        Json::Object(props) => match lookup(props, part) {
            Some(Json::Null) => Seq::empty(),
            Some(c) => seq![c],
            None => Seq::empty(),
        },
        _ => Seq::empty(),
    }
}

/// What one step of a path yields from each value in turn, flattened.
pub open spec fn step_list(s: Seq<Json>, part: Seq<char>) -> Seq<Json>
    decreases s,
{
    if s.len() == 0 {
        Seq::empty()
    } else {
        step_value(s[0], part) + step_list(s.subrange(1, s.len() as int), part)
    }
}

/// The values reached from `level` by following `parts` in order.
pub open spec fn walk(level: Seq<Json>, parts: Seq<Seq<char>>) -> Seq<Json>
    decreases parts.len(),
{
    if parts.len() == 0 {
        level
    } else {
        walk(step_list(level, parts[0]), parts.subrange(1, parts.len() as int))
    }
}

/// The pieces of `s` between dots, in order (one empty piece for an empty
/// string).
pub open spec fn segments(s: Seq<char>) -> Seq<Seq<char>>
    decreases s.len(),
{
    if s.len() == 0 {
        seq![Seq::empty()]
    } else if s.last() == '.' {
        segments(s.drop_last()).push(Seq::empty())
    } else {
        let prev = segments(s.drop_last());
        prev.update(prev.len() - 1, prev.last().push(s.last()))
    }
}

proof fn lemma_step_list_push(s: Seq<Json>, x: Json, part: Seq<char>)
    ensures
        step_list(s.push(x), part) == step_list(s, part) + step_value(x, part),
    decreases s.len(),
{
    if s.len() == 0 {
        assert(s.push(x).subrange(1, 1) =~= Seq::<Json>::empty());
        assert(s.push(x)[0] == x);
        assert(step_list(s.push(x).subrange(1, 1), part) == Seq::<Json>::empty());
        assert(step_list(s, part) == Seq::<Json>::empty());
        assert(step_list(s.push(x), part) =~= step_list(s, part) + step_value(x, part));
    } else {
        lemma_step_list_push(s.subrange(1, s.len() as int), x, part);
        assert(s.push(x).subrange(1, (s.len() + 1) as int) =~= s.subrange(1, s.len() as int).push(
            x,
        ));
        assert(s.push(x)[0] == s[0]);
        assert(step_list(s.push(x), part) =~= step_list(s, part) + step_value(x, part));
    }
}

proof fn lemma_view_push(items: Seq<JsonValue>, v: JsonValue)
    ensures
        items_view(items.push(v)) == items_view(items).push(json_view(v)),
{
    assert(items.push(v).subrange(0, items.len() as int) =~= items);
}

/// A copy of a value, down to its leaves.
pub fn copy_value(v: &JsonValue) -> (r: JsonValue)
    ensures
        r@ == v@,
    decreases v,
{
    match v {
        JsonValue::Null => JsonValue::Null,
        JsonValue::Bool(b) => JsonValue::Bool(*b),
        JsonValue::Int64(n) => JsonValue::Int64(*n),
        JsonValue::Float(bits) => JsonValue::Float(*bits),
        JsonValue::Text(s) => JsonValue::Text(s.clone()),
        JsonValue::Array(a) => {
            let mut items: Vec<JsonValue> = Vec::with_capacity(a.len());
            let mut i: usize = 0;
            proof {
                lemma_items_view(a@);
            }
            while i < a.len()
                invariant
                    *v == JsonValue::Array(*a),
                    i <= a.len(),
                    items_view(a@).len() == a@.len(),
                    forall|k: int| 0 <= k < a@.len() ==> #[trigger] items_view(a@)[k] == json_view(a@[k]),
                    items_view(items@) == items_view(a@).take(i as int),
                decreases a.len() - i,
            {
                proof {
                    assert(decreases_to!(*v => (*v)->Array_0));
                    assert(decreases_to!(*a => a[i as int]));
                }
                let c = copy_value(&a[i]);
                proof {
                    lemma_view_push(items@, c);
                    assert(items_view(a@).take(i + 1) =~= items_view(a@).take(i as int).push(
                        json_view(a@[i as int]),
                    ));
                }
                items.push(c);
                i = i + 1;
            }
            assert(items_view(a@).take(i as int) =~= items_view(a@));
            JsonValue::Array(items)
        },
        JsonValue::Object(o) => {
            let mut props: Vec<(String, JsonValue)> = Vec::with_capacity(o.len());
            let mut i: usize = 0;
            proof {
                lemma_props_view(o@);
            }
            while i < o.len()
                invariant
                    *v == JsonValue::Object(*o),
                    i <= o.len(),
                    props_view(o@).len() == o@.len(),
                    forall|k: int|
                        0 <= k < o@.len() ==> #[trigger] props_view(o@)[k] == (
                            o@[k].0@,
                            json_view(o@[k].1),
                        ),
                    props_view(props@) == props_view(o@).take(i as int),
                decreases o.len() - i,
            {
                proof {
                    assert(decreases_to!(*v => (*v)->Object_0));
                    assert(decreases_to!(*o => o[i as int]));
                    assert(decreases_to!(o[i as int] => o[i as int].1));
                }
                let c = copy_value(&o[i].1);
                let name = o[i].0.clone();
                proof {
                    let p = (name, c);
                    assert(props@.push(p).subrange(0, props@.len() as int) =~= props@);
                    assert(props_view(o@).take(i + 1) =~= props_view(o@).take(i as int).push(
                        props_view(o@)[i as int],
                    ));
                }
                props.push((name, c));
                i = i + 1;
            }
            assert(props_view(o@).take(i as int) =~= props_view(o@));
            JsonValue::Object(props)
        },
    }
}

/// The value of the first property named `key`.
fn find_property<'a>(props: &'a Vec<(String, JsonValue)>, key: &String) -> (r: Option<
    &'a JsonValue,
>)
    ensures
        match lookup(props_view(props@), key@) {
            Some(j) => r is Some && r->0@ == j,
            None => r is None,
        },
{
    proof {
        lemma_props_view(props@);
        assert(props_view(props@).subrange(0, props@.len() as int) =~= props_view(props@));
    }
    let mut i: usize = 0;
    while i < props.len()
        invariant
            i <= props.len(),
            props_view(props@).len() == props@.len(),
            forall|k: int|
                0 <= k < props@.len() ==> #[trigger] props_view(props@)[k] == (
                    props@[k].0@,
                    json_view(props@[k].1),
                ),
            lookup(props_view(props@), key@) == lookup(
                props_view(props@).subrange(i as int, props@.len() as int),
                key@,
            ),
        decreases props.len() - i,
    {
        let ghost rest = props_view(props@).subrange(i as int, props@.len() as int);
        assert(rest[0] == props_view(props@)[i as int]);
        if props[i].0 == *key {
            return Some(&props[i].1);
        }
        assert(rest.subrange(1, rest.len() as int) =~= props_view(props@).subrange(
            i + 1,
            props@.len() as int,
        ));
        i = i + 1;
    }
    None
}

/// The text that names a document: its top-level `id` when that is a string,
/// or an integer rendered in decimal; `None` for any other document.
pub fn find_id_of_document(v: &JsonValue) -> (r: Option<String>)
    ensures
        match document_id(v@) {
            Some(t) => r is Some && r->0@ == t,
            None => r is None,
        },
{
    match v {
        JsonValue::Object(props) => {
            let key = String::from_str("id");
            proof {
                reveal_strlit("id");
                assert(key@ =~= seq!['i', 'd']);
            }
            match find_property(props, &key) {
                Some(JsonValue::Text(id)) => Some(id.clone()),
                Some(JsonValue::Int64(n)) => Some(i64_to_string(*n)),
                _ => None,
            }
        },
        _ => None,
    }
}

pub open spec fn strings_view(s: Seq<String>) -> Seq<Seq<char>> {
    s.map_values(|x: String| x@)
}

/// The values that `path`, read as dot-separated property names, reaches
/// from `j`.
pub open spec fn property_values(j: Json, path: Seq<char>) -> Seq<Json> {
    walk(seq![j], segments(path))
}

/// The pieces of `path` between dots.
fn split_path(path: &str) -> (r: Vec<String>)
    ensures
        strings_view(r@) == segments(path@),
{
    let n = path.unicode_len();
    let mut parts: Vec<String> = Vec::new();
    let mut start: usize = 0;
    let mut i: usize = 0;
    assert(path@.take(0) =~= Seq::<char>::empty());
    assert(strings_view(parts@).push(path@.subrange(0, 0)) =~= seq![Seq::<char>::empty()]);
    while i < n
        invariant
            n == path@.len(),
            start <= i <= n,
            segments(path@.take(i as int)) == strings_view(parts@).push(
                path@.subrange(start as int, i as int),
            ),
        decreases n - i,
    {
        let c = path.get_char(i);
        assert(path@.take(i + 1).drop_last() =~= path@.take(i as int));
        assert(path@.take(i + 1).last() == c);
        if c == '.' {
            let piece = path.substring_char(start, i).to_owned();
            proof {
                assert(strings_view(parts@.push(piece)) =~= strings_view(parts@).push(piece@));
                assert(path@.subrange((i + 1) as int, (i + 1) as int) =~= Seq::<char>::empty());
            }
            parts.push(piece);
            start = i + 1;
        } else {
            proof {
                assert(path@.subrange(start as int, i + 1) =~= path@.subrange(
                    start as int,
                    i as int,
                ).push(c));
                let prev = strings_view(parts@).push(path@.subrange(start as int, i as int));
                assert(prev.update(prev.len() - 1, prev.last().push(c)) =~= strings_view(
                    parts@,
                ).push(path@.subrange(start as int, i + 1)));
            }
        }
        i = i + 1;
    }
    let piece = path.substring_char(start, n).to_owned();
    proof {
        assert(path@.take(n as int) =~= path@);
        assert(strings_view(parts@.push(piece)) =~= strings_view(parts@).push(piece@));
    }
    parts.push(piece);
    parts
}

/// Appends what one step of a path yields from `v`.
fn step_value_into(v: &JsonValue, part: &String, out: &mut Vec<JsonValue>)
    ensures
        items_view(final(out)@) == items_view(old(out)@) + step_value(v@, part@),
    decreases v,
{
    match v {
        JsonValue::Array(a) => {
            proof {
                lemma_items_view(a@);
            }
            let ghost start = items_view(out@);
            let mut i: usize = 0;
            assert(step_list(items_view(a@).take(0), part@) =~= Seq::<Json>::empty());
            assert(start + Seq::<Json>::empty() =~= start);
            while i < a.len()
                invariant
                    *v == JsonValue::Array(*a),
                    i <= a.len(),
                    items_view(a@).len() == a@.len(),
                    forall|k: int| 0 <= k < a@.len() ==> #[trigger] items_view(a@)[k] == json_view(a@[k]),
                    items_view(out@) == start + step_list(items_view(a@).take(i as int), part@),
                decreases a.len() - i,
            {
                proof {
                    assert(decreases_to!(*v => (*v)->Array_0));
                    assert(decreases_to!(*a => a[i as int]));
                }
                step_value_into(&a[i], part, out);
                proof {
                    lemma_step_list_push(
                        items_view(a@).take(i as int),
                        items_view(a@)[i as int],
                        part@,
                    );
                    assert(items_view(a@).take(i + 1) =~= items_view(a@).take(i as int).push(
                        items_view(a@)[i as int],
                    ));
                }
                i = i + 1;
            }
            assert(items_view(a@).take(i as int) =~= items_view(a@));
        },
        JsonValue::Object(props) => {
            match find_property(props, part) {
                Some(JsonValue::Null) => {
                    assert(items_view(out@) + Seq::<Json>::empty() =~= items_view(out@));
                },
                Some(c) => {
                    let copy = copy_value(c);
                    proof {
                        lemma_view_push(out@, copy);
                    }
                    out.push(copy);
                },
                None => {
                    assert(items_view(out@) + Seq::<Json>::empty() =~= items_view(out@));
                },
            }
        },
        _ => {
            assert(items_view(out@) + Seq::<Json>::empty() =~= items_view(out@));
        },
    }
}

/// The values that `path` reaches from `v`: the path is split at dots, and
/// each piece in turn is looked up in every value reached so far, arrays
/// being walked through item by item. The result is flat and in document
/// order.
pub fn get_property_value(v: JsonValue, path: String) -> (r: Vec<JsonValue>)
    ensures
        items_view(r@) == property_values(v@, path@),
{
    let parts = split_path(path.as_str());
    let mut level: Vec<JsonValue> = Vec::new();
    proof {
        lemma_view_push(level@, v);
        assert(items_view(Seq::<JsonValue>::empty()) =~= Seq::<Json>::empty());
    }
    level.push(v);
    let mut i: usize = 0;
    let ghost segs = segments(path@);
    assert(segs.subrange(0, segs.len() as int) =~= segs);
    assert(seq![json_view(v)] =~= Seq::<Json>::empty().push(json_view(v)));
    while i < parts.len()
        invariant
            strings_view(parts@) == segs,
            i <= parts.len(),
            walk(seq![json_view(v)], segs) == walk(
                items_view(level@),
                segs.subrange(i as int, segs.len() as int),
            ),
        decreases parts.len() - i,
    {
        let mut next: Vec<JsonValue> = Vec::new();
        let mut j: usize = 0;
        proof {
            lemma_items_view(level@);
            assert(step_list(items_view(level@).take(0), segs[i as int]) =~= Seq::<Json>::empty());
            assert(items_view(next@) =~= Seq::<Json>::empty());
        }
        while j < level.len()
            invariant
                strings_view(parts@) == segs,
                i < parts.len(),
                j <= level.len(),
                items_view(level@).len() == level@.len(),
                forall|k: int| 0 <= k < level@.len() ==> #[trigger] items_view(level@)[k] == json_view(level@[k]),
                items_view(next@) == step_list(items_view(level@).take(j as int), segs[i as int]),
            decreases level.len() - j,
        {
            assert(parts@[i as int]@ == segs[i as int]);
            step_value_into(&level[j], &parts[i], &mut next);
            proof {
                lemma_step_list_push(
                    items_view(level@).take(j as int),
                    items_view(level@)[j as int],
                    segs[i as int],
                );
                assert(items_view(level@).take(j + 1) =~= items_view(level@).take(j as int).push(
                    items_view(level@)[j as int],
                ));
            }
            j = j + 1;
        }
        proof {
            assert(items_view(level@).take(j as int) =~= items_view(level@));
            let rest = segs.subrange(i as int, segs.len() as int);
            assert(rest[0] == segs[i as int]);
            assert(rest.subrange(1, rest.len() as int) =~= segs.subrange(i + 1, segs.len() as int));
        }
        level = next;
        i = i + 1;
    }
    assert(segs.subrange(i as int, segs.len() as int) =~= Seq::<Seq<char>>::empty());
    level
}

} // verus!
