//! The data that queries run over: a JSON document.

use vstd::prelude::*;

verus! {

/// A JSON value. Numbers are kept as the text that writes them, object
/// members in the order in which they are given. An object may hold a key
/// more than once; a name then selects the first member with that key.
/// (Values converted from `serde_json`, whose maps hold each key once, never
/// do.)
#[derive(Debug, PartialEq)]
pub enum JsonValue {
    Null,
    Bool(bool),
    Number(String),
    String(String),
    Array(Vec<JsonValue>),
    Object(Vec<(String, JsonValue)>),
}

/// The mathematical value of a [`JsonValue`].
pub enum Json {
    Null,
    Bool(bool),
    Number(Seq<char>),
    Str(Seq<char>),
    Array(Seq<Json>),
    Object(Seq<(Seq<char>, Json)>),
}

/// The value of a JSON value, nested values included.
pub open spec fn json_view(v: JsonValue) -> Json
    decreases v,
{
    match v {
        JsonValue::Null => Json::Null,
        JsonValue::Bool(b) => Json::Bool(b),
        JsonValue::Number(n) => Json::Number(n@),
        JsonValue::String(s) => Json::Str(s@),
        JsonValue::Array(a) => Json::Array(
            Seq::new(
                a@.len(),
                |i: int|
                    if 0 <= i < a@.len() {
                        json_view(a@[i])
                    } else {
                        Json::Null
                    },
            ),
        ),
        JsonValue::Object(m) => Json::Object(
            Seq::new(
                m@.len(),
                |i: int|
                    if 0 <= i < m@.len() {
                        (m@[i].0@, json_view(m@[i].1))
                    } else {
                        (Seq::empty(), Json::Null)
                    },
            ),
        ),
    }
}

impl View for JsonValue {
    type V = Json;

    open spec fn view(&self) -> Json {
        json_view(*self)
    }
}

/// The values of a sequence of JSON values.
pub open spec fn values_view(v: Seq<JsonValue>) -> Seq<Json> {
    v.map_values(|x: JsonValue| x@)
}

/// The values of the members of an object.
pub open spec fn entries_view(m: Seq<(String, JsonValue)>) -> Seq<(Seq<char>, Json)> {
    m.map_values(|e: (String, JsonValue)| (e.0@, e.1@))
}

/// The value of an array is the sequence of the values of its elements.
pub proof fn lemma_array_view(a: Vec<JsonValue>)
    ensures
        JsonValue::Array(a)@ == Json::Array(values_view(a@)),
{
    let s = JsonValue::Array(a)@->Array_0;
    assert(s.len() == a@.len());
    assert forall|i: int| 0 <= i < s.len() implies s[i] == values_view(a@)[i] by {}
    assert(s =~= values_view(a@));
}

/// The value of an object is the sequence of its members' keys and values.
pub proof fn lemma_object_view(m: Vec<(String, JsonValue)>)
    ensures
        JsonValue::Object(m)@ == Json::Object(entries_view(m@)),
{
    let s = JsonValue::Object(m)@->Object_0;
    assert(s.len() == m@.len());
    assert forall|i: int| 0 <= i < s.len() implies s[i] == entries_view(m@)[i] by {}
    assert(s =~= entries_view(m@));
}

/// A copy of `v`.
pub fn copy_value(v: &JsonValue) -> (r: JsonValue)
    ensures
        r@ == v@,
    decreases v,
{
    match v {
        JsonValue::Null => JsonValue::Null,
        JsonValue::Bool(b) => JsonValue::Bool(*b),
        JsonValue::Number(n) => JsonValue::Number(n.clone()),
        JsonValue::String(s) => JsonValue::String(s.clone()),
        JsonValue::Array(a) => {
            let mut out: Vec<JsonValue> = Vec::new();
            let mut i: usize = 0;
            while i < a.len()
                invariant
                    *v == JsonValue::Array(*a),
                    i <= a.len(),
                    out@.len() == i,
                    forall|k: int| 0 <= k < i ==> (#[trigger] out@[k])@ == a@[k]@,
                decreases a.len() - i,
            {
                proof {
                    assert(decreases_to!(*v => v->Array_0));
                    assert(decreases_to!(*a => a@));
                    assert(decreases_to!(a@ => a@[i as int]));
                    assert(decreases_to!(*v => a@[i as int]));
                }
                out.push(copy_value(&a[i]));
                i = i + 1;
            }
            proof {
                lemma_array_view(out);
                lemma_array_view(*a);
                assert(values_view(out@) =~= values_view(a@));
            }
            JsonValue::Array(out)
        },
        JsonValue::Object(m) => {
            let mut out: Vec<(String, JsonValue)> = Vec::new();
            let mut i: usize = 0;
            while i < m.len()
                invariant
                    *v == JsonValue::Object(*m),
                    i <= m.len(),
                    out@.len() == i,
                    forall|k: int| 0 <= k < i ==> (#[trigger] out@[k]).0@ == m@[k].0@ && out@[k].1@ == m@[k].1@,
                decreases m.len() - i,
            {
                proof {
                    assert(decreases_to!(*v => v->Object_0));
                    assert(decreases_to!(*m => m@));
                    assert(decreases_to!(m@ => m@[i as int]));
                    assert(decreases_to!(m@[i as int] => m@[i as int].1));
                    assert(decreases_to!(*v => m@[i as int].1));
                }
                let key = m[i].0.clone();
                let val = copy_value(&m[i].1);
                out.push((key, val));
                i = i + 1;
            }
            proof {
                lemma_object_view(out);
                lemma_object_view(*m);
                assert(entries_view(out@) =~= entries_view(m@));
            }
            JsonValue::Object(out)
        },
    }
}

} // verus!
