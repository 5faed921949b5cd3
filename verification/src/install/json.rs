//! A JSON document as the installers edit it, and its mathematical view.
//!
//! Numbers are kept as their text; objects as their `(key, value)`
//! entries in order, each key at most once.

use vstd::prelude::*;
use crate::text::{chars_vec, contains_sub, find_first, str_eq};

verus! {

broadcast use vstd::string::group_string_axioms;

/// A JSON value.
#[derive(Debug)]
pub enum Json {
    Null,
    Bool(bool),
    Number(String),
    Str(String),
    Array(Vec<Json>),
    Object(Vec<(String, Json)>),
}

/// The mathematical view of a JSON value.
#[verifier::ext_equal]
pub enum JsonV {
    Null,
    Bool(bool),
    Number(Seq<char>),
    Str(Seq<char>),
    Array(Seq<JsonV>),
    Object(Seq<(Seq<char>, JsonV)>),
}

pub open spec fn jv(j: Json) -> JsonV
    decreases j,
{
    match j {
        Json::Null => JsonV::Null,
        Json::Bool(b) => JsonV::Bool(b),
        Json::Number(n) => JsonV::Number(n@),
        Json::Str(s) => JsonV::Str(s@),
        Json::Array(v) => JsonV::Array(
            Seq::new(
                v@.len(),
                |i: int|
                    if 0 <= i < v@.len() {
                        jv(v@[i])
                    } else {
                        JsonV::Null
                    },
            ),
        ),
        Json::Object(fs) => JsonV::Object(
            Seq::new(
                fs@.len(),
                |i: int|
                    if 0 <= i < fs@.len() {
                        (fs@[i].0@, jv(fs@[i].1))
                    } else {
                        (Seq::empty(), JsonV::Null)
                    },
            ),
        ),
    }
}

pub open spec fn items_view(v: Seq<Json>) -> Seq<JsonV> {
    Seq::new(v.len(), |i: int| jv(v[i]))
}

pub open spec fn fields_view(fs: Seq<(String, Json)>) -> Seq<(Seq<char>, JsonV)> {
    Seq::new(fs.len(), |i: int| (fs[i].0@, jv(fs[i].1)))
}

pub proof fn lemma_jv_array(v: Vec<Json>)
    ensures
        jv(Json::Array(v)) == JsonV::Array(items_view(v@)),
{
    let a = jv(Json::Array(v));
    assert(a is Array);
    assert(a->Array_0 =~= items_view(v@));
    assert(a == JsonV::Array(a->Array_0));
}

pub proof fn lemma_jv_object(fs: Vec<(String, Json)>)
    ensures
        jv(Json::Object(fs)) == JsonV::Object(fields_view(fs@)),
{
    let a = jv(Json::Object(fs));
    assert(a is Object);
    assert(a->Object_0 =~= fields_view(fs@));
    assert(a == JsonV::Object(a->Object_0));
}

/// Position of the first entry with key `k`.
pub open spec fn field_index(fs: Seq<(Seq<char>, JsonV)>, k: Seq<char>) -> Option<int>
    decreases fs.len(),
{
    if fs.len() == 0 {
        None
    } else {
        match field_index(fs.drop_last(), k) {
            Some(i) => Some(i),
            None => if fs.last().0 == k {
                Some(fs.len() - 1)
            } else {
                None
            },
        }
    }
}

pub proof fn lemma_field_index(fs: Seq<(Seq<char>, JsonV)>, k: Seq<char>)
    ensures
        field_index(fs, k) matches Some(i) ==> 0 <= i < fs.len() && fs[i].0 == k && forall|j: int|
            0 <= j < i ==> fs[j].0 != k,
        field_index(fs, k) is None ==> forall|j: int| 0 <= j < fs.len() ==> fs[j].0 != k,
    decreases fs.len(),
{
    if fs.len() > 0 {
        let d = fs.drop_last();
        lemma_field_index(d, k);
        assert forall|j: int| 0 <= j < d.len() implies d[j] == fs[j] by {}
    }
}

pub proof fn lemma_field_index_at(fs: Seq<(Seq<char>, JsonV)>, k: Seq<char>, i: int)
    requires
        0 <= i <= fs.len(),
        i < fs.len() ==> fs[i].0 == k,
        forall|j: int| 0 <= j < i ==> fs[j].0 != k,
    ensures
        field_index(fs, k) == if i < fs.len() { Some(i) } else { None::<int> },
    decreases fs.len(),
{
    if fs.len() > 0 {
        if i < fs.len() - 1 {
            lemma_field_index_at(fs.drop_last(), k, i);
        } else if i == fs.len() - 1 {
            lemma_field_index_at(fs.drop_last(), k, i);
        } else {
            lemma_field_index_at(fs.drop_last(), k, i - 1);
        }
    }
}

/// The value of key `k` among `fs`, if any.
pub open spec fn field(fs: Seq<(Seq<char>, JsonV)>, k: Seq<char>) -> Option<JsonV> {
    match field_index(fs, k) {
        Some(i) => Some(fs[i].1),
        None => None,
    }
}

/// `fs` with the value of `k` replaced by `v`, or `(k, v)` appended.
pub open spec fn set_field(fs: Seq<(Seq<char>, JsonV)>, k: Seq<char>, v: JsonV) -> Seq<(Seq<char>, JsonV)> {
    match field_index(fs, k) {
        Some(i) => fs.update(i, (k, v)),
        None => fs.push((k, v)),
    }
}

/// `fs` without the entry of `k`.
pub open spec fn remove_field(fs: Seq<(Seq<char>, JsonV)>, k: Seq<char>) -> Seq<(Seq<char>, JsonV)> {
    match field_index(fs, k) {
        Some(i) => fs.remove(i),
        None => fs,
    }
}

/// `j[k]` when `j` is an object holding `k` (`Value::get`).
pub open spec fn get(j: JsonV, k: Seq<char>) -> Option<JsonV> {
    match j {
        JsonV::Object(fs) => field(fs, k),
        _ => None,
    }
}

/// Whether `j` is a string containing `needle`.
pub open spec fn str_contains(j: Option<JsonV>, needle: Seq<char>) -> bool {
    match j {
        Some(JsonV::Str(s)) => contains_sub(s, needle),
        _ => false,
    }
}

/// Position of key `k` in `fs`.
pub fn find_field(fs: &Vec<(String, Json)>, k: &str) -> (r: Option<usize>)
    ensures
        match r {
            Some(i) => field_index(fields_view(fs@), k@) == Some(i as int),
            None => field_index(fields_view(fs@), k@) is None,
        },
{
    let ghost fv = fields_view(fs@);
    let mut i: usize = 0;
    while i < fs.len()
        invariant
            i <= fs@.len(),
            fv == fields_view(fs@),
            forall|j: int| 0 <= j < i ==> fv[j].0 != k@,
        decreases fs@.len() - i,
    {
        if str_eq(fs[i].0.as_str(), k) {
            proof {
                lemma_field_index_at(fv, k@, i as int);
            }
            return Some(i);
        }
        i += 1;
    }
    proof {
        lemma_field_index_at(fv, k@, fv.len() as int);
    }
    None
}

/// Whether `j` is a string holding `needle`.
pub fn json_str_contains(j: Option<&Json>, needle: &str) -> (r: bool)
    ensures
        r == str_contains(
            match j {
                Some(v) => Some(jv(*v)),
                None => None,
            },
            needle@,
        ),
{
    match j {
        Some(Json::Str(s)) => {
            let sv = chars_vec(s.as_str());
            let nv = chars_vec(needle);
            match find_first(&sv, &nv) {
                Some(i) => {
                    assert(crate::text::occurs_at(sv@, nv@, i as int));
                    true
                },
                None => {
                    proof {
                        crate::text::lemma_no_first_match(sv@, nv@);
                    }
                    false
                },
            }
        },
        _ => false,
    }
}

/// The value of key `k` of object `j`, if any (`Value::get`).
pub fn json_get<'a>(j: &'a Json, k: &str) -> (r: Option<&'a Json>)
    ensures
        match r {
            Some(v) => get(jv(*j), k@) == Some(jv(*v)),
            None => get(jv(*j), k@) is None,
        },
{
    match j {
        Json::Object(fs) => {
            proof {
                lemma_jv_object(*fs);
                lemma_field_index(fields_view(fs@), k@);
            }
            match find_field(fs, k) {
                Some(i) => Some(&fs[i].1),
                None => None,
            }
        },
        _ => None,
    }
}

/// A string value.
pub fn json_str(s: &str) -> (r: Json)
    ensures
        jv(r) == JsonV::Str(s@),
{
    Json::Str(String::from_str(s))
}

/// An array of the given items.
pub fn json_array(items: Vec<Json>) -> (r: Json)
    ensures
        jv(r) == JsonV::Array(items_view(items@)),
{
    proof {
        lemma_jv_array(items);
    }
    Json::Array(items)
}

/// An object of two entries.
pub fn json_object2(k1: &str, v1: Json, k2: &str, v2: Json) -> (r: Json)
    ensures
        jv(r) == JsonV::Object(seq![(k1@, jv(v1)), (k2@, jv(v2))]),
{
    let ghost j1 = jv(v1);
    let ghost j2 = jv(v2);
    let mut fs: Vec<(String, Json)> = Vec::new();
    fs.push((String::from_str(k1), v1));
    fs.push((String::from_str(k2), v2));
    proof {
        lemma_jv_object(fs);
        assert(fields_view(fs@) =~= seq![(k1@, j1), (k2@, j2)]);
    }
    Json::Object(fs)
}

/// An empty object.
pub fn json_empty_object() -> (r: Json)
    ensures
        jv(r) == JsonV::Object(Seq::empty()),
{
    let fs: Vec<(String, Json)> = Vec::new();
    proof {
        lemma_jv_object(fs);
        assert(fields_view(fs@) =~= Seq::<(Seq<char>, JsonV)>::empty());
    }
    Json::Object(fs)
}

} // verus!
