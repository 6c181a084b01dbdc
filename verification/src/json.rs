use vstd::prelude::*;

use crate::text::str_eq;

verus! {

/// A JSON value, as the library reads one. Numbers keep their text.
#[derive(Debug)]
pub enum JsonValue {
    Null,
    Bool(bool),
    Number(String),
    String(String),
    Array(Vec<JsonValue>),
    Object(Vec<JsonField>),
}

/// A member of a JSON object.
#[derive(Debug)]
pub struct JsonField {
    pub key: String,
    pub value: JsonValue,
}

/// The value reached from `v` by taking, at each step, the member or
/// element at the next position of `path`.
pub open spec fn follow(v: JsonValue, path: Seq<int>) -> Option<JsonValue>
    decreases path.len(),
{
    if path.len() == 0 {
        Some(v)
    } else {
        match v {
            JsonValue::Object(fields) => if 0 <= path[0] < fields@.len() {
                follow(fields@[path[0]].value, path.drop_first())
            } else {
                None
            },
            JsonValue::Array(xs) => if 0 <= path[0] < xs@.len() {
                follow(xs@[path[0]], path.drop_first())
            } else {
                None
            },
            _ => None,
        }
    }
}

/// `path` leads from `v` to an object with members `o`.
pub open spec fn object_at(v: JsonValue, path: Seq<int>, o: Seq<JsonField>) -> bool {
    match follow(v, path) {
        Some(JsonValue::Object(f)) => f@ == o,
        _ => false,
    }
}

/// Whether the object with members `o` occurs in the tree `v` (`v` itself
/// included).
pub open spec fn object_in_tree(v: JsonValue, o: Seq<JsonField>) -> bool {
    exists|path: Seq<int>| #[trigger] object_at(v, path, o)
}

/// An object is in its own tree.
pub proof fn lemma_object_root(fields: Vec<JsonField>)
    ensures
        object_in_tree(JsonValue::Object(fields), fields@),
{
    assert(object_at(JsonValue::Object(fields), Seq::<int>::empty(), fields@));
}

/// An object of a member's tree is in the tree of the object.
pub proof fn lemma_object_member(fields: Vec<JsonField>, k: int, o: Seq<JsonField>)
    requires
        0 <= k < fields@.len(),
        object_in_tree(fields@[k].value, o),
    ensures
        object_in_tree(JsonValue::Object(fields), o),
{
    let p = choose|p: Seq<int>| #[trigger] object_at(fields@[k].value, p, o);
    let q = seq![k] + p;
    assert(q.drop_first() =~= p);
    assert(object_at(JsonValue::Object(fields), q, o));
}

/// An object of an element's tree is in the tree of the array.
pub proof fn lemma_object_element(xs: Vec<JsonValue>, k: int, o: Seq<JsonField>)
    requires
        0 <= k < xs@.len(),
        object_in_tree(xs@[k], o),
    ensures
        object_in_tree(JsonValue::Array(xs), o),
{
    let p = choose|p: Seq<int>| #[trigger] object_at(xs@[k], p, o);
    let q = seq![k] + p;
    assert(q.drop_first() =~= p);
    assert(object_at(JsonValue::Array(xs), q, o));
}

/// An object of a tree is its root or in the tree of a member or element.
pub proof fn lemma_object_in_tree_cases(v: JsonValue, o: Seq<JsonField>)
    requires
        object_in_tree(v, o),
    ensures
        match v {
            JsonValue::Object(fields) => fields@ == o || exists|k: int|
                0 <= k < fields@.len() && #[trigger] object_in_tree(fields@[k].value, o),
            JsonValue::Array(xs) => exists|k: int| 0 <= k < xs@.len() && #[trigger] object_in_tree(xs@[k], o),
            _ => false,
        },
{
    let p = choose|p: Seq<int>| #[trigger] object_at(v, p, o);
    if p.len() > 0 {
        let k = p[0];
        match v {
            JsonValue::Object(fields) => {
                assert(object_at(fields@[k].value, p.drop_first(), o));
                assert(object_in_tree(fields@[k].value, o));
            },
            JsonValue::Array(xs) => {
                assert(object_at(xs@[k], p.drop_first(), o));
                assert(object_in_tree(xs@[k], o));
            },
            _ => {},
        }
    }
}

/// Position of the first member named `key`.
pub open spec fn field_index(fields: Seq<JsonField>, key: Seq<char>) -> Option<int>
    decreases fields.len(),
{
    if fields.len() == 0 {
        None
    } else if fields[0].key@ == key {
        Some(0)
    } else {
        match field_index(fields.drop_first(), key) {
            Some(i) => Some(i + 1),
            None => None,
        }
    }
}

proof fn lemma_field_index(fields: Seq<JsonField>, key: Seq<char>)
    ensures
        match field_index(fields, key) {
            Some(i) => 0 <= i < fields.len() && fields[i].key@ == key && forall|j: int|
                0 <= j < i ==> fields[j].key@ != key,
            None => forall|j: int| 0 <= j < fields.len() ==> fields[j].key@ != key,
        },
    decreases fields.len(),
{
    if fields.len() > 0 {
        lemma_field_index(fields.drop_first(), key);
        assert forall|j: int| 0 < j < fields.len() implies fields[j] == fields.drop_first()[j - 1] by {}
    }
}

/// The member `key` of an object (serde_json's `Value::get`): none for
/// anything but an object.
pub open spec fn json_get(v: JsonValue, key: Seq<char>) -> Option<JsonValue> {
    match v {
        JsonValue::Object(fields) => match field_index(fields@, key) {
            Some(i) => Some(fields@[i].value),
            None => None,
        },
        _ => None,
    }
}

/// The text of a string value (serde_json's `Value::as_str`).
pub open spec fn json_str(v: Option<JsonValue>) -> Option<Seq<char>> {
    match v {
        Some(JsonValue::String(s)) => Some(s@),
        _ => None,
    }
}

/// The member `key` of the object `fields`.
pub fn get_field<'a>(fields: &'a Vec<JsonField>, key: &str) -> (r: Option<&'a JsonValue>)
    ensures
        match r {
            Some(x) => match field_index(fields@, key@) {
                Some(i) => fields@[i].value == *x,
                None => false,
            },
            None => field_index(fields@, key@) is None,
        },
{
    proof {
        lemma_field_index(fields@, key@);
    }
    let mut i: usize = 0;
    while i < fields.len()
        invariant
            i <= fields@.len(),
            forall|j: int| 0 <= j < i ==> fields@[j].key@ != key@,
            match field_index(fields@, key@) {
                Some(k) => 0 <= k < fields@.len() && fields@[k].key@ == key@ && forall|j: int|
                    0 <= j < k ==> fields@[j].key@ != key@,
                None => forall|j: int| 0 <= j < fields@.len() ==> fields@[j].key@ != key@,
            },
        decreases fields@.len() - i,
    {
        if str_eq(fields[i].key.as_str(), key) {
            return Some(&fields[i].value);
        }
        i = i + 1;
    }
    None
}

/// The member `key` of `v` when `v` is an object.
pub fn get<'a>(v: &'a JsonValue, key: &str) -> (r: Option<&'a JsonValue>)
    ensures
        match r {
            Some(x) => json_get(*v, key@) == Some(*x),
            None => json_get(*v, key@) is None,
        },
{
    match v {
        JsonValue::Object(fields) => get_field(fields, key),
        _ => None,
    }
}

/// The text of `v` when it is a string.
pub fn as_str<'a>(v: Option<&'a JsonValue>) -> (r: Option<&'a str>)
    ensures
        match r {
            Some(s) => match v {
                Some(x) => json_str(Some(*x)) == Some(s@),
                None => false,
            },
            None => match v {
                Some(x) => json_str(Some(*x)) is None,
                None => true,
            },
        },
{
    match v {
        Some(JsonValue::String(s)) => Some(s.as_str()),
        _ => None,
    }
}

} // verus!
