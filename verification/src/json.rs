//! A plain model of a JSON document, as the settings files are read: objects
//! keep their members in order, numbers keep their textual form.
use vstd::prelude::*;
use crate::text::{chars_eq, chars_of};

verus! {

/// A JSON value.
pub enum JsonValue {
    Null,
    Bool(bool),
    /// A number, in the notation it was written in.
    Number(String),
    Str(String),
    Array(Vec<JsonValue>),
    /// An object: its members in order, each key once.
    Object(Vec<(String, JsonValue)>),
}

/// The value of the first member named `key`.
pub open spec fn member_value(m: Seq<(String, JsonValue)>, key: Seq<char>) -> Option<JsonValue>
    decreases m.len(),
{
    if m.len() == 0 {
        None
    } else if m[0].0@ == key {
        Some(m[0].1)
    } else {
        member_value(m.drop_first(), key)
    }
}

/// `Value::get(key)`: the member `key` of an object, nothing for any other value.
pub open spec fn field(v: JsonValue, key: Seq<char>) -> Option<JsonValue> {
    match v {
        JsonValue::Object(m) => member_value(m@, key),
        _ => None,
    }
}

/// `field` applied inside an `Option`.
pub open spec fn field_of(v: Option<JsonValue>, key: Seq<char>) -> Option<JsonValue> {
    match v {
        Some(x) => field(x, key),
        None => None,
    }
}

/// `Value::as_str`.
pub open spec fn as_text(v: Option<JsonValue>) -> Option<Seq<char>> {
    match v {
        Some(JsonValue::Str(s)) => Some(s@),
        _ => None,
    }
}

/// `Value::as_str(..).unwrap_or("")`.
pub open spec fn text_or_empty(v: Option<JsonValue>) -> Seq<char> {
    match as_text(v) {
        Some(s) => s,
        None => Seq::empty(),
    }
}

/// `Value::as_array`.
pub open spec fn as_array(v: Option<JsonValue>) -> Option<Seq<JsonValue>> {
    match v {
        Some(JsonValue::Array(a)) => Some(a@),
        _ => None,
    }
}

proof fn lemma_member_value_at(m: Seq<(String, JsonValue)>, key: Seq<char>, i: int)
    requires
        0 <= i < m.len(),
        m[i].0@ == key,
        forall|k: int| 0 <= k < i ==> m[k].0@ != key,
    ensures
        member_value(m, key) == Some(m[i].1),
    decreases i,
{
    if i > 0 {
        lemma_member_value_at(m.drop_first(), key, i - 1);
    }
}

pub proof fn lemma_member_value_none(m: Seq<(String, JsonValue)>, key: Seq<char>)
    requires
        forall|k: int| 0 <= k < m.len() ==> m[k].0@ != key,
    ensures
        member_value(m, key) is None,
    decreases m.len(),
{
    if m.len() > 0 {
        lemma_member_value_none(m.drop_first(), key);
    }
}

/// The position of the first member named `key`.
pub fn member_index(m: &Vec<(String, JsonValue)>, key: &Vec<char>) -> (r: Option<usize>)
    ensures
        r matches Some(i) ==> i < m@.len() && m@[i as int].0@ == key@
            && forall|k: int| 0 <= k < i ==> m@[k].0@ != key@,
        r is None ==> forall|k: int| 0 <= k < m@.len() ==> m@[k].0@ != key@,
{
    for i in 0..m.len()
        invariant
            forall|k: int| 0 <= k < i ==> m@[k].0@ != key@,
    {
        let name = chars_of(m[i].0.as_str());
        if chars_eq(&name, key) {
            return Some(i);
        }
    }
    None
}

/// `Value::get(key)`.
pub fn get_field<'a>(v: &'a JsonValue, key: &Vec<char>) -> (r: Option<&'a JsonValue>)
    ensures
        r matches Some(x) ==> field(*v, key@) == Some(*x),
        r is None ==> field(*v, key@) is None,
{
    match v {
        JsonValue::Object(m) => {
            match member_index(m, key) {
                Some(i) => {
                    proof { lemma_member_value_at(m@, key@, i as int); }
                    Some(&m[i].1)
                },
                None => {
                    proof { lemma_member_value_none(m@, key@); }
                    None
                },
            }
        },
        _ => None,
    }
}

/// The characters of a string value.
pub fn text_chars(v: Option<&JsonValue>) -> (r: Option<Vec<char>>)
    ensures
        r matches Some(c) ==> v is Some && as_text(Some(*v.unwrap())) == Some(c@),
        r is None ==> v is None || as_text(Some(*v.unwrap())) is None,
{
    match v {
        Some(JsonValue::Str(s)) => Some(chars_of(s.as_str())),
        _ => None,
    }
}

pub proof fn lemma_member_value_prefix_free(
    m: Seq<(String, JsonValue)>,
    key: Seq<char>,
    i: int,
)
    requires
        0 <= i <= m.len(),
        forall|k: int| 0 <= k < i ==> m[k].0@ != key,
    ensures
        member_value(m, key) == member_value(m.skip(i), key),
    decreases i,
{
    if i > 0 {
        lemma_member_value_prefix_free(m.drop_first(), key, i - 1);
        assert(m.drop_first().skip(i - 1) =~= m.skip(i));
    } else {
        assert(m.skip(0) =~= m);
    }
}

/// The members of an object (none for any other value).
pub open spec fn members_of(v: JsonValue) -> Seq<(String, JsonValue)> {
    match v {
        JsonValue::Object(m) => m@,
        _ => Seq::empty(),
    }
}

/// An object's keys are pairwise distinct (trivially so for any other value).
pub open spec fn keys_distinct(v: JsonValue) -> bool {
    forall|i: int, j: int|
        0 <= i < j < members_of(v).len() ==> (#[trigger] members_of(v)[i]).0@ != (#[trigger] members_of(v)[j]).0@
}

/// The position of the first member named `key`.
pub open spec fn key_index(m: Seq<(String, JsonValue)>, key: Seq<char>) -> Option<int>
    decreases m.len(),
{
    if m.len() == 0 {
        None
    } else if m[0].0@ == key {
        Some(0)
    } else {
        match key_index(m.drop_first(), key) {
            Some(i) => Some(i + 1),
            None => None,
        }
    }
}

pub proof fn lemma_key_index_at(m: Seq<(String, JsonValue)>, key: Seq<char>, i: int)
    requires
        0 <= i < m.len(),
        m[i].0@ == key,
        forall|k: int| 0 <= k < i ==> m[k].0@ != key,
    ensures
        key_index(m, key) == Some(i),
    decreases i,
{
    if i > 0 {
        lemma_key_index_at(m.drop_first(), key, i - 1);
    }
}

pub proof fn lemma_key_index_none(m: Seq<(String, JsonValue)>, key: Seq<char>)
    requires
        forall|k: int| 0 <= k < m.len() ==> m[k].0@ != key,
    ensures
        key_index(m, key) is None,
    decreases m.len(),
{
    if m.len() > 0 {
        lemma_key_index_none(m.drop_first(), key);
    }
}

pub proof fn lemma_key_index_facts(m: Seq<(String, JsonValue)>, key: Seq<char>)
    ensures
        key_index(m, key) matches Some(i) ==> 0 <= i < m.len() && m[i].0@ == key
            && forall|k: int| 0 <= k < i ==> m[k].0@ != key,
        key_index(m, key) is None ==> forall|k: int| 0 <= k < m.len() ==> m[k].0@ != key,
    decreases m.len(),
{
    if m.len() > 0 {
        lemma_key_index_facts(m.drop_first(), key);
        if m[0].0@ != key {
            assert forall|k: int| 1 <= k < m.len() implies m[k].0@ == m.drop_first()[k - 1].0@ by {}
        }
    }
}

/// A JSON value as serde_json parses it.
#[verifier::external_type_specification]
#[verifier::external_body]
pub struct ExSerdeJsonValue(serde_json::Value);

/// What a settings text parses to, when it is JSON.
pub uninterp spec fn parsed_json(text: Seq<char>) -> Option<JsonValue>;

/// serde_json's value in the JSON model, variant for variant: a number by its
/// text, an object's members in the order of serde_json's map. Part of
/// `parse_json`: it is the conversion that wrapper's body applies, and claims
/// nothing of its own.
#[verifier::external_body]
fn json_of_serde(v: &serde_json::Value) -> (r: JsonValue) {
    match v {
        serde_json::Value::Null => JsonValue::Null,
        serde_json::Value::Bool(b) => JsonValue::Bool(*b),
        serde_json::Value::Number(n) => JsonValue::Number(n.to_string()),
        serde_json::Value::String(s) => JsonValue::Str(s.clone()),
        serde_json::Value::Array(a) => JsonValue::Array(a.iter().map(json_of_serde).collect()),
        serde_json::Value::Object(m) => JsonValue::Object(m.iter().map(|(k, x)| (k.clone(), json_of_serde(x))).collect()),
    }
}

/// The JSON document a text holds, if it is JSON.
/// Trusted: `serde_json::from_str::<serde_json::Value>`, converted one for one
/// into the model. The parse depends on the text alone, so its result is
/// named; a serde_json object is a map, so each key occurs in it once.
#[verifier::external_body]
pub(crate) fn parse_json(text: &str) -> (r: Option<JsonValue>)
    ensures
        r == parsed_json(text@),
        r matches Some(d) ==> keys_distinct(d),
{
    match serde_json::from_str::<serde_json::Value>(text) {
        Ok(v) => Some(json_of_serde(&v)),
        Err(_) => None,
    }
}

} // verus!
