//! A JSON document as plain values, and the lookups that the transcript and
//! history formats need.

use vstd::prelude::*;

use crate::text::same_text;

verus! {

#[verifier::external_type_specification]
#[verifier::external_body]
pub struct ExValue(serde_json::Value);

/// A JSON document. Numbers keep their textual form; an object keeps its
/// members in the order the parser hands them out.
pub enum Json {
    Null,
    Bool(bool),
    Number(String),
    Str(String),
    Array(Vec<Json>),
    Object(Vec<(String, Json)>),
}

/// The document that serde_json reads from a text, if the text is one.
pub uninterp spec fn json_of(text: Seq<char>) -> Option<Json>;

/// The value of the first member named `key`.
pub open spec fn lookup(es: Seq<(String, Json)>, key: Seq<char>) -> Option<Json>
    decreases es.len(),
{
    if es.len() == 0 {
        None
    } else if es[0].0@ == key {
        Some(es[0].1)
    } else {
        lookup(es.drop_first(), key)
    }
}

/// The member `key` of an object; nothing for any other value.
pub open spec fn field(v: Json, key: Seq<char>) -> Option<Json> {
    match v {
        Json::Object(es) => lookup(es@, key),
        _ => None,
    }
}

/// The member `key`, where it is a string.
pub open spec fn str_field(v: Json, key: Seq<char>) -> Option<Seq<char>> {
    match field(v, key) {
        Some(Json::Str(s)) => Some(s@),
        _ => None,
    }
}

/// The member `key`, where it is a boolean.
pub open spec fn bool_field(v: Json, key: Seq<char>) -> Option<bool> {
    match field(v, key) {
        Some(Json::Bool(b)) => Some(b),
        _ => None,
    }
}

/// Relies on `serde_json::from_str` into `serde_json::Value`: the document
/// that a text holds, or nothing where the text is not JSON.
#[verifier::external_body]
pub(crate) fn parse_json(text: &str) -> (r: Option<Json>)
    ensures
        r == json_of(text@),
{
    serde_json::from_str::<serde_json::Value>(text).ok().map(from_value)
}

/// Relies on the variants of `serde_json::Value`: moves each into the
/// variant of the same name.
#[verifier::external_body]
fn from_value(v: serde_json::Value) -> Json {
    match v {
        serde_json::Value::Null => Json::Null,
        serde_json::Value::Bool(b) => Json::Bool(b),
        serde_json::Value::Number(n) => Json::Number(n.to_string()),
        serde_json::Value::String(s) => Json::Str(s),
        serde_json::Value::Array(a) => Json::Array(a.into_iter().map(from_value).collect()),
        serde_json::Value::Object(m) => Json::Object(
            m.into_iter().map(|(k, x)| (k, from_value(x))).collect(),
        ),
    }
}

impl Json {
    /// The member `key` of an object.
    pub fn get(&self, key: &str) -> (r: Option<&Json>)
        ensures
            match r {
                Some(x) => field(*self, key@) == Some(*x),
                None => field(*self, key@) is None,
            },
    {
        match self {
            Json::Object(es) => {
                let mut i: usize = 0;
                proof {
                    assert(es@.subrange(0, es.len() as int) =~= es@);
                }
                while i < es.len()
                    invariant
                        i <= es.len(),
                        field(*self, key@) == lookup(es@, key@),
                        lookup(es@, key@) == lookup(es@.subrange(i as int, es.len() as int), key@),
                    decreases es.len() - i,
                {
                    let ghost rest = es@.subrange(i as int, es.len() as int);
                    proof {
                        assert(rest[0] == es@[i as int]);
                        assert(rest.drop_first() =~= es@.subrange(i + 1, es.len() as int));
                    }
                    if same_text(es[i].0.as_str(), key) {
                        proof {
                            assert(rest[0].0@ == key@);
                            assert(lookup(rest, key@) == Some(es@[i as int].1));
                        }
                        return Some(&es[i].1);
                    }
                    i += 1;
                }
                None
            },
            _ => None,
        }
    }

    /// The member `key`, where it is a string.
    pub fn get_str(&self, key: &str) -> (r: Option<&String>)
        ensures
            match r {
                Some(s) => str_field(*self, key@) == Some(s@),
                None => str_field(*self, key@) is None,
            },
    {
        match self.get(key) {
            Some(Json::Str(s)) => Some(s),
            _ => None,
        }
    }

    /// The member `key`, where it is a boolean.
    pub fn get_bool(&self, key: &str) -> (r: Option<bool>)
        ensures
            r == bool_field(*self, key@),
    {
        match self.get(key) {
            Some(Json::Bool(b)) => Some(*b),
            _ => None,
        }
    }
}

} // verus!
