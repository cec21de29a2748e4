//! A JSON value as plain data, with the lookups the profile readers make.
use vstd::prelude::*;
use crate::text::{chars_eq, chars_of, string_from_chars, trim, trim_chars};

verus! {

/// A JSON document. Numbers keep only what `serde_json`'s `as_i64` gives;
/// an object keeps its members in order.
#[derive(Debug)]
pub enum Json {
    Null,
    Bool(bool),
    Number(Option<i64>),
    Str(String),
    Array(Vec<Json>),
    Object(Vec<(String, Json)>),
}

/// The value of the first member of `fields` named `key`.
pub open spec fn lookup(fields: Seq<(String, Json)>, key: Seq<char>) -> Option<Json>
    decreases fields.len(),
{
    if fields.len() == 0 {
        None
    } else if fields[0].0@ == key {
        Some(fields[0].1)
    } else {
        lookup(fields.drop_first(), key)
    }
}

/// `Value::get(key)`: a member of an object.
pub open spec fn json_get(j: Json, key: Seq<char>) -> Option<Json> {
    match j {
        Json::Object(fields) => lookup(fields@, key),
        _ => None,
    }
}

/// `json_get` for an optional value.
pub open spec fn opt_get(j: Option<Json>, key: Seq<char>) -> Option<Json> {
    match j {
        Some(v) => json_get(v, key),
        None => None,
    }
}

pub open spec fn as_str(j: Option<Json>) -> Option<Seq<char>> {
    match j {
        Some(Json::Str(s)) => Some(s@),
        _ => None,
    }
}

pub open spec fn as_bool(j: Option<Json>) -> Option<bool> {
    match j {
        Some(Json::Bool(b)) => Some(b),
        _ => None,
    }
}

pub open spec fn as_i64(j: Option<Json>) -> Option<i64> {
    match j {
        Some(Json::Number(n)) => n,
        _ => None,
    }
}

/// The trimmed text of the string member `key` of `j`, when it is not empty.
pub open spec fn json_string_spec(j: Json, key: Seq<char>) -> Option<Seq<char>> {
    match as_str(json_get(j, key)) {
        Some(s) => if trim(s).len() > 0 { Some(trim(s)) } else { None },
        None => None,
    }
}

impl Json {
    /// The member `key` of an object.
    pub fn get(&self, key: &str) -> (r: Option<&Json>)
        ensures
            match r {
                Some(v) => json_get(*self, key@) == Some(*v),
                None => json_get(*self, key@) is None,
            },
    {
        match self {
            Json::Object(fields) => {
                let k = chars_of(key);
                let mut i: usize = 0;
                assert(fields@.skip(0) =~= fields@);
                while i < fields.len()
                    invariant
                        i <= fields.len(),
                        k@ == key@,
                        json_get(*self, key@) == lookup(fields@, key@),
                        lookup(fields@, key@) == lookup(fields@.skip(i as int), key@),
                    decreases fields.len() - i,
                {
                    let name = chars_of(fields[i].0.as_str());
                    assert(fields@.skip(i as int)[0] == fields@[i as int]);
                    if chars_eq(&name, &k) {
                        assert(fields@.skip(i as int)[0].0@ == key@);
                        return Some(&fields[i].1);
                    }
                    assert(fields@.skip(i as int).drop_first() =~= fields@.skip(i + 1));
                    i = i + 1;
                }
                None
            },
            _ => None,
        }
    }

    pub fn as_str(&self) -> (r: Option<&String>)
        ensures
            match r {
                Some(s) => as_str(Some(*self)) == Some(s@),
                None => as_str(Some(*self)) is None,
            },
    {
        match self {
            Json::Str(s) => Some(s),
            _ => None,
        }
    }

    pub fn as_bool(&self) -> (r: Option<bool>)
        ensures
            r == as_bool(Some(*self)),
    {
        match self {
            Json::Bool(b) => Some(*b),
            _ => None,
        }
    }

    pub fn as_i64(&self) -> (r: Option<i64>)
        ensures
            r == as_i64(Some(*self)),
    {
        match self {
            Json::Number(n) => *n,
            _ => None,
        }
    }
}

/// `get` for an optional value.
pub fn get_opt<'a>(j: Option<&'a Json>, key: &str) -> (r: Option<&'a Json>)
    ensures
        match r {
            Some(v) => opt_get(match j { Some(x) => Some(*x), None => None }, key@) == Some(*v),
            None => opt_get(match j { Some(x) => Some(*x), None => None }, key@) is None,
        },
{
    match j {
        Some(v) => v.get(key),
        None => None,
    }
}

/// The trimmed, non-empty text of the string member `key`.
pub fn json_string(json: &Json, key: &str) -> (r: Option<String>)
    ensures
        match r {
            Some(s) => json_string_spec(*json, key@) == Some(s@),
            None => json_string_spec(*json, key@) is None,
        },
{
    match json.get(key) {
        Some(v) => match v.as_str() {
            Some(s) => {
                let c = chars_of(s.as_str());
                let t = trim_chars(&c);
                if t.len() > 0 {
                    Some(string_from_chars(&t))
                } else {
                    None
                }
            },
            None => None,
        },
        None => None,
    }
}

} // verus!
