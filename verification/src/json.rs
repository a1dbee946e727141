//! A JSON document as the gateway reads it: the members, strings, booleans,
//! integers and arrays that its rules look at.

use vstd::prelude::*;
use crate::text::str_eq;

verus! {

/// A JSON number as the gateway reads it: its value as a `u64` and as an
/// `i64`, where it has one (a fraction or an out-of-range value has none).
#[derive(Clone, Copy, Debug)]
pub struct JsonNumber {
    pub as_u64: Option<u64>,
    pub as_i64: Option<i64>,
}

/// A JSON value. The members of an object keep their document order; no key
/// occurs twice.
#[derive(Debug)]
pub enum JsonValue {
    Null,
    Bool(bool),
    Number(JsonNumber),
    String(String),
    Array(Vec<JsonValue>),
    Object(Vec<(String, JsonValue)>),
}

/// The value of the first member named `key`.
pub open spec fn member_value(fields: Seq<(String, JsonValue)>, key: Seq<char>) -> Option<JsonValue>
    decreases fields.len(),
{
    if fields.len() == 0 {
        None
    } else if fields[0].0@ == key {
        Some(fields[0].1)
    } else {
        member_value(fields.drop_first(), key)
    }
}

/// The member `key` of a value, when the value is an object that has one
/// (`Value::get` with a string key).
pub open spec fn json_get(v: JsonValue, key: Seq<char>) -> Option<JsonValue> {
    match v {
        JsonValue::Object(fields) => member_value(fields@, key),
        _ => None,
    }
}

/// The text of a string value.
pub open spec fn json_as_str(v: Option<JsonValue>) -> Option<Seq<char>> {
    match v {
        Some(JsonValue::String(s)) => Some(s@),
        _ => None,
    }
}

/// The member `key` of a value, when it is a string.
pub open spec fn json_str(v: JsonValue, key: Seq<char>) -> Option<Seq<char>> {
    json_as_str(json_get(v, key))
}

/// The member `key` of a value, when it is a boolean.
pub open spec fn json_bool(v: JsonValue, key: Seq<char>) -> Option<bool> {
    match json_get(v, key) {
        Some(JsonValue::Bool(b)) => Some(b),
        _ => None,
    }
}

/// The texts of the string items of an array, in order.
pub open spec fn string_items(items: Seq<JsonValue>) -> Seq<Seq<char>>
    decreases items.len(),
{
    if items.len() == 0 {
        Seq::empty()
    } else {
        let rest = string_items(items.drop_last());
        match items.last() {
            JsonValue::String(s) => rest.push(s@),
            _ => rest,
        }
    }
}

/// The texts of the string items of member `key`, when it is an array
/// (empty otherwise).
pub open spec fn json_strings(v: JsonValue, key: Seq<char>) -> Seq<Seq<char>> {
    match json_get(v, key) {
        Some(JsonValue::Array(items)) => string_items(items@),
        _ => Seq::empty(),
    }
}

impl JsonValue {
    /// The member `key` of this value, when it is an object that has one.
    pub fn get(&self, key: &str) -> (r: Option<&JsonValue>)
        ensures
            match r {
                Some(x) => json_get(*self, key@) == Some(*x),
                None => json_get(*self, key@) is None,
            },
    {
        match self {
            JsonValue::Object(fields) => {
                let mut i: usize = 0;
                proof {
                    assert(fields@.skip(0) =~= fields@);
                    assert(json_get(*self, key@) == member_value(fields@, key@));
                }
                while i < fields.len()
                    invariant
                        i <= fields@.len(),
                        member_value(fields@, key@) == member_value(fields@.skip(i as int), key@),
                        json_get(*self, key@) == member_value(fields@, key@),
                    decreases fields@.len() - i,
                {
                    proof {
                        assert(fields@.skip(i as int)[0] == fields@[i as int]);
                        assert(fields@.skip(i as int).drop_first() =~= fields@.skip(i + 1));
                    }
                    if str_eq(fields[i].0.as_str(), key) {
                        proof {
                            let rest = fields@.skip(i as int);
                            assert(rest.len() > 0 && rest[0].0@ == key@);
                            assert(member_value(rest, key@) == Some(rest[0].1));
                        }
                        return Some(&fields[i].1);
                    }
                    i = i + 1;
                }
                proof { assert(fields@.skip(i as int) =~= Seq::<(String, JsonValue)>::empty()); }
                None
            }
            _ => None,
        }
    }

    /// The text of this value, when it is a string.
    pub fn as_str(&self) -> (r: Option<&str>)
        ensures
            match r {
                Some(s) => json_as_str(Some(*self)) == Some(s@),
                None => json_as_str(Some(*self)) is None,
            },
    {
        match self {
            JsonValue::String(s) => Some(s.as_str()),
            _ => None,
        }
    }

    /// The member `key` of this value, when it is a string.
    pub fn get_str(&self, key: &str) -> (r: Option<&str>)
        ensures
            match r {
                Some(s) => json_str(*self, key@) == Some(s@),
                None => json_str(*self, key@) is None,
            },
    {
        match self.get(key) {
            Some(v) => v.as_str(),
            None => None,
        }
    }

    /// The member `key` of this value, when it is a boolean.
    pub fn get_bool(&self, key: &str) -> (r: Option<bool>)
        ensures
            r == json_bool(*self, key@),
    {
        match self.get(key) {
            Some(JsonValue::Bool(b)) => Some(*b),
            _ => None,
        }
    }

    /// The texts of the string items of member `key`, when it is an array.
    pub fn get_strings(&self, key: &str) -> (r: Vec<String>)
        ensures
            crate::text::strs(r@) == json_strings(*self, key@),
    {
        let mut out: Vec<String> = Vec::new();
        match self.get(key) {
            Some(JsonValue::Array(items)) => {
                let mut i: usize = 0;
                proof { assert(items@.take(0) =~= Seq::<JsonValue>::empty()); }
                while i < items.len()
                    invariant
                        i <= items@.len(),
                        crate::text::strs(out@) == string_items(items@.take(i as int)),
                    decreases items@.len() - i,
                {
                    proof {
                        assert(items@.take(i + 1).drop_last() =~= items@.take(i as int));
                        assert(items@.take(i + 1).last() == items@[i as int]);
                    }
                    match &items[i] {
                        JsonValue::String(s) => {
                            let ghost before = out@;
                            out.push(s.clone());
                            proof { assert(crate::text::strs(out@) =~= crate::text::strs(before).push(s@)); }
                        }
                        _ => {}
                    }
                    i = i + 1;
                }
                proof { assert(items@.take(items@.len() as int) =~= items@); }
            }
            _ => {
                proof { assert(crate::text::strs(out@) =~= Seq::<Seq<char>>::empty()); }
            }
        }
        out
    }
}

} // verus!
