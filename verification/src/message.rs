//! What the gateway reads from a client message before it goes to the
//! backend: the channel it is about and its delivery flags.

use vstd::prelude::*;
use crate::json::{json_bool, json_get, json_str, JsonValue};
use crate::text::{spec_trim, trim_text};

verus! {

/// Delivery flags of a client message.
#[derive(Clone, Debug)]
pub struct MessageFlags {
    pub encrypted: Option<bool>,
    pub qos: Option<String>,
}

impl MessageFlags {
    /// No flags set.
    pub fn new() -> (r: Self)
        ensures
            r.encrypted is None,
            r.qos is None,
    {
        MessageFlags { encrypted: None, qos: None }
    }
}

/// Member `key` of `data` when it is a string that is not blank, trimmed.
pub open spec fn trimmed_member(data: JsonValue, key: Seq<char>) -> Option<Seq<char>> {
    match json_str(data, key) {
        Some(v) => if spec_trim(v).len() > 0 { Some(spec_trim(v)) } else { None },
        None => None,
    }
}

/// The channel a message is about: the first of its `channel_id`, `channel`
/// and `topic` members that is a non-blank string (trimmed), else `fallback`.
pub open spec fn spec_channel_id(data: JsonValue, fallback: Seq<char>) -> Seq<char> {
    if trimmed_member(data, "channel_id"@) is Some {
        trimmed_member(data, "channel_id"@).unwrap()
    } else if trimmed_member(data, "channel"@) is Some {
        trimmed_member(data, "channel"@).unwrap()
    } else if trimmed_member(data, "topic"@) is Some {
        trimmed_member(data, "topic"@).unwrap()
    } else {
        fallback
    }
}

/// A string that is not empty.
pub open spec fn non_empty(s: Option<Seq<char>>) -> Option<Seq<char>> {
    match s {
        Some(v) => if v.len() > 0 { Some(v) } else { None },
        None => None,
    }
}

/// Whether a message is encrypted: `flags.encrypted` when it is a boolean,
/// else the top-level `encrypted` when it is one.
pub open spec fn spec_encrypted(data: JsonValue) -> Option<bool> {
    let nested = match json_get(data, "flags"@) {
        Some(n) => json_bool(n, "encrypted"@),
        None => None,
    };
    if nested is Some { nested } else { json_bool(data, "encrypted"@) }
}

/// The quality of service of a message: the top-level `qos` when it is a
/// non-empty string, else `flags.qos` when it is one.
pub open spec fn spec_qos(data: JsonValue) -> Option<Seq<char>> {
    let nested = match json_get(data, "flags"@) {
        Some(n) => non_empty(json_str(n, "qos"@)),
        None => None,
    };
    let top = non_empty(json_str(data, "qos"@));
    if top is Some { top } else { nested }
}

fn trimmed_member_exec(data: &JsonValue, key: &str) -> (r: Option<String>)
    ensures
        match r {
            Some(s) => trimmed_member(*data, key@) == Some(s@),
            None => trimmed_member(*data, key@) is None,
        },
{
    match data.get_str(key) {
        Some(v) => {
            let t = trim_text(v);
            if t.is_empty() { None } else { Some(String::from_str(t)) }
        }
        None => None,
    }
}

/// The channel a message is about (see `spec_channel_id`).
pub fn extract_channel_id(data: &JsonValue, fallback: &str) -> (r: String)
    ensures
        r@ == spec_channel_id(*data, fallback@),
{
    if let Some(v) = trimmed_member_exec(data, "channel_id") {
        return v;
    }
    if let Some(v) = trimmed_member_exec(data, "channel") {
        return v;
    }
    if let Some(v) = trimmed_member_exec(data, "topic") {
        return v;
    }
    String::from_str(fallback)
}

fn non_empty_owned(s: Option<&str>) -> (r: Option<String>)
    ensures
        match r {
            Some(v) => non_empty(match s { Some(x) => Some(x@), None => None }) == Some(v@),
            None => non_empty(match s { Some(x) => Some(x@), None => None }) is None,
        },
{
    match s {
        Some(x) => if x.is_empty() { None } else { Some(String::from_str(x)) },
        None => None,
    }
}

/// The delivery flags of a message (see `spec_encrypted` and `spec_qos`).
pub fn extract_flags(data: &JsonValue) -> (r: MessageFlags)
    ensures
        r.encrypted == spec_encrypted(*data),
        match r.qos {
            Some(q) => spec_qos(*data) == Some(q@),
            None => spec_qos(*data) is None,
        },
{
    let mut flags = MessageFlags::new();
    if let Some(value) = data.get_bool("encrypted") {
        flags.encrypted = Some(value);
    }
    if let Some(nested) = data.get("flags") {
        if let Some(value) = nested.get_bool("encrypted") {
            flags.encrypted = Some(value);
        }
        if let Some(qos) = non_empty_owned(nested.get_str("qos")) {
            flags.qos = Some(qos);
        }
    }
    if let Some(qos) = non_empty_owned(data.get_str("qos")) {
        flags.qos = Some(qos);
    }
    flags
}

} // verus!
