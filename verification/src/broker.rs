//! The backend outbox: reading stream replies, recognizing relay context
//! snapshots, and delivering outbox messages to connections, either back to
//! the connection that asked (request/response) or to subjects (push).

use vstd::prelude::*;
use crate::clock::unix_seconds_now;
use crate::connection::DispatchResult;
use crate::ingress::trimmed_or_empty;
use crate::json::{json_get, json_str, json_strings, JsonNumber, JsonValue};
use crate::relay::{
    RelayAudienceScope, RelayAudienceScopeView, RelayContextSnapshot, RelayContextSnapshotView,
    RelayContextState, RelayGrant, RelayGrantView, RelayOperationContext, RelayOperationContextView,
    context_views,
};
use crate::routes::{AudienceScopeMode, RelayContextType};
use crate::state::{
    dispatch_allows, dispatch_handed, has_connection, spec_apply_snapshot, spec_clear_route, spec_resolve_route,
    spec_unregister, GatewayModel, GatewayState,
};
use crate::connection::{HandedMessage, Handoff};
use crate::text::{clamp_i64, lowercase_text, saturating_add_i64, spec_lowercase, spec_trim, str_eq, strs, trim_text};

verus! {

/// How an outbox message is delivered.
#[derive(Clone, Copy, Debug, PartialEq, Eq, Structural)]
pub enum DeliveryMode {
    RequestResponse,
    Push,
}

impl DeliveryMode {
    pub open spec fn spec_name(self) -> Seq<char> {
        match self {
            DeliveryMode::RequestResponse => "request_response"@,
            DeliveryMode::Push => "push"@,
        }
    }

    /// The mode's name in logs.
    pub fn as_str(self) -> (r: &'static str)
        ensures
            r@ == self.spec_name(),
    {
        match self {
            DeliveryMode::RequestResponse => "request_response",
            DeliveryMode::Push => "push",
        }
    }
}

/// A string that is not blank, trimmed.
pub open spec fn non_blank(s: Option<Seq<char>>) -> Option<Seq<char>> {
    match s {
        Some(v) => if spec_trim(v).len() > 0 { Some(spec_trim(v)) } else { None },
        None => None,
    }
}

fn non_blank_exec(s: Option<&str>) -> (r: Option<String>)
    ensures
        match r {
            Some(v) => non_blank(match s { Some(x) => Some(x@), None => None }) == Some(v@),
            None => non_blank(match s { Some(x) => Some(x@), None => None }) is None,
        },
{
    match s {
        Some(x) => {
            let t = trim_text(x);
            if t.is_empty() { None } else { Some(String::from_str(t)) }
        }
        None => None,
    }
}

/// The request id of an outbox payload: its `request_id`, when a string that
/// is not blank (trimmed).
pub fn extract_request_id(payload: &JsonValue) -> (r: Option<String>)
    ensures
        match r {
            Some(v) => non_blank(json_str(*payload, "request_id"@)) == Some(v@),
            None => non_blank(json_str(*payload, "request_id"@)) is None,
        },
{
    non_blank_exec(payload.get_str("request_id"))
}

/// A name as the snapshot parser compares it: trimmed and lower-cased.
pub open spec fn folded(v: Seq<char>) -> Seq<char> {
    spec_lowercase(spec_trim(v))
}

/// The relay context type a name stands for.
pub open spec fn spec_context_type(v: Seq<char>) -> Option<RelayContextType> {
    if folded(v) == "file_transfer_peer"@ { Some(RelayContextType::FileTransferPeer) } else { None }
}

/// The audience scope mode a name stands for.
pub open spec fn spec_scope_mode(v: Seq<char>) -> Option<AudienceScopeMode> {
    let n = folded(v);
    if n == "fixed_peer"@ {
        Some(AudienceScopeMode::FixedPeer)
    } else if n == "context_members"@ {
        Some(AudienceScopeMode::ContextMembers)
    } else if n == "explicit_subset"@ {
        Some(AudienceScopeMode::ExplicitSubset)
    } else {
        None
    }
}

/// The relay context state a name stands for.
pub open spec fn spec_context_state(v: Seq<char>) -> Option<RelayContextState> {
    let n = folded(v);
    if n == "opened"@ {
        Some(RelayContextState::Opened)
    } else if n == "active"@ {
        Some(RelayContextState::Active)
    } else if n == "revoked"@ {
        Some(RelayContextState::Revoked)
    } else if n == "closed"@ {
        Some(RelayContextState::Closed)
    } else if n == "policy_version_bumped"@ {
        Some(RelayContextState::PolicyVersionBumped)
    } else {
        None
    }
}

/// Parses a relay context type name (trimmed, any case).
pub fn parse_context_type(value: &str) -> (r: Option<RelayContextType>)
    ensures
        r == spec_context_type(value@),
{
    let n = lowercase_text(trim_text(value));
    if str_eq(n.as_str(), "file_transfer_peer") { Some(RelayContextType::FileTransferPeer) } else { None }
}

/// Parses an audience scope mode name (trimmed, any case).
pub fn parse_scope_mode(value: &str) -> (r: Option<AudienceScopeMode>)
    ensures
        r == spec_scope_mode(value@),
{
    let n = lowercase_text(trim_text(value));
    if str_eq(n.as_str(), "fixed_peer") {
        Some(AudienceScopeMode::FixedPeer)
    } else if str_eq(n.as_str(), "context_members") {
        Some(AudienceScopeMode::ContextMembers)
    } else if str_eq(n.as_str(), "explicit_subset") {
        Some(AudienceScopeMode::ExplicitSubset)
    } else {
        None
    }
}

/// Parses a relay context state name (trimmed, any case).
pub fn parse_context_state(value: &str) -> (r: Option<RelayContextState>)
    ensures
        r == spec_context_state(value@),
{
    let n = lowercase_text(trim_text(value));
    if str_eq(n.as_str(), "opened") {
        Some(RelayContextState::Opened)
    } else if str_eq(n.as_str(), "active") {
        Some(RelayContextState::Active)
    } else if str_eq(n.as_str(), "revoked") {
        Some(RelayContextState::Revoked)
    } else if str_eq(n.as_str(), "closed") {
        Some(RelayContextState::Closed)
    } else if str_eq(n.as_str(), "policy_version_bumped") {
        Some(RelayContextState::PolicyVersionBumped)
    } else {
        None
    }
}

/// A JSON value read as an unsigned integer: a number that fits `u64`, or
/// a positive one that fits `i64`.
pub open spec fn spec_u64(v: Option<JsonValue>) -> Option<u64> {
    match v {
        Some(JsonValue::Number(n)) => {
            if n.as_u64 is Some {
                n.as_u64
            } else if n.as_i64 is Some && n.as_i64.unwrap() > 0 {
                Some(n.as_i64.unwrap() as u64)
            } else {
                None
            }
        },
        _ => None,
    }
}

/// A JSON value read as a signed integer: a number that fits `i64`.
pub open spec fn spec_i64(v: Option<JsonValue>) -> Option<i64> {
    match v {
        Some(JsonValue::Number(n)) => n.as_i64,
        _ => None,
    }
}

/// Reads a JSON value as an unsigned integer (see `spec_u64`).
pub fn parse_u64(value: Option<&JsonValue>) -> (r: Option<u64>)
    ensures
        r == spec_u64(match value { Some(v) => Some(*v), None => None }),
{
    match value {
        Some(JsonValue::Number(n)) => {
            if let Some(u) = n.as_u64 {
                Some(u)
            } else {
                match n.as_i64 {
                    Some(i) => if i > 0 { Some(i as u64) } else { None },
                    None => None,
                }
            }
        }
        _ => None,
    }
}

/// Reads a JSON value as a signed integer (see `spec_i64`).
pub fn parse_i64(value: Option<&JsonValue>) -> (r: Option<i64>)
    ensures
        r == spec_i64(match value { Some(v) => Some(*v), None => None }),
{
    match value {
        Some(JsonValue::Number(n)) => n.as_i64,
        _ => None,
    }
}

/// The value of an optional, or a default.
pub open spec fn or_else<T>(v: Option<T>, d: T) -> T {
    match v {
        Some(x) => x,
        None => d,
    }
}

/// Seconds a snapshot's contexts live when it gives no default.
pub const SNAPSHOT_DEFAULT_TTL_SECONDS: i64 = 86400;

/// One context of a snapshot, when it is complete: an object with a
/// non-blank id, operation key and authorized subject, a known state
/// (`active` when absent), a grant object with a non-blank id, and an
/// audience scope object with a known mode. Missing versions and times are
/// taken from the snapshot.
pub open spec fn spec_parse_context(item: JsonValue, policy_version: u64, received_at: i64, default_ttl: i64) -> Option<RelayOperationContextView> {
    match item {
        JsonValue::Object(_) => {
            let context_id = non_blank(json_str(item, "context_id"@));
            let operation_key = non_blank(json_str(item, "operation_key"@));
            let subject = non_blank(json_str(item, "authorized_subject"@));
            let state = spec_context_state(or_else(json_str(item, "state"@), "active"@));
            let grant = json_get(item, "grant"@);
            let scope = json_get(item, "audience_scope"@);
            if context_id is None || operation_key is None || subject is None || state is None {
                None
            } else if !(grant matches Some(JsonValue::Object(_))) {
                None
            } else if non_blank(json_str(grant.unwrap(), "grant_id"@)) is None {
                None
            } else if !(scope matches Some(JsonValue::Object(_))) {
                None
            } else if spec_scope_mode(or_else(json_str(scope.unwrap(), "mode"@), Seq::empty())) is None {
                None
            } else {
                let g = grant.unwrap();
                let sc = scope.unwrap();
                let pv = or_else(spec_u64(json_get(item, "policy_version"@)), policy_version);
                let expires_at = or_else(spec_i64(json_get(item, "expires_at"@)), clamp_i64(received_at + default_ttl));
                Some(RelayOperationContextView {
                    context_id: context_id.unwrap(),
                    operation_key: operation_key.unwrap(),
                    operation_class: "relay_hotpath"@,
                    context_type: RelayContextType::FileTransferPeer,
                    state: state.unwrap(),
                    authorized_subject: subject.unwrap(),
                    audience_scope: RelayAudienceScopeView {
                        mode: spec_scope_mode(or_else(json_str(sc, "mode"@), Seq::empty())).unwrap(),
                        peers: json_strings(sc, "peers"@),
                    },
                    allowed_command_families: json_strings(item, "allowed_command_families"@),
                    policy_version: pv,
                    grant: RelayGrantView {
                        grant_id: non_blank(json_str(g, "grant_id"@)).unwrap(),
                        policy_version: or_else(spec_u64(json_get(g, "policy_version"@)), pv),
                        issued_at: or_else(spec_i64(json_get(g, "issued_at"@)), received_at),
                        expires_at: or_else(spec_i64(json_get(g, "expires_at"@)), expires_at),
                    },
                    opened_at: or_else(spec_i64(json_get(item, "opened_at"@)), received_at),
                    updated_at: or_else(spec_i64(json_get(item, "updated_at"@)), received_at),
                    expires_at,
                })
            }
        },
        _ => None,
    }
}

/// The complete contexts of a snapshot, in order, each with the snapshot's
/// context type.
pub open spec fn spec_parse_contexts(
    items: Seq<JsonValue>,
    context_type: RelayContextType,
    policy_version: u64,
    received_at: i64,
    default_ttl: i64,
) -> Seq<RelayOperationContextView>
    decreases items.len(),
{
    if items.len() == 0 {
        Seq::empty()
    } else {
        let rest = spec_parse_contexts(items.drop_last(), context_type, policy_version, received_at, default_ttl);
        match spec_parse_context(items.last(), policy_version, received_at, default_ttl) {
            Some(c) => rest.push(RelayOperationContextView { context_type, ..c }),
            None => rest,
        }
    }
}

/// The relay context snapshot an outbox payload carries, if it is one: its
/// `type` is `gateway_relay_context_snapshot`, its operation class (trimmed,
/// any case) `relay_hotpath`, and it has a non-blank subject, a known context
/// type and a policy version. Its time is its `ts`, else `now`.
pub open spec fn spec_parse_snapshot(payload: JsonValue, now: i64) -> Option<RelayContextSnapshotView> {
    let ptype = or_else(json_str(payload, "type"@), Seq::empty());
    let class = folded(or_else(json_str(payload, "operation_class"@), Seq::empty()));
    let subject = non_blank(json_str(payload, "subject"@));
    let context_type = spec_context_type(or_else(json_str(payload, "context_type"@), Seq::empty()));
    let policy_version = spec_u64(json_get(payload, "policy_version"@));
    if ptype != "gateway_relay_context_snapshot"@ || class != "relay_hotpath"@ || subject is None
        || context_type is None || policy_version is None {
        None
    } else {
        let received_at = or_else(spec_i64(json_get(payload, "ts"@)), now);
        let ttl = or_else(spec_i64(json_get(payload, "default_ttl_seconds"@)), SNAPSHOT_DEFAULT_TTL_SECONDS);
        let contexts = match json_get(payload, "contexts"@) {
            Some(JsonValue::Array(items)) => spec_parse_contexts(items@, context_type.unwrap(),
                policy_version.unwrap(), received_at, ttl),
            _ => Seq::empty(),
        };
        Some(RelayContextSnapshotView {
            subject_email: subject.unwrap(),
            context_type: context_type.unwrap(),
            policy_version: policy_version.unwrap(),
            contexts,
            received_at,
        })
    }
}

fn str_or_empty(s: Option<&str>) -> (r: &str)
    ensures
        r@ == or_else(match s { Some(x) => Some(x@), None => None }, Seq::<char>::empty()),
{
    proof {
        reveal_strlit("");
        assert(""@ =~= Seq::<char>::empty());
    }
    match s {
        Some(x) => x,
        None => "",
    }
}

fn parse_context(
    item: &JsonValue,
    context_type: RelayContextType,
    policy_version: u64,
    received_at: i64,
    default_ttl: i64,
) -> (r: Option<RelayOperationContext>)
    ensures
        match r {
            Some(c) => spec_parse_context(*item, policy_version, received_at, default_ttl)
                == Some(RelayOperationContextView { context_type: c@.context_type, ..c@ })
                && c.context_type == context_type,
            None => spec_parse_context(*item, policy_version, received_at, default_ttl) is None,
        },
{
    match item {
        JsonValue::Object(_) => {}
        _ => { return None; }
    }
    let context_id = match non_blank_exec(item.get_str("context_id")) { Some(v) => v, None => { return None; } };
    let operation_key = match non_blank_exec(item.get_str("operation_key")) { Some(v) => v, None => { return None; } };
    let subject = match non_blank_exec(item.get_str("authorized_subject")) { Some(v) => v, None => { return None; } };
    let state_text: &str = match item.get_str("state") { Some(s) => s, None => "active" };
    let state = match parse_context_state(state_text) { Some(s) => s, None => { return None; } };
    let pv = match parse_u64(item.get("policy_version")) { Some(v) => v, None => policy_version };
    let opened_at = match parse_i64(item.get("opened_at")) { Some(v) => v, None => received_at };
    let updated_at = match parse_i64(item.get("updated_at")) { Some(v) => v, None => received_at };
    let expires_at = match parse_i64(item.get("expires_at")) {
        Some(v) => v,
        None => saturating_add_i64(received_at, default_ttl),
    };
    let grant = match item.get("grant") {
        Some(g) => match g {
            JsonValue::Object(_) => g,
            _ => { return None; }
        },
        None => { return None; }
    };
    let grant_id = match non_blank_exec(grant.get_str("grant_id")) { Some(v) => v, None => { return None; } };
    let grant_pv = match parse_u64(grant.get("policy_version")) { Some(v) => v, None => pv };
    let grant_issued_at = match parse_i64(grant.get("issued_at")) { Some(v) => v, None => received_at };
    let grant_expires_at = match parse_i64(grant.get("expires_at")) { Some(v) => v, None => expires_at };
    let scope = match item.get("audience_scope") {
        Some(s) => match s {
            JsonValue::Object(_) => s,
            _ => { return None; }
        },
        None => { return None; }
    };
    let mode = match parse_scope_mode(str_or_empty(scope.get_str("mode"))) { Some(m) => m, None => { return None; } };
    let peers = scope.get_strings("peers");
    let families = item.get_strings("allowed_command_families");
    Some(RelayOperationContext {
        context_id,
        operation_key,
        operation_class: String::from_str("relay_hotpath"),
        context_type,
        state,
        authorized_subject: subject,
        audience_scope: RelayAudienceScope { mode, peers },
        allowed_command_families: families,
        policy_version: pv,
        grant: RelayGrant {
            grant_id,
            policy_version: grant_pv,
            issued_at: grant_issued_at,
            expires_at: grant_expires_at,
        },
        opened_at,
        updated_at,
        expires_at,
    })
}

/// The relay context snapshot an outbox payload carries (see
/// `spec_parse_snapshot`), with `now_ts` as the time when it has none.
pub fn parse_relay_context_snapshot_at(payload: &JsonValue, now_ts: i64) -> (r: Option<RelayContextSnapshot>)
    ensures
        match r {
            Some(s) => spec_parse_snapshot(*payload, now_ts) == Some(s@),
            None => spec_parse_snapshot(*payload, now_ts) is None,
        },
{
    let ptype = str_or_empty(payload.get_str("type"));
    if !str_eq(ptype, "gateway_relay_context_snapshot") {
        return None;
    }
    let class = lowercase_text(trim_text(str_or_empty(payload.get_str("operation_class"))));
    if !str_eq(class.as_str(), "relay_hotpath") {
        return None;
    }
    let subject = match non_blank_exec(payload.get_str("subject")) { Some(s) => s, None => { return None; } };
    let context_type = match parse_context_type(str_or_empty(payload.get_str("context_type"))) {
        Some(t) => t,
        None => { return None; }
    };
    let policy_version = match parse_u64(payload.get("policy_version")) { Some(v) => v, None => { return None; } };
    let received_at = match parse_i64(payload.get("ts")) { Some(v) => v, None => now_ts };
    let ttl = match parse_i64(payload.get("default_ttl_seconds")) { Some(v) => v, None => SNAPSHOT_DEFAULT_TTL_SECONDS };
    let mut contexts: Vec<RelayOperationContext> = Vec::new();
    match payload.get("contexts") {
        Some(JsonValue::Array(items)) => {
            let mut i: usize = 0;
            proof { assert(items@.take(0) =~= Seq::<JsonValue>::empty()); }
            while i < items.len()
                invariant
                    i <= items@.len(),
                    context_views(contexts@) == spec_parse_contexts(items@.take(i as int), context_type,
                        policy_version, received_at, ttl),
                decreases items@.len() - i,
            {
                proof {
                    assert(items@.take(i + 1).drop_last() =~= items@.take(i as int));
                    assert(items@.take(i + 1).last() == items@[i as int]);
                }
                match parse_context(&items[i], context_type, policy_version, received_at, ttl) {
                    Some(c) => {
                        let ghost before = contexts@;
                        contexts.push(c);
                        proof { assert(context_views(contexts@) =~= context_views(before).push(c@)); }
                    }
                    None => {}
                }
                i = i + 1;
            }
            proof { assert(items@.take(items@.len() as int) =~= items@); }
        }
        _ => {
            proof { assert(context_views(contexts@) =~= Seq::<RelayOperationContextView>::empty()); }
        }
    }
    Some(RelayContextSnapshot { subject_email: subject, context_type, policy_version, contexts, received_at })
}

/// The relay context snapshot an outbox payload carries, taking the current
/// time when it gives none (see `parse_relay_context_snapshot_at`).
pub fn parse_relay_context_snapshot(payload: &JsonValue) -> (r: Option<RelayContextSnapshot>)
    ensures
        exists|now: i64| match r {
            Some(s) => spec_parse_snapshot(*payload, now) == Some(s@),
            None => spec_parse_snapshot(*payload, now) is None,
        },
{
    let now_ts = unix_seconds_now();
    parse_relay_context_snapshot_at(payload, now_ts)
}

/// A reply of the stream server.
#[derive(Debug)]
pub enum RespValue {
    Nil,
    Data(Vec<u8>),
    Bulk(Vec<RespValue>),
    /// Any other reply, by its description.
    Other(String),
}

/// What `String::from_utf8_lossy` makes of a byte string.
pub uninterp spec fn spec_utf8_lossy(bytes: Seq<u8>) -> Seq<char>;

/// Calls `String::from_utf8_lossy`: valid UTF-8 is decoded as it is; each
/// invalid sequence becomes U+FFFD (that replacement is not restated here).
#[verifier::external_body]
fn utf8_lossy(bytes: &Vec<u8>) -> (r: String)
    ensures
        r@ == spec_utf8_lossy(bytes@),
        vstd::utf8::valid_utf8(bytes@) ==> r@ == vstd::utf8::decode_utf8(bytes@),
{
    String::from_utf8_lossy(bytes).to_string()
}

/// One entry of a stream: its id and its field/value pairs, in order.
#[derive(Clone, Debug)]
pub struct XreadEntry {
    pub id: String,
    pub fields: Vec<(String, String)>,
}

/// The entries read from one stream.
#[derive(Clone, Debug)]
pub struct XreadStream {
    pub name: String,
    pub entries: Vec<XreadEntry>,
}

/// The field/value pairs of an entry: consecutive pairs of replies, where
/// both are data (other pairs are skipped; an odd reply at the end is
/// ignored).
pub open spec fn spec_fields(items: Seq<RespValue>) -> Seq<(Seq<char>, Seq<char>)>
    decreases items.len(),
{
    if items.len() < 2 {
        Seq::empty()
    } else {
        let rest = spec_fields(items.skip(2));
        match (items[0], items[1]) {
            (RespValue::Data(k), RespValue::Data(v)) => seq![(spec_utf8_lossy(k@), spec_utf8_lossy(v@))] + rest,
            _ => rest,
        }
    }
}

/// An entry reply: a pair of an id and a list of fields.
pub open spec fn spec_entry(e: RespValue) -> Option<(Seq<char>, Seq<(Seq<char>, Seq<char>)>)> {
    match e {
        RespValue::Bulk(parts) => {
            if parts@.len() != 2 {
                None
            } else {
                match (parts@[0], parts@[1]) {
                    (RespValue::Data(id), RespValue::Bulk(fields)) => Some((spec_utf8_lossy(id@), spec_fields(fields@))),
                    _ => None,
                }
            }
        },
        _ => None,
    }
}

/// The well-formed entries of a list of entry replies, in order.
pub open spec fn spec_entries(es: Seq<RespValue>) -> Seq<(Seq<char>, Seq<(Seq<char>, Seq<char>)>)>
    decreases es.len(),
{
    if es.len() == 0 {
        Seq::empty()
    } else {
        let rest = spec_entries(es.drop_last());
        match spec_entry(es.last()) {
            Some(e) => rest.push(e),
            None => rest,
        }
    }
}

/// A stream reply: a pair of a name and a list of entries.
pub open spec fn spec_stream(s: RespValue) -> Option<(Seq<char>, Seq<(Seq<char>, Seq<(Seq<char>, Seq<char>)>)>)> {
    match s {
        RespValue::Bulk(parts) => {
            if parts@.len() != 2 {
                None
            } else {
                match (parts@[0], parts@[1]) {
                    (RespValue::Data(name), RespValue::Bulk(entries)) => Some((spec_utf8_lossy(name@), spec_entries(entries@))),
                    _ => None,
                }
            }
        },
        _ => None,
    }
}

/// The well-formed streams of a list of stream replies, in order.
pub open spec fn spec_streams(ss: Seq<RespValue>) -> Seq<(Seq<char>, Seq<(Seq<char>, Seq<(Seq<char>, Seq<char>)>)>)>
    decreases ss.len(),
{
    if ss.len() == 0 {
        Seq::empty()
    } else {
        let rest = spec_streams(ss.drop_last());
        match spec_stream(ss.last()) {
            Some(s) => rest.push(s),
            None => rest,
        }
    }
}

/// The plain view of an entry.
pub open spec fn entry_view(e: XreadEntry) -> (Seq<char>, Seq<(Seq<char>, Seq<char>)>) {
    (e.id@, e.fields@.map_values(|p: (String, String)| (p.0@, p.1@)))
}

/// The plain view of a stream.
pub open spec fn stream_view(s: XreadStream) -> (Seq<char>, Seq<(Seq<char>, Seq<(Seq<char>, Seq<char>)>)>) {
    (s.name@, s.entries@.map_values(|e: XreadEntry| entry_view(e)))
}

fn parse_fields(items: &Vec<RespValue>) -> (r: Vec<(String, String)>)
    ensures
        r@.map_values(|p: (String, String)| (p.0@, p.1@)) == spec_fields(items@),
{
    let ghost all = items@;
    let mut out: Vec<(String, String)> = Vec::new();
    let mut k: usize = 0;
    proof {
        assert(all.skip(0) =~= all);
        assert(out@.map_values(|p: (String, String)| (p.0@, p.1@)) + spec_fields(all.skip(0)) =~= spec_fields(all));
    }
    while items.len() - k >= 2
        invariant
            k <= items@.len(),
            all == items@,
            out@.map_values(|p: (String, String)| (p.0@, p.1@)) + spec_fields(all.skip(k as int)) == spec_fields(all),
        decreases items@.len() - k,
    {
        let ghost before = out@.map_values(|p: (String, String)| (p.0@, p.1@));
        proof {
            let s = all.skip(k as int);
            assert(s[0] == all[k as int] && s[1] == all[k + 1]);
            assert(s.skip(2) =~= all.skip(k + 2));
        }
        match (&items[k], &items[k + 1]) {
            (RespValue::Data(key), RespValue::Data(value)) => {
                let pair = (utf8_lossy(key), utf8_lossy(value));
                out.push(pair);
                proof {
                    assert(out@.map_values(|p: (String, String)| (p.0@, p.1@)) =~= before.push((pair.0@, pair.1@)));
                    assert(before.push((pair.0@, pair.1@)) + spec_fields(all.skip(k + 2))
                        =~= before + (seq![(pair.0@, pair.1@)] + spec_fields(all.skip(k + 2))));
                }
            }
            _ => {}
        }
        k = k + 2;
    }
    proof {
        assert(all.skip(k as int).len() < 2);
        assert(spec_fields(all.skip(k as int)) =~= Seq::<(Seq<char>, Seq<char>)>::empty());
        assert(out@.map_values(|p: (String, String)| (p.0@, p.1@)) + Seq::<(Seq<char>, Seq<char>)>::empty()
            =~= out@.map_values(|p: (String, String)| (p.0@, p.1@)));
    }
    out
}

fn parse_entry(e: &RespValue) -> (r: Option<XreadEntry>)
    ensures
        match r {
            Some(x) => spec_entry(*e) == Some(entry_view(x)),
            None => spec_entry(*e) is None,
        },
{
    match e {
        RespValue::Bulk(parts) => {
            if parts.len() != 2 {
                return None;
            }
            match (&parts[0], &parts[1]) {
                (RespValue::Data(id), RespValue::Bulk(fields)) => {
                    Some(XreadEntry { id: utf8_lossy(id), fields: parse_fields(fields) })
                }
                _ => None,
            }
        }
        _ => None,
    }
}

fn parse_stream(s: &RespValue) -> (r: Option<XreadStream>)
    ensures
        match r {
            Some(x) => spec_stream(*s) == Some(stream_view(x)),
            None => spec_stream(*s) is None,
        },
{
    match s {
        RespValue::Bulk(parts) => {
            if parts.len() != 2 {
                return None;
            }
            match (&parts[0], &parts[1]) {
                (RespValue::Data(name), RespValue::Bulk(entries)) => {
                    let mut out: Vec<XreadEntry> = Vec::new();
                    let mut i: usize = 0;
                    proof { assert(entries@.take(0) =~= Seq::<RespValue>::empty()); }
                    while i < entries.len()
                        invariant
                            i <= entries@.len(),
                            out@.map_values(|e: XreadEntry| entry_view(e)) == spec_entries(entries@.take(i as int)),
                        decreases entries@.len() - i,
                    {
                        proof {
                            assert(entries@.take(i + 1).drop_last() =~= entries@.take(i as int));
                            assert(entries@.take(i + 1).last() == entries@[i as int]);
                        }
                        match parse_entry(&entries[i]) {
                            Some(x) => {
                                let ghost before = out@.map_values(|e: XreadEntry| entry_view(e));
                                out.push(x);
                                proof { assert(out@.map_values(|e: XreadEntry| entry_view(e)) =~= before.push(entry_view(x))); }
                            }
                            None => {}
                        }
                        i = i + 1;
                    }
                    proof { assert(entries@.take(entries@.len() as int) =~= entries@); }
                    Some(XreadStream { name: utf8_lossy(name), entries: out })
                }
                _ => None,
            }
        }
        _ => None,
    }
}

/// What a stream read reply gives: no streams for nil, the well-formed
/// streams of a list (see `spec_streams`), an error naming the value for
/// anything else (a data value's bytes read as UTF-8, lossily; a reply that
/// the stream client describes is handed over as `Other` with its text).
pub open spec fn spec_parse_xread(value: RespValue) -> Result<Seq<(Seq<char>, Seq<(Seq<char>, Seq<(Seq<char>, Seq<char>)>)>)>, Seq<char>> {
    match value {
        RespValue::Nil => Ok(Seq::empty()),
        RespValue::Bulk(streams) => Ok(spec_streams(streams@)),
        RespValue::Data(bytes) => Err("unexpected redis value: "@ + spec_utf8_lossy(bytes@)),
        RespValue::Other(description) => Err("unexpected redis value: "@ + description@),
    }
}

/// Reads a stream read reply (see `spec_parse_xread`).
pub fn parse_xread(value: &RespValue) -> (r: Result<Vec<XreadStream>, String>)
    ensures
        match r {
            Ok(v) => spec_parse_xread(*value) == Ok::<_, Seq<char>>(v@.map_values(|s: XreadStream| stream_view(s))),
            Err(e) => spec_parse_xread(*value) == Err::<Seq<(Seq<char>, Seq<(Seq<char>, Seq<(Seq<char>, Seq<char>)>)>)>, Seq<char>>(e@),
        },
{
    match value {
        RespValue::Nil => {
            let v: Vec<XreadStream> = Vec::new();
            proof { assert(v@.map_values(|s: XreadStream| stream_view(s)) =~= Seq::<(Seq<char>, Seq<(Seq<char>, Seq<(Seq<char>, Seq<char>)>)>)>::empty()); }
            Ok(v)
        }
        RespValue::Bulk(streams) => {
            let mut out: Vec<XreadStream> = Vec::new();
            let mut i: usize = 0;
            proof { assert(streams@.take(0) =~= Seq::<RespValue>::empty()); }
            while i < streams.len()
                invariant
                    i <= streams@.len(),
                    out@.map_values(|s: XreadStream| stream_view(s)) == spec_streams(streams@.take(i as int)),
                decreases streams@.len() - i,
            {
                proof {
                    assert(streams@.take(i + 1).drop_last() =~= streams@.take(i as int));
                    assert(streams@.take(i + 1).last() == streams@[i as int]);
                }
                match parse_stream(&streams[i]) {
                    Some(x) => {
                        let ghost before = out@.map_values(|s: XreadStream| stream_view(s));
                        out.push(x);
                        proof { assert(out@.map_values(|s: XreadStream| stream_view(s)) =~= before.push(stream_view(x))); }
                    }
                    None => {}
                }
                i = i + 1;
            }
            proof { assert(streams@.take(streams@.len() as int) =~= streams@); }
            Ok(out)
        }
        RespValue::Data(bytes) => {
            let mut e = String::from_str("unexpected redis value: ");
            e.append(utf8_lossy(bytes).as_str());
            Err(e)
        }
        RespValue::Other(description) => {
            let mut e = String::from_str("unexpected redis value: ");
            e.append(description.as_str());
            Err(e)
        }
    }
}

/// The value of the last field named `key` (later fields override earlier ones).
pub open spec fn spec_field_value(fields: Seq<(Seq<char>, Seq<char>)>, key: Seq<char>) -> Option<Seq<char>>
    decreases fields.len(),
{
    if fields.len() == 0 {
        None
    } else if fields.last().0 == key {
        Some(fields.last().1)
    } else {
        spec_field_value(fields.drop_last(), key)
    }
}

/// The value of the last field named `key` of an entry.
pub fn field_value<'a>(entry: &'a XreadEntry, key: &str) -> (r: Option<&'a String>)
    ensures
        match r {
            Some(v) => spec_field_value(entry_view(*entry).1, key@) == Some(v@),
            None => spec_field_value(entry_view(*entry).1, key@) is None,
        },
{
    let ghost fs = entry_view(*entry).1;
    let mut i = entry.fields.len();
    proof { assert(fs.take(i as int) =~= fs); }
    while i > 0
        invariant
            i <= entry.fields@.len(),
            fs == entry_view(*entry).1,
            spec_field_value(fs, key@) == spec_field_value(fs.take(i as int), key@),
        decreases i,
    {
        let ghost t = fs.take(i as int);
        proof {
            assert(t.last() == fs[i - 1]);
            assert(fs[i - 1] == (entry.fields@[i - 1].0@, entry.fields@[i - 1].1@));
            assert(t.drop_last() =~= fs.take(i - 1));
        }
        if str_eq(entry.fields[i - 1].0.as_str(), key) {
            return Some(&entry.fields[i - 1].1);
        }
        i = i - 1;
    }
    None
}

/// What became of an outbox message.
#[derive(Clone, Debug)]
pub enum OutboxOutcome {
    /// The message names no subjects and is dropped.
    Skipped,
    /// The message was a relay context snapshot and was applied.
    SnapshotApplied,
    /// The message was delivered as `mode`.
    Dispatched { mode: DeliveryMode, result: DispatchResult, route_found: bool, routed_connection_id: Option<String> },
}

/// The state after a failed send of `text` to connection `id`: a connection
/// that refused a message is unregistered.
pub open spec fn failed_send(m: GatewayModel, id: Seq<char>, text: Seq<char>) -> GatewayModel {
    if id.len() > 0 && text.len() > 0 { spec_unregister(m, id) } else { m }
}

/// A dispatch of `text` to `subjects` with buffering, from state `m` at
/// `now`, may end in state `after` having tried `attempted` connections of
/// which `enqueued` took it (nothing happens without subjects or text).
pub open spec fn subject_dispatch(
    m: GatewayModel,
    subjects: Seq<Seq<char>>,
    text: Seq<char>,
    now: i64,
    after: GatewayModel,
    attempted: nat,
    enqueued: nat,
) -> bool {
    if subjects.len() == 0 || text.len() == 0 {
        after == m && attempted == 0 && enqueued == 0
    } else {
        dispatch_allows(m, subjects, text, true, None, now, after, attempted, enqueued)
    }
}

/// An outbox message `decoded` (with `text` its event envelope) delivered at
/// `now` from state `m` may end in state `after` with outcome `r`. A message
/// without subjects is skipped; a relay context snapshot is applied; a
/// message with a request id goes to the connection its route resolves to,
/// and when that is not possible (no route, or the connection refused it:
/// the connection is unregistered and the route cleared) to its subjects,
/// buffered for them if undelivered; any other message is pushed to its
/// subjects, buffered for them if undelivered.
pub open spec fn outbox_allows(
    m: GatewayModel,
    decoded: JsonValue,
    text: Seq<char>,
    now: i64,
    after: GatewayModel,
    r: OutboxOutcome,
) -> bool {
    let subjects = json_strings(decoded, "subjects"@);
    let payload = or_else(json_get(decoded, "payload"@), JsonValue::Null);
    if subjects.len() == 0 {
        after == m && r is Skipped
    } else if spec_parse_snapshot(payload, now) is Some {
        after == spec_apply_snapshot(m, spec_parse_snapshot(payload, now).unwrap(), now) && r is SnapshotApplied
    } else {
        match r {
            OutboxOutcome::Dispatched { mode, result, route_found, routed_connection_id } => {
                match non_blank(json_str(payload, "request_id"@)) {
                    None => {
                        &&& mode == DeliveryMode::Push
                        &&& !route_found
                        &&& routed_connection_id is None
                        &&& subject_dispatch(m, subjects, text, now, after,
                            result.attempted_count as nat, result.enqueued_count as nat)
                    },
                    Some(rid) => {
                        let resolved = spec_resolve_route(m, rid, subjects, now);
                        &&& mode == DeliveryMode::RequestResponse
                        &&& route_found == resolved.1 is Some
                        &&& match resolved.1 {
                            None => routed_connection_id is None && subject_dispatch(resolved.0, subjects, text,
                                now, after, result.attempted_count as nat, result.enqueued_count as nat),
                            Some(cid) => {
                                &&& routed_connection_id matches Some(c) && c@ == cid
                                &&& ((after == resolved.0 && result.attempted_count == 1 && result.enqueued_count == 1)
                                    || exists|a: nat, e: nat| {
                                        &&& #[trigger] subject_dispatch(
                                            spec_clear_route(failed_send(resolved.0, cid, text), rid),
                                            subjects, text, now, after, a, e)
                                        &&& result.attempted_count == (if a < usize::MAX { a + 1 } else { usize::MAX as nat })
                                        &&& result.enqueued_count == e
                                    })
                            },
                        }
                    },
                }
            },
            _ => false,
        }
    }
}

/// What a subject dispatch of `text` from state `m` hands out (see
/// `dispatch_handed`): nothing when there is no text.
pub open spec fn subject_handed(
    m: GatewayModel,
    subjects: Seq<Seq<char>>,
    text: Seq<char>,
    before: Seq<Handoff>,
    after: Seq<Handoff>,
) -> bool {
    if text.len() == 0 { after == before } else { dispatch_handed(m, subjects, text, before, after) }
}

/// What delivering outbox message `decoded` (event text `text`) at `now`
/// from state `m` hands to connections, taking the handoff record from
/// `before` to `after`: nothing for a skipped message or a snapshot; a push
/// goes to its subjects' connections; a response goes to the connection its
/// route resolves to (as one text), and when that connection refuses it, on
/// to the subjects' connections; a response without a route goes to the
/// subjects' connections.
pub open spec fn outbox_handed(
    m: GatewayModel,
    decoded: JsonValue,
    text: Seq<char>,
    now: i64,
    before: Seq<Handoff>,
    after: Seq<Handoff>,
) -> bool {
    let subjects = json_strings(decoded, "subjects"@);
    let payload = or_else(json_get(decoded, "payload"@), JsonValue::Null);
    if subjects.len() == 0 || spec_parse_snapshot(payload, now) is Some {
        after == before
    } else {
        match non_blank(json_str(payload, "request_id"@)) {
            None => subject_handed(m, subjects, text, before, after),
            Some(rid) => {
                let resolved = spec_resolve_route(m, rid, subjects, now);
                match resolved.1 {
                    None => subject_handed(resolved.0, subjects, text, before, after),
                    Some(cid) => {
                        let routed = if cid.len() > 0 && text.len() > 0 && has_connection(resolved.0.connections, cid) {
                            before.push(Handoff { connection_id: cid, message: HandedMessage::Text(text) })
                        } else {
                            before
                        };
                        ||| after == routed
                        ||| subject_handed(spec_clear_route(failed_send(resolved.0, cid, text), rid), subjects, text,
                            routed, after)
                    },
                }
            },
        }
    }
}

/// Delivers one outbox message at `now_ts` (see `outbox_allows`): `decoded`
/// is the message and `text` its event envelope (`{"type":"event","payload":...}`).
pub fn handle_outbox_message(state: &mut GatewayState, decoded: &JsonValue, text: String, now_ts: i64) -> (r: OutboxOutcome)
    requires
        old(state).wf(),
    ensures
        final(state).wf(),
        outbox_allows(old(state)@, *decoded, text@, now_ts, final(state)@, r),
        outbox_handed(old(state)@, *decoded, text@, now_ts, old(state).handoffs(), final(state).handoffs()),
{
    let subjects = decoded.get_strings("subjects");
    if subjects.len() == 0 {
        return OutboxOutcome::Skipped;
    }
    let null = JsonValue::Null;
    let payload: &JsonValue = match decoded.get("payload") {
        Some(p) => p,
        None => &null,
    };
    if let Some(snapshot) = parse_relay_context_snapshot_at(payload, now_ts) {
        state.apply_relay_context_snapshot_at(snapshot, now_ts);
        return OutboxOutcome::SnapshotApplied;
    }
    let request_id = extract_request_id(payload);
    match request_id {
        None => {
            let result = state.send_to_subjects_at(&subjects, text, true, None, now_ts);
            proof { assert(subjects@.len() > 0); }
            OutboxOutcome::Dispatched { mode: DeliveryMode::Push, result, route_found: false, routed_connection_id: None }
        }
        Some(rid) => {
            let ghost m0 = state@;
            match state.resolve_request_route_at(rid.as_str(), subjects.as_slice(), now_ts) {
                None => {
                    let result = state.send_to_subjects_at(&subjects, text, true, None, now_ts);
                    OutboxOutcome::Dispatched {
                        mode: DeliveryMode::RequestResponse,
                        result,
                        route_found: false,
                        routed_connection_id: None,
                    }
                }
                Some(connection_id) => {
                    if state.send_to_connection(connection_id.as_str(), text.clone()) {
                        return OutboxOutcome::Dispatched {
                            mode: DeliveryMode::RequestResponse,
                            result: DispatchResult { attempted_count: 1, enqueued_count: 1 },
                            route_found: true,
                            routed_connection_id: Some(connection_id),
                        };
                    }
                    state.clear_request_route(rid.as_str());
                    let ghost m3 = state@;
                    let ghost t = text@;
                    let fallback = state.send_to_subjects_at(&subjects, text, true, None, now_ts);
                    let attempted = if fallback.attempted_count < usize::MAX { fallback.attempted_count + 1 } else { usize::MAX };
                    proof {
                        assert(subject_dispatch(m3, strs(subjects@), t, now_ts, state@,
                            fallback.attempted_count as nat, fallback.enqueued_count as nat));
                    }
                    OutboxOutcome::Dispatched {
                        mode: DeliveryMode::RequestResponse,
                        result: DispatchResult { attempted_count: attempted, enqueued_count: fallback.enqueued_count },
                        route_found: true,
                        routed_connection_id: Some(connection_id),
                    }
                }
            }
        }
    }
}

} // verus!
