//! The preauth stage of a connection: which initial auth payloads are
//! accepted, what is checked with the auth backend, and how the backend's
//! answer is read.

use vstd::prelude::*;
use crate::clock::unix_micros_now;
use crate::json::{json_str, JsonValue};
use crate::ingress::trimmed_or_empty;
use crate::project::preauth_config::{
    compose_dropbox_guest_user_id, resolve_http_path, spec_dropbox_guest_user_id, spec_http_path,
};
use crate::routes::{command_entry_of, resolve_command_spec, RoutingClass};
use crate::text::{append_decimal, decimal_text, spec_trim, str_eq, trim_text};

verus! {

/// The message type of a successful public dropbox authentication.
pub const DROPBOX_AUTH_OK_TYPE: &'static str = "dropbox_public_auth_ok";


/// Why an initial auth payload was refused, as sent back in `auth_error`.
#[derive(Clone, Debug)]
pub struct PreAuthFailure {
    pub code: String,
    pub message: String,
    pub request_id: Option<String>,
}

/// What an accepted initial auth payload asks for.
#[derive(Clone, Debug)]
pub enum PreAuthPlan {
    /// A token to verify as it is.
    Token { token: String, client_instance_id: String },
    /// Credentials to check with the auth backend at `path`; its token is
    /// then confirmed with a message of type `ok_type`.
    Backend {
        command: String,
        path: &'static str,
        body: Vec<(String, String)>,
        ok_type: &'static str,
        request_id: Option<String>,
        client_instance_id: String,
    },
    /// A guest of a public dropbox.
    Dropbox { slug: String, request_id: Option<String>, client_instance_id: String },
}

/// A refusal as plain values.
pub struct FailureView {
    pub code: Seq<char>,
    pub message: Seq<char>,
    pub request_id: Option<Seq<char>>,
}

/// A plan as plain values.
pub enum PlanView {
    Token { token: Seq<char>, client_instance_id: Seq<char> },
    Backend {
        command: Seq<char>,
        path: Seq<char>,
        body: Seq<(Seq<char>, Seq<char>)>,
        ok_type: Seq<char>,
        request_id: Option<Seq<char>>,
        client_instance_id: Seq<char>,
    },
    Dropbox { slug: Seq<char>, request_id: Option<Seq<char>>, client_instance_id: Seq<char> },
}

/// The plain view of an optional string.
pub open spec fn opt_text(s: Option<String>) -> Option<Seq<char>> {
    match s {
        Some(x) => Some(x@),
        None => None,
    }
}

/// The plain view of a refusal.
pub open spec fn failure_view(f: PreAuthFailure) -> FailureView {
    FailureView { code: f.code@, message: f.message@, request_id: opt_text(f.request_id) }
}

/// The plain view of a list of name/value pairs.
pub open spec fn pairs_view(v: Seq<(String, String)>) -> Seq<(Seq<char>, Seq<char>)> {
    v.map_values(|p: (String, String)| (p.0@, p.1@))
}

/// The plain view of a plan.
pub open spec fn plan_view(p: PreAuthPlan) -> PlanView {
    match p {
        PreAuthPlan::Token { token, client_instance_id } => PlanView::Token {
            token: token@,
            client_instance_id: client_instance_id@,
        },
        PreAuthPlan::Backend { command, path, body, ok_type, request_id, client_instance_id } => PlanView::Backend {
            command: command@,
            path: path@,
            body: pairs_view(body@),
            ok_type: ok_type@,
            request_id: opt_text(request_id),
            client_instance_id: client_instance_id@,
        },
        PreAuthPlan::Dropbox { slug, request_id, client_instance_id } => PlanView::Dropbox {
            slug: slug@,
            request_id: opt_text(request_id),
            client_instance_id: client_instance_id@,
        },
    }
}

/// A refusal.
pub open spec fn fail(code: Seq<char>, message: Seq<char>, request_id: Option<Seq<char>>) -> Result<PlanView, FailureView> {
    Err(FailureView { code, message, request_id })
}

/// The request id of a payload: trimmed, at most 128 chars, absent when blank.
pub open spec fn spec_request_id(value: Option<Seq<char>>) -> Option<Seq<char>> {
    match value {
        None => None,
        Some(v) => {
            let t = spec_trim(v);
            if t.len() == 0 { None } else if t.len() <= 128 { Some(t) } else { Some(t.take(128)) }
        },
    }
}

/// A char allowed in a dropbox slug: an ASCII letter or digit, `-` or `_`.
pub open spec fn slug_char(c: char) -> bool {
    ('a' <= c && c <= 'z') || ('A' <= c && c <= 'Z') || ('0' <= c && c <= '9') || c == '-' || c == '_'
}

/// A dropbox slug: not empty, at most 64 bytes, of allowed chars only.
pub open spec fn valid_slug(slug: Seq<char>) -> bool {
    &&& slug.len() > 0
    &&& vstd::utf8::encode_utf8(slug).len() <= 64
    &&& forall|i: int| 0 <= i < slug.len() ==> slug_char(#[trigger] slug[i])
}

/// Member `key` of a payload, trimmed (empty when it is not a string).
pub open spec fn field(p: JsonValue, key: Seq<char>) -> Seq<char> {
    trimmed_or_empty(json_str(p, key))
}

/// The refusal of a preauth command without a backend route.
pub open spec fn route_unconfigured(command: Seq<char>, request_id: Option<Seq<char>>) -> FailureView {
    FailureView {
        code: "auth_route_unconfigured"@,
        message: "No auth backend route configured for '"@ + command + "'."@,
        request_id,
    }
}

/// A request to the auth backend for `command`, or the refusal when the
/// command has no backend route.
pub open spec fn backend_plan(
    command: Seq<char>,
    body: Seq<(Seq<char>, Seq<char>)>,
    ok_type: Seq<char>,
    request_id: Option<Seq<char>>,
    client_instance_id: Seq<char>,
) -> Result<PlanView, FailureView> {
    match spec_http_path(command) {
        None => Err(route_unconfigured(command, request_id)),
        Some(path) => Ok(PlanView::Backend { command, path, body, ok_type, request_id, client_instance_id }),
    }
}

/// The identity fields of a registration or identity payload.
pub open spec fn identity_fields(p: JsonValue) -> Seq<(Seq<char>, Seq<char>)> {
    seq![
        ("key_id"@, field(p, "key_id"@)),
        ("algorithm"@, field(p, "algorithm"@)),
        ("public_key"@, field(p, "public_key"@)),
        ("challenge"@, field(p, "challenge"@)),
        ("signature"@, field(p, "signature"@)),
    ]
}

/// Some identity field is given.
pub open spec fn identity_requested(p: JsonValue) -> bool {
    field(p, "key_id"@).len() > 0 || field(p, "algorithm"@).len() > 0 || field(p, "public_key"@).len() > 0
        || field(p, "challenge"@).len() > 0 || field(p, "signature"@).len() > 0
}

/// Every identity field is given.
pub open spec fn identity_complete(p: JsonValue) -> bool {
    field(p, "key_id"@).len() > 0 && field(p, "algorithm"@).len() > 0 && field(p, "public_key"@).len() > 0
        && field(p, "challenge"@).len() > 0 && field(p, "signature"@).len() > 0
}

/// What an initial auth payload asks for, or why it is refused. Its `type`
/// (trimmed) must be a registered preauth command. `auth` needs a token;
/// `auth_login_request` an email and password; `auth_register_request` a
/// name, email and password, and all identity fields or none;
/// `auth_identity_request` an email and every identity field;
/// `dropbox_public_auth` a valid slug. Fields are trimmed.
pub open spec fn spec_plan(p: JsonValue) -> Result<PlanView, FailureView> {
    let request_id = spec_request_id(json_str(p, "request_id"@));
    let cid = field(p, "client_instance_id"@);
    let t = field(p, "type"@);
    let unsupported = fail("invalid_auth_type"@, "Unsupported auth payload type."@, request_id);
    match command_entry_of(t) {
        None => unsupported,
        Some(e) => if e.1 != RoutingClass::NoAuth {
            unsupported
        } else if t == "auth"@ {
            let token = field(p, "token"@);
            if token.len() == 0 {
                fail("missing_token"@, "Missing token."@, request_id)
            } else {
                Ok(PlanView::Token { token, client_instance_id: cid })
            }
        } else if t == "auth_login_request"@ {
            let email = field(p, "email"@);
            let password = field(p, "password"@);
            if email.len() == 0 || password.len() == 0 {
                fail("invalid_auth_payload"@, "Email and password are required."@, request_id)
            } else {
                backend_plan(t, seq![("email"@, email), ("password"@, password)], "auth_login_ok"@, request_id, cid)
            }
        } else if t == "auth_register_request"@ {
            let name = field(p, "name"@);
            let email = field(p, "email"@);
            let password = field(p, "password"@);
            if name.len() == 0 || email.len() == 0 || password.len() == 0 {
                fail("invalid_auth_payload"@, "Name, email and password are required."@, request_id)
            } else if identity_requested(p) && !identity_complete(p) {
                fail("invalid_auth_payload"@, "Identity registration payload is incomplete."@, request_id)
            } else {
                let base = seq![("name"@, name), ("email"@, email), ("password"@, password)];
                let body = if identity_requested(p) { base + identity_fields(p) } else { base };
                backend_plan(t, body, "auth_register_ok"@, request_id, cid)
            }
        } else if t == "auth_identity_request"@ {
            let email = field(p, "email"@);
            if email.len() == 0 || !identity_complete(p) {
                fail("invalid_auth_payload"@, "Identity auth payload is incomplete."@, request_id)
            } else {
                backend_plan(t, seq![("email"@, email)] + identity_fields(p), "auth_identity_ok"@, request_id, cid)
            }
        } else if t == "dropbox_public_auth"@ {
            let slug = field(p, "slug"@);
            if !valid_slug(slug) {
                fail("invalid_dropbox_slug"@, "Invalid dropbox slug."@, request_id)
            } else {
                Ok(PlanView::Dropbox { slug, request_id, client_instance_id: cid })
            }
        } else {
            unsupported
        },
    }
}

/// The request id of a payload (see `spec_request_id`).
pub fn normalize_request_id(value: Option<&str>) -> (r: Option<String>)
    ensures
        opt_text(r) == spec_request_id(match value { Some(v) => Some(v@), None => None }),
{
    let v = match value {
        Some(v) => v,
        None => { return None; }
    };
    let t = trim_text(v);
    if t.is_empty() {
        return None;
    }
    let n = t.unicode_len();
    let end: usize = if n <= 128 { n } else { 128 };
    let r = String::from_str(t.substring_char(0, end));
    proof {
        if n <= 128 {
            assert(t@.subrange(0, n as int) =~= t@);
        }
    }
    Some(r)
}

/// Whether a dropbox slug is valid (see `valid_slug`).
pub fn is_valid_dropbox_slug(slug: &str) -> (r: bool)
    ensures
        r == valid_slug(slug@),
{
    if slug.is_empty() || slug.as_bytes().len() > 64 {
        return false;
    }
    let n = slug.unicode_len();
    let mut i: usize = 0;
    while i < n
        invariant
            i <= n,
            n == slug@.len(),
            slug@.len() > 0,
            vstd::utf8::encode_utf8(slug@).len() <= 64,
            forall|j: int| 0 <= j < i ==> slug_char(#[trigger] slug@[j]),
        decreases n - i,
    {
        let c = slug.get_char(i);
        let ok = ('a' <= c && c <= 'z') || ('A' <= c && c <= 'Z') || ('0' <= c && c <= '9') || c == '-' || c == '_';
        if !ok {
            assert(!slug_char(slug@[i as int]));
            return false;
        }
        i = i + 1;
    }
    true
}

/// The refusal of a preauth command without a backend route, or its path.
pub fn resolve_preauth_http_path(command_name: &str, request_id: Option<String>) -> (r: Result<&'static str, PreAuthFailure>)
    ensures
        match r {
            Ok(path) => spec_http_path(command_name@) == Some(path@),
            Err(f) => spec_http_path(command_name@) is None
                && failure_view(f) == route_unconfigured(command_name@, opt_text(request_id)),
        },
{
    match resolve_http_path(command_name) {
        Some(path) => Ok(path),
        None => {
            let mut message = String::from_str("No auth backend route configured for '");
            message.append(command_name);
            message.append("'.");
            Err(PreAuthFailure { code: String::from_str("auth_route_unconfigured"), message, request_id })
        }
    }
}

fn failure(code: &str, message: &str, request_id: Option<String>) -> (r: PreAuthFailure)
    ensures
        failure_view(r) == (FailureView { code: code@, message: message@, request_id: opt_text(request_id) }),
{
    PreAuthFailure { code: String::from_str(code), message: String::from_str(message), request_id }
}

fn field_text(p: &JsonValue, key: &str) -> (r: String)
    ensures
        r@ == field(*p, key@),
{
    proof { reveal_strlit(""); }
    match p.get_str(key) {
        Some(v) => String::from_str(trim_text(v)),
        None => {
            let r = String::new();
            assert(r@ =~= ""@);
            r
        }
    }
}

fn pair(name: &str, value: String) -> (r: (String, String))
    ensures
        r.0@ == name@,
        r.1@ == value@,
{
    (String::from_str(name), value)
}

fn backend(
    command: String,
    body: Vec<(String, String)>,
    ok_type: &'static str,
    request_id: Option<String>,
    client_instance_id: String,
) -> (r: Result<PreAuthPlan, PreAuthFailure>)
    ensures
        match r {
            Ok(plan) => backend_plan(command@, pairs_view(body@), ok_type@, opt_text(request_id), client_instance_id@)
                == Ok::<PlanView, FailureView>(plan_view(plan)),
            Err(f) => backend_plan(command@, pairs_view(body@), ok_type@, opt_text(request_id), client_instance_id@)
                == Err::<PlanView, FailureView>(failure_view(f)),
        },
{
    match resolve_preauth_http_path(command.as_str(), request_id.clone()) {
        Ok(path) => Ok(PreAuthPlan::Backend { command, path, body, ok_type, request_id, client_instance_id }),
        Err(f) => Err(f),
    }
}

fn identity_pairs(p: &JsonValue, out: &mut Vec<(String, String)>)
    ensures
        pairs_view(final(out)@) == pairs_view(old(out)@) + identity_fields(*p),
{
    let ghost before = pairs_view(out@);
    out.push(pair("key_id", field_text(p, "key_id")));
    out.push(pair("algorithm", field_text(p, "algorithm")));
    out.push(pair("public_key", field_text(p, "public_key")));
    out.push(pair("challenge", field_text(p, "challenge")));
    out.push(pair("signature", field_text(p, "signature")));
    assert(pairs_view(out@) =~= before + identity_fields(*p));
}

/// What an initial auth payload asks for, or why it is refused (see `spec_plan`).
pub fn plan_initial_auth(auth_payload: &JsonValue) -> (r: Result<PreAuthPlan, PreAuthFailure>)
    ensures
        match r {
            Ok(plan) => spec_plan(*auth_payload) == Ok::<PlanView, FailureView>(plan_view(plan)),
            Err(f) => spec_plan(*auth_payload) == Err::<PlanView, FailureView>(failure_view(f)),
        },
{
    let p = auth_payload;
    let request_id = normalize_request_id(p.get_str("request_id"));
    let client_instance_id = field_text(p, "client_instance_id");
    let auth_type = field_text(p, "type");
    let entry = resolve_command_spec(auth_type.as_str());
    let is_preauth = match entry {
        Some(spec) => spec.routing_class == RoutingClass::NoAuth,
        None => false,
    };
    if !is_preauth {
        return Err(failure("invalid_auth_type", "Unsupported auth payload type.", request_id));
    }
    if str_eq(auth_type.as_str(), "auth") {
        let token = field_text(p, "token");
        if token.as_str().is_empty() {
            return Err(failure("missing_token", "Missing token.", request_id));
        }
        return Ok(PreAuthPlan::Token { token, client_instance_id });
    }
    if str_eq(auth_type.as_str(), "auth_login_request") {
        let email = field_text(p, "email");
        let password = field_text(p, "password");
        if email.as_str().is_empty() || password.as_str().is_empty() {
            return Err(failure("invalid_auth_payload", "Email and password are required.", request_id));
        }
        let mut body: Vec<(String, String)> = Vec::new();
        body.push(pair("email", email));
        body.push(pair("password", password));
        proof {
            assert(pairs_view(body@) =~= seq![("email"@, field(*p, "email"@)), ("password"@, field(*p, "password"@))]);
        }
        return backend(auth_type, body, "auth_login_ok", request_id, client_instance_id);
    }
    if str_eq(auth_type.as_str(), "auth_register_request") {
        let name = field_text(p, "name");
        let email = field_text(p, "email");
        let password = field_text(p, "password");
        if name.as_str().is_empty() || email.as_str().is_empty() || password.as_str().is_empty() {
            return Err(failure("invalid_auth_payload", "Name, email and password are required.", request_id));
        }
        let key_id = field_text(p, "key_id");
        let algorithm = field_text(p, "algorithm");
        let public_key = field_text(p, "public_key");
        let challenge = field_text(p, "challenge");
        let signature = field_text(p, "signature");
        let requested = !key_id.as_str().is_empty() || !algorithm.as_str().is_empty()
            || !public_key.as_str().is_empty() || !challenge.as_str().is_empty() || !signature.as_str().is_empty();
        let complete = !key_id.as_str().is_empty() && !algorithm.as_str().is_empty()
            && !public_key.as_str().is_empty() && !challenge.as_str().is_empty() && !signature.as_str().is_empty();
        if requested && !complete {
            return Err(failure("invalid_auth_payload", "Identity registration payload is incomplete.", request_id));
        }
        let mut body: Vec<(String, String)> = Vec::new();
        body.push(pair("name", name));
        body.push(pair("email", email));
        body.push(pair("password", password));
        let ghost base = pairs_view(body@);
        proof {
            assert(base =~= seq![("name"@, field(*p, "name"@)), ("email"@, field(*p, "email"@)),
                ("password"@, field(*p, "password"@))]);
        }
        if requested {
            identity_pairs(p, &mut body);
        }
        return backend(auth_type, body, "auth_register_ok", request_id, client_instance_id);
    }
    if str_eq(auth_type.as_str(), "auth_identity_request") {
        let email = field_text(p, "email");
        let key_id = field_text(p, "key_id");
        let algorithm = field_text(p, "algorithm");
        let public_key = field_text(p, "public_key");
        let challenge = field_text(p, "challenge");
        let signature = field_text(p, "signature");
        if email.as_str().is_empty() || key_id.as_str().is_empty() || algorithm.as_str().is_empty()
            || public_key.as_str().is_empty() || challenge.as_str().is_empty() || signature.as_str().is_empty() {
            return Err(failure("invalid_auth_payload", "Identity auth payload is incomplete.", request_id));
        }
        let mut body: Vec<(String, String)> = Vec::new();
        body.push(pair("email", email));
        proof { assert(pairs_view(body@) =~= seq![("email"@, field(*p, "email"@))]); }
        identity_pairs(p, &mut body);
        return backend(auth_type, body, "auth_identity_ok", request_id, client_instance_id);
    }
    if str_eq(auth_type.as_str(), "dropbox_public_auth") {
        let slug = field_text(p, "slug");
        if !is_valid_dropbox_slug(slug.as_str()) {
            return Err(failure("invalid_dropbox_slug", "Invalid dropbox slug.", request_id));
        }
        return Ok(PreAuthPlan::Dropbox { slug, request_id, client_instance_id });
    }
    Err(failure("invalid_auth_type", "Unsupported auth payload type.", request_id))
}

/// The guest user id of a dropbox session opened now (see
/// `spec_dropbox_guest_user_id`).
pub fn dropbox_guest_user_id(slug: &str) -> (r: String)
    ensures
        exists|micros: i64| r@ == spec_dropbox_guest_user_id(slug@, micros as int),
{
    let micros = unix_micros_now();
    compose_dropbox_guest_user_id(slug, micros)
}

/// Text `s` without the `/` chars at its end.
pub open spec fn strip_trailing_slashes(s: Seq<char>) -> Seq<char>
    decreases s.len(),
{
    if s.len() > 0 && s.last() == '/' { strip_trailing_slashes(s.drop_last()) } else { s }
}

/// The URL of a backend route: the configured base (trimmed, without
/// trailing `/`) followed by `path`; refused when no base is configured.
pub fn auth_backend_url(base: &str, path: &str, request_id: Option<String>) -> (r: Result<String, PreAuthFailure>)
    ensures
        ({
            let b = strip_trailing_slashes(spec_trim(base@));
            match r {
                Ok(url) => b.len() > 0 && url@ == b + path@,
                Err(f) => b.len() == 0 && failure_view(f) == (FailureView {
                    code: "auth_backend_unavailable"@,
                    message: "Auth backend is not configured."@,
                    request_id: opt_text(request_id),
                }),
            }
        }),
{
    let t = trim_text(base);
    let mut end = t.unicode_len();
    proof { assert(t@.subrange(0, end as int) =~= t@); }
    while end > 0 && t.get_char(end - 1) == '/'
        invariant
            end <= t@.len(),
            strip_trailing_slashes(t@) == strip_trailing_slashes(t@.subrange(0, end as int)),
        decreases end,
    {
        proof {
            let s = t@.subrange(0, end as int);
            assert(s.drop_last() =~= t@.subrange(0, end - 1));
        }
        end = end - 1;
    }
    proof {
        let s = t@.subrange(0, end as int);
        if end > 0 {
            assert(s.last() == t@[end - 1]);
        }
    }
    if end == 0 {
        return Err(failure("auth_backend_unavailable", "Auth backend is not configured.", request_id));
    }
    let mut url = String::from_str(t.substring_char(0, end));
    url.append(path);
    Ok(url)
}

/// The error message an auth backend answer carries: its `message`, else its
/// `error`, when a string that is not blank (trimmed).
pub open spec fn spec_error_message(v: JsonValue) -> Option<Seq<char>> {
    let m = if json_str(v, "message"@) is Some { json_str(v, "message"@) } else { json_str(v, "error"@) };
    match m {
        Some(x) => if spec_trim(x).len() > 0 { Some(spec_trim(x)) } else { None },
        None => None,
    }
}

/// The error code an auth backend answer carries: its `error`, when a string
/// that is not blank (trimmed).
pub open spec fn spec_error_code(v: JsonValue) -> Option<Seq<char>> {
    match json_str(v, "error"@) {
        Some(x) => if spec_trim(x).len() > 0 { Some(spec_trim(x)) } else { None },
        None => None,
    }
}

/// The error message of an auth backend answer (see `spec_error_message`).
pub fn extract_error_message(value: &JsonValue) -> (r: Option<String>)
    ensures
        opt_text(r) == spec_error_message(*value),
{
    let m = match value.get_str("message") {
        Some(x) => Some(x),
        None => value.get_str("error"),
    };
    match m {
        Some(x) => {
            let t = trim_text(x);
            if t.is_empty() { None } else { Some(String::from_str(t)) }
        }
        None => None,
    }
}

/// The error code of an auth backend answer (see `spec_error_code`).
pub fn extract_error_code(value: &JsonValue) -> (r: Option<String>)
    ensures
        opt_text(r) == spec_error_code(*value),
{
    match value.get_str("error") {
        Some(x) => {
            let t = trim_text(x);
            if t.is_empty() { None } else { Some(String::from_str(t)) }
        }
        None => None,
    }
}

/// What an auth backend answer with HTTP status `status` and JSON body
/// `body` gives: the token, or the refusal. A status outside 200..=299 is
/// refused with the body's error code and message, or `auth_http_{status}`
/// and "Invalid credentials." (401) / "Authentication failed ({status})";
/// a success without a non-blank token is refused as `token_missing`.
pub open spec fn spec_auth_answer(status: u16, body: JsonValue, request_id: Option<Seq<char>>) -> Result<Seq<char>, FailureView> {
    if !(200 <= status && status <= 299) {
        let message = match spec_error_message(body) {
            Some(m) => m,
            None => if status == 401 {
                "Invalid credentials."@
            } else {
                "Authentication failed ("@ + decimal_text(status as int) + ")"@
            },
        };
        let code = match spec_error_code(body) {
            Some(c) => c,
            None => "auth_http_"@ + decimal_text(status as int),
        };
        Err(FailureView { code, message, request_id })
    } else {
        let token = field(body, "token"@);
        if token.len() == 0 {
            Err(FailureView { code: "token_missing"@, message: "Auth backend did not return a token."@, request_id })
        } else {
            Ok(token)
        }
    }
}

/// Reads an auth backend answer (see `spec_auth_answer`).
pub fn interpret_auth_response(status: u16, body: &JsonValue, request_id: Option<String>) -> (r: Result<String, PreAuthFailure>)
    ensures
        match r {
            Ok(token) => spec_auth_answer(status, *body, opt_text(request_id)) == Ok::<Seq<char>, FailureView>(token@),
            Err(f) => spec_auth_answer(status, *body, opt_text(request_id)) == Err::<Seq<char>, FailureView>(failure_view(f)),
        },
{
    if !(200 <= status && status <= 299) {
        let message = match extract_error_message(body) {
            Some(m) => m,
            None => if status == 401 {
                String::from_str("Invalid credentials.")
            } else {
                let mut m = String::from_str("Authentication failed (");
                append_decimal(&mut m, status as i64);
                m.append(")");
                m
            },
        };
        let code = match extract_error_code(body) {
            Some(c) => c,
            None => {
                let mut c = String::from_str("auth_http_");
                append_decimal(&mut c, status as i64);
                c
            }
        };
        return Err(PreAuthFailure { code, message, request_id });
    }
    let token = field_text(body, "token");
    if token.as_str().is_empty() {
        return Err(failure("token_missing", "Auth backend did not return a token.", request_id));
    }
    Ok(token)
}

/// The refusal when the auth backend client cannot be set up.
pub fn client_unavailable(request_id: Option<String>) -> (r: PreAuthFailure)
    ensures
        failure_view(r) == (FailureView {
            code: "auth_backend_unavailable"@,
            message: "Could not initialize auth client."@,
            request_id: opt_text(request_id),
        }),
{
    failure("auth_backend_unavailable", "Could not initialize auth client.", request_id)
}

/// The refusal when the request to the auth backend fails.
pub fn backend_request_failed(request_id: Option<String>) -> (r: PreAuthFailure)
    ensures
        failure_view(r) == (FailureView {
            code: "auth_backend_timeout"@,
            message: "Auth backend request failed."@,
            request_id: opt_text(request_id),
        }),
{
    failure("auth_backend_timeout", "Auth backend request failed.", request_id)
}

} // verus!
