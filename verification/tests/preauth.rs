use realtime_gateway::json::{JsonNumber, JsonValue};
use realtime_gateway::preauth::{
    auth_backend_url, interpret_auth_response, is_valid_dropbox_slug, normalize_request_id, plan_initial_auth,
    resolve_preauth_http_path, PreAuthPlan,
};
use realtime_gateway::project::preauth_config::{compose_dropbox_guest_user_id, resolve_http_path};
use serde_json::Value;

fn to_json(v: &Value) -> JsonValue {
    match v {
        Value::Null => JsonValue::Null,
        Value::Bool(b) => JsonValue::Bool(*b),
        Value::Number(n) => JsonValue::Number(JsonNumber { as_u64: n.as_u64(), as_i64: n.as_i64() }),
        Value::String(s) => JsonValue::String(s.clone()),
        Value::Array(items) => JsonValue::Array(items.iter().map(to_json).collect()),
        Value::Object(map) => JsonValue::Object(map.iter().map(|(k, v)| (k.clone(), to_json(v))).collect()),
    }
}

fn json(raw: &str) -> JsonValue {
    to_json(&serde_json::from_str::<Value>(raw).expect("json"))
}

#[test]
fn rejects_non_preauth_commands() {
    let payload = json(r#"{"type":"chat_message_send","request_id":"req-1"}"#);
    let result = plan_initial_auth(&payload);
    let error = result.expect_err("chat command must be rejected in preauth stage");
    assert_eq!(error.code, "invalid_auth_type");
    assert_eq!(error.request_id, Some("req-1".to_string()));
}

#[test]
fn token_auth_needs_token() {
    let payload = json(r#"{"type":" auth ","token":"  ","client_instance_id":" tab "}"#);
    let error = plan_initial_auth(&payload).expect_err("missing token");
    assert_eq!(error.code, "missing_token");
    assert_eq!(error.message, "Missing token.");
    let payload = json(r#"{"type":"auth","token":" abc ","client_instance_id":" tab "}"#);
    match plan_initial_auth(&payload).expect("token") {
        PreAuthPlan::Token { token, client_instance_id } => {
            assert_eq!(token, "abc");
            assert_eq!(client_instance_id, "tab");
        }
        other => panic!("unexpected {other:?}"),
    }
}

#[test]
fn login_goes_to_backend() {
    let payload = json(r#"{"type":"auth_login_request","email":" a@test.de ","password":"pw","request_id":"r"}"#);
    match plan_initial_auth(&payload).expect("plan") {
        PreAuthPlan::Backend { path, body, ok_type, request_id, .. } => {
            assert_eq!(path, "/api/login_check");
            assert_eq!(ok_type, "auth_login_ok");
            assert_eq!(request_id, Some("r".to_string()));
            assert_eq!(body, vec![("email".to_string(), "a@test.de".to_string()), ("password".to_string(), "pw".to_string())]);
        }
        other => panic!("unexpected {other:?}"),
    }
    let payload = json(r#"{"type":"auth_login_request","email":"a@test.de"}"#);
    assert_eq!(plan_initial_auth(&payload).expect_err("no password").code, "invalid_auth_payload");
}

#[test]
fn register_identity_must_be_complete() {
    let payload = json(r#"{"type":"auth_register_request","name":"A","email":"a@t","password":"p","key_id":"k"}"#);
    let error = plan_initial_auth(&payload).expect_err("incomplete identity");
    assert_eq!(error.message, "Identity registration payload is incomplete.");
    let payload = json(r#"{"type":"auth_register_request","name":"A","email":"a@t","password":"p"}"#);
    match plan_initial_auth(&payload).expect("plan") {
        PreAuthPlan::Backend { path, body, .. } => {
            assert_eq!(path, "/api/register");
            assert_eq!(body.len(), 3);
        }
        other => panic!("unexpected {other:?}"),
    }
    let payload = json(r#"{"type":"auth_identity_request","email":"a@t","key_id":"k","algorithm":"x","public_key":"p","challenge":"c","signature":"s"}"#);
    match plan_initial_auth(&payload).expect("plan") {
        PreAuthPlan::Backend { path, body, ok_type, .. } => {
            assert_eq!(path, "/api/identity/login");
            assert_eq!(ok_type, "auth_identity_ok");
            assert_eq!(body.len(), 6);
            assert_eq!(body[5], ("signature".to_string(), "s".to_string()));
        }
        other => panic!("unexpected {other:?}"),
    }
}

#[test]
fn dropbox_slug_rules() {
    assert!(is_valid_dropbox_slug("team-drop_1"));
    assert!(!is_valid_dropbox_slug(""));
    assert!(!is_valid_dropbox_slug("bad slug"));
    assert!(!is_valid_dropbox_slug("ünicode"));
    assert!(!is_valid_dropbox_slug(&"a".repeat(65)));
    assert!(is_valid_dropbox_slug(&"a".repeat(64)));
    let payload = json(r#"{"type":"dropbox_public_auth","slug":"no way"}"#);
    assert_eq!(plan_initial_auth(&payload).expect_err("slug").code, "invalid_dropbox_slug");
    assert_eq!(compose_dropbox_guest_user_id("box", 1700000000123456), "public-dropbox:box:1700000000123456");
    assert_eq!(compose_dropbox_guest_user_id("box", -5), "public-dropbox:box:-5");
}

#[test]
fn request_id_is_trimmed_and_capped() {
    assert_eq!(normalize_request_id(None), None);
    assert_eq!(normalize_request_id(Some("   ")), None);
    assert_eq!(normalize_request_id(Some(" r-1 ")), Some("r-1".to_string()));
    let long = "é".repeat(200);
    assert_eq!(normalize_request_id(Some(&long)).map(|s| s.chars().count()), Some(128));
}

#[test]
fn preauth_routes() {
    assert_eq!(resolve_http_path("auth_register_request"), Some("/api/register"));
    assert_eq!(resolve_http_path("auth"), None);
    let error = resolve_preauth_http_path("auth", Some("r".to_string())).expect_err("no route");
    assert_eq!(error.code, "auth_route_unconfigured");
    assert_eq!(error.message, "No auth backend route configured for 'auth'.");
}

#[test]
fn backend_url_and_answers() {
    assert_eq!(auth_backend_url(" http://h/// ", "/api/x", None).ok(), Some("http://h/api/x".to_string()));
    assert_eq!(auth_backend_url(" / ", "/api/x", None).err().map(|f| f.code), Some("auth_backend_unavailable".to_string()));
    let ok = interpret_auth_response(200, &json(r#"{"token":" t-1 "}"#), None);
    assert_eq!(ok.ok(), Some("t-1".to_string()));
    let missing = interpret_auth_response(204, &json("{}"), None).expect_err("no token");
    assert_eq!(missing.code, "token_missing");
    let denied = interpret_auth_response(401, &json("{}"), Some("r".to_string())).expect_err("denied");
    assert_eq!(denied.code, "auth_http_401");
    assert_eq!(denied.message, "Invalid credentials.");
    assert_eq!(denied.request_id, Some("r".to_string()));
    let failed = interpret_auth_response(503, &json(r#"{"error":" busy "}"#), None).expect_err("failed");
    assert_eq!(failed.code, "busy");
    assert_eq!(failed.message, "busy");
    let failed = interpret_auth_response(500, &json(r#"{"message":"oops"}"#), None).expect_err("failed");
    assert_eq!(failed.code, "auth_http_500");
    assert_eq!(failed.message, "oops");
    let failed = interpret_auth_response(502, &json("{}"), None).expect_err("failed");
    assert_eq!(failed.message, "Authentication failed (502)");
}
