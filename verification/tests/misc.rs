use realtime_gateway::api::{check_publish_request, PublishRejection};
use realtime_gateway::auth::{key_source, select_jwt_algorithm, user_id_from_claims, validation_plan, AuthError, JwtAlgorithm, JwtKeySource};
use realtime_gateway::config::{public_key_file_to_read, Config};
use realtime_gateway::json::{JsonNumber, JsonValue};
use realtime_gateway::message::{extract_channel_id, extract_flags, MessageFlags};
use realtime_gateway::order::sorted_distinct;
use realtime_gateway::text::{append_decimal, normalize_identity, normalize_unique};
use serde_json::Value;

fn to_json(v: &Value) -> JsonValue {
    match v {
        Value::Null => JsonValue::Null,
        Value::Bool(b) => JsonValue::Bool(*b),
        Value::Number(n) => JsonValue::Number(JsonNumber { as_u64: n.as_u64(), as_i64: n.as_i64() }),
        Value::String(s) => JsonValue::String(s.clone()),
        Value::Array(items) => JsonValue::Array(items.iter().map(to_json).collect()),
        Value::Object(map) => JsonValue::Object(map.iter().map(|(k, v)| (k.clone(), to_json(v))).collect()),
    }
}

fn json(raw: &str) -> JsonValue {
    to_json(&serde_json::from_str::<Value>(raw).expect("json"))
}

fn vars(pairs: &[(&str, &str)]) -> Vec<(String, String)> {
    pairs.iter().map(|(k, v)| (k.to_string(), v.to_string())).collect()
}

#[test]
fn channel_id_fallbacks() {
    assert_eq!(extract_channel_id(&json(r#"{"channel_id":" c1 ","channel":"c2"}"#), "u"), "c1");
    assert_eq!(extract_channel_id(&json(r#"{"channel_id":"  ","topic":"t"}"#), "u"), "t");
    assert_eq!(extract_channel_id(&json(r#"{"channel_id":5}"#), "u"), "u");
}

#[test]
fn flags_prefer_nested_encryption_and_top_level_qos() {
    let f = extract_flags(&json(r#"{"encrypted":true,"flags":{"qos":"low"},"qos":""}"#));
    assert_eq!(f.encrypted, Some(true));
    assert_eq!(f.qos, Some("low".to_string()));
    let f = extract_flags(&json(r#"{"flags":{"encrypted":false,"qos":"low"},"qos":"high"}"#));
    assert_eq!(f.encrypted, Some(false));
    assert_eq!(f.qos, Some("high".to_string()));
    let f = MessageFlags::new();
    assert!(f.encrypted.is_none() && f.qos.is_none());
}

#[test]
fn config_reads_values_and_defaults() {
    let c = Config::from_vars(&vars(&[("GATEWAY_TRANSPORT", "WS"), ("JWT_LEEWAY", "5"), ("MAX_CONNECTIONS_PER_USER", "0"),
        ("CONNECTION_STALE_SECONDS", "-4"), ("CONNECTION_PRUNE_INTERVAL_SECONDS", "0"), ("WEBSOCKET_PORT", "notaport")]), None);
    assert_eq!(c.transport, "websocket");
    assert_eq!(c.jwt_alg, "RS256");
    assert_eq!(c.jwt_leeway, 5);
    assert_eq!(c.max_connections_per_user, None);
    assert_eq!(c.stale_connection_timeout_seconds, 0);
    assert_eq!(c.stale_prune_interval_seconds, 1);
    assert_eq!(c.websocket_port, 8081);
    assert_eq!(c.redis_stream, "ws.outbox");
    assert_eq!(c.cert_pemfile, "/run/certs/dev_cert.pem");
    let c = Config::from_vars(&vars(&[("MAX_CONNECTIONS_PER_USER", "3"), ("JWT_PUBLIC_KEY_FILE", "/k.pem")]), Some("PEM".to_string()));
    assert_eq!(c.transport, "webtransport");
    assert_eq!(c.max_connections_per_user, Some(3));
    assert_eq!(c.jwt_public_key, "PEM");
    assert_eq!(public_key_file_to_read(&vars(&[("JWT_PUBLIC_KEY_FILE", "/k.pem")])), Some("/k.pem".to_string()));
    assert_eq!(public_key_file_to_read(&vars(&[("JWT_PUBLIC_KEY", "x"), ("JWT_PUBLIC_KEY_FILE", "/k.pem")])), None);
}

#[test]
fn jwt_plan_follows_config() {
    assert_eq!(select_jwt_algorithm("HS384"), JwtAlgorithm::HS384);
    assert_eq!(select_jwt_algorithm("none"), JwtAlgorithm::RS256);
    let c = Config::from_vars(&vars(&[("JWT_ALG", "HS256"), ("JWT_PUBLIC_KEY", "secret"), ("JWT_ISSUER", "iss"), ("JWT_LEEWAY", "3")]), None);
    let plan = validation_plan(&c);
    assert_eq!(plan.algorithm, JwtAlgorithm::HS256);
    assert_eq!(plan.issuer, Some("iss".to_string()));
    assert_eq!(plan.audience, None);
    assert_eq!(plan.leeway, Some(3));
    assert!(matches!(key_source(&c), JwtKeySource::Configured { secret: true }));
    let c = Config::from_vars(&vars(&[]), None);
    assert!(matches!(key_source(&c), JwtKeySource::Missing));
    assert_eq!(AuthError::ConfigMissing.message(), "jwt config missing");
    let claims = json(r#"{"user_id":"alice@test.de","sub":""}"#);
    assert_eq!(user_id_from_claims(&claims, "user_id").ok(), Some("alice@test.de".to_string()));
    assert_eq!(user_id_from_claims(&claims, "sub").err(), Some(AuthError::InvalidToken));
}

#[test]
fn publish_requests_are_checked() {
    assert_eq!(check_publish_request("", None, None, 1), Ok(()));
    assert_eq!(check_publish_request("k", Some("bad"), Some("k"), 1), Err(PublishRejection::InvalidApiKey));
    assert_eq!(check_publish_request("k", None, Some("k"), 1), Ok(()));
    assert_eq!(check_publish_request("k", Some("k"), None, 0), Err(PublishRejection::MissingSubjects));
    assert_eq!(PublishRejection::MissingSubjects.code(), "missing_subjects");
}

#[test]
fn text_helpers() {
    let mut s = String::from("n=");
    append_decimal(&mut s, -9_223_372_036_854_775_808);
    assert_eq!(s, "n=-9223372036854775808");
    assert_eq!(normalize_identity("  MiXed@Case "), Some("mixed@case".to_string()));
    assert_eq!(normalize_identity("   "), None);
    let v = vec![" A ".to_string(), "a".to_string(), "".to_string(), "b".to_string()];
    assert_eq!(normalize_unique(&v), vec!["a".to_string(), "b".to_string()]);
    let sorted = sorted_distinct(vec!["b".to_string(), "a".to_string(), "b".to_string(), "B".to_string(), "é".to_string()]);
    assert_eq!(sorted, vec!["B", "a", "b", "é"]);
}

#[test]
fn numbers_are_read_as_integer_literals() {
    let c = Config::from_vars(&vars(&[("JWT_LEEWAY", "+7"), ("WEBSOCKET_PORT", "70000")]), None);
    assert_eq!(c.jwt_leeway, 7);
    assert_eq!(c.websocket_port, 8081);
    let c = Config::from_vars(&vars(&[("JWT_LEEWAY", "-3"), ("WEBSOCKET_PORT", "0081")]), None);
    assert_eq!(c.jwt_leeway, -3);
    assert_eq!(c.websocket_port, 81);
    let c = Config::from_vars(&vars(&[("JWT_LEEWAY", " 5"), ("WEBSOCKET_PORT", "-1")]), None);
    assert_eq!(c.jwt_leeway, 0);
    assert_eq!(c.websocket_port, 8081);
    let c = Config::from_vars(&vars(&[("JWT_LEEWAY", "-9223372036854775808"), ("WEBSOCKET_PORT", "+")]), None);
    assert_eq!(c.jwt_leeway, i64::MIN);
    assert_eq!(c.websocket_port, 8081);
}
