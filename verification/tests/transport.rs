use realtime_gateway::auth::AuthError;
use realtime_gateway::connection::OutboundMessage;
use realtime_gateway::json::{JsonNumber, JsonValue};
use realtime_gateway::state::GatewayState;
use realtime_gateway::transport::{
    classify_outbound_event, handle_failed_outbound, normalize_bearer_token, query_param, read_websocket_auth,
    sanitize_client_instance_id, OutboundDeliveryMode,
};
use serde_json::Value;

fn to_json(v: &Value) -> JsonValue {
    match v {
        Value::Null => JsonValue::Null,
        Value::Bool(b) => JsonValue::Bool(*b),
        Value::Number(n) => JsonValue::Number(JsonNumber { as_u64: n.as_u64(), as_i64: n.as_i64() }),
        Value::String(s) => JsonValue::String(s.clone()),
        Value::Array(items) => JsonValue::Array(items.iter().map(to_json).collect()),
        Value::Object(map) => JsonValue::Object(map.iter().map(|(k, v)| (k.clone(), to_json(v))).collect()),
    }
}

#[test]
fn bearer_prefix_is_removed() {
    assert_eq!(normalize_bearer_token("  Bearer abc.def  "), "abc.def");
    assert_eq!(normalize_bearer_token("abc"), "abc");
    assert_eq!(normalize_bearer_token(" bearer x "), "bearer x");
    assert_eq!(normalize_bearer_token("Bearer "), "Bearer");
}

#[test]
fn query_parameters_are_found() {
    assert_eq!(query_param("/wt?token=abc&client_instance_id=tab-1", "token"), Some("abc".to_string()));
    assert_eq!(query_param("/wt?token=abc&client_instance_id=tab-1", "client_instance_id"), Some("tab-1".to_string()));
    assert_eq!(query_param("/wt?flag&token=a=b", "flag"), Some(String::new()));
    assert_eq!(query_param("/wt?flag&token=a=b", "token"), Some("a=b".to_string()));
    assert_eq!(query_param("/wt?token=1&token=2", "token"), Some("1".to_string()));
    assert_eq!(query_param("/wt", "token"), None);
    assert_eq!(query_param("/wt?x=1", "token"), None);
}

#[test]
fn client_instance_ids_are_sanitized() {
    assert_eq!(sanitize_client_instance_id("  tab-1.a_b "), "tab-1.a_b");
    assert_eq!(sanitize_client_instance_id("tab 1"), "");
    assert_eq!(sanitize_client_instance_id(&"x".repeat(129)), "");
    assert_eq!(sanitize_client_instance_id(&"x".repeat(128)), "x".repeat(128));
}

#[test]
fn outbound_events_are_classified() {
    let v = to_json(&serde_json::from_str::<Value>(r#"{"payload":{"request_id":" r ","type":" t "}}"#).unwrap());
    let meta = classify_outbound_event(Some(&v));
    assert_eq!(meta.mode, OutboundDeliveryMode::RequestResponse);
    assert_eq!(meta.request_id, Some("r".to_string()));
    assert_eq!(meta.event_type, Some("t".to_string()));
    let v = to_json(&serde_json::from_str::<Value>(r#"{"other":1}"#).unwrap());
    assert_eq!(classify_outbound_event(Some(&v)).mode, OutboundDeliveryMode::Push);
    assert_eq!(classify_outbound_event(None).mode, OutboundDeliveryMode::Push);
    assert_eq!(OutboundDeliveryMode::Push.as_str(), "push");
}

#[test]
fn websocket_auth_message_is_read() {
    let v = to_json(&serde_json::from_str::<Value>(r#"{"type":"auth","token":"t","client_instance_id":"c"}"#).unwrap());
    assert_eq!(read_websocket_auth(&v).ok(), Some(("t".to_string(), "c".to_string())));
    let v = to_json(&serde_json::from_str::<Value>(r#"{"type":"auth"}"#).unwrap());
    assert_eq!(read_websocket_auth(&v).err(), Some(AuthError::MissingToken));
    let v = to_json(&serde_json::from_str::<Value>(r#"{"type":"ping","token":"t"}"#).unwrap());
    assert_eq!(read_websocket_auth(&v).err(), Some(AuthError::InvalidToken));
}

#[test]
fn failed_push_is_queued_again_but_response_is_not() {
    let mut state = GatewayState::new(None);
    let subjects = vec!["user:alice@test.de".to_string()];
    let push_text = r#"{"type":"event","payload":{"type":"note"}}"#;
    let push = to_json(&serde_json::from_str::<Value>(push_text).expect("json"));
    let meta = handle_failed_outbound(&mut state, &subjects, push_text.to_string(), Some(&push));
    assert_eq!(meta.mode, OutboundDeliveryMode::Push);
    assert_eq!(meta.event_type.as_deref(), Some("note"));

    let reply_text = r#"{"type":"event","payload":{"request_id":"r1"}}"#;
    let reply = to_json(&serde_json::from_str::<Value>(reply_text).expect("json"));
    let meta = handle_failed_outbound(&mut state, &subjects, reply_text.to_string(), Some(&reply));
    assert_eq!(meta.mode, OutboundDeliveryMode::RequestResponse);
    assert_eq!(meta.request_id.as_deref(), Some("r1"));

    let now = chrono::Utc::now().timestamp();
    let (_info, mut rx, _) =
        state.register_connection("c1".to_string(), "alice@test.de".to_string(), String::new(), subjects.clone(), now);
    let mut replayed = Vec::new();
    while let Ok(OutboundMessage::Text(t)) = rx.try_recv() {
        replayed.push(t);
    }
    assert_eq!(replayed, vec![push_text.to_string()]);
}
