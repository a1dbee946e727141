use realtime_gateway::broker::{
    extract_request_id, field_value, handle_outbox_message, parse_context_state, parse_context_type,
    parse_i64, parse_relay_context_snapshot_at, parse_scope_mode, parse_u64, parse_xread, DeliveryMode,
    OutboxOutcome, RespValue,
};
use realtime_gateway::connection::OutboundMessage;
use realtime_gateway::json::{JsonNumber, JsonValue};
use realtime_gateway::relay::RelayContextState;
use realtime_gateway::routes::{AudienceScopeMode, RelayContextType};
use realtime_gateway::state::GatewayState;
use serde_json::Value;

fn to_json(v: &Value) -> JsonValue {
    match v {
        Value::Null => JsonValue::Null,
        Value::Bool(b) => JsonValue::Bool(*b),
        Value::Number(n) => JsonValue::Number(JsonNumber { as_u64: n.as_u64(), as_i64: n.as_i64() }),
        Value::String(s) => JsonValue::String(s.clone()),
        Value::Array(items) => JsonValue::Array(items.iter().map(to_json).collect()),
        Value::Object(map) => JsonValue::Object(map.iter().map(|(k, v)| (k.clone(), to_json(v))).collect()),
    }
}

fn json(raw: &str) -> JsonValue {
    to_json(&serde_json::from_str::<Value>(raw).expect("json"))
}

fn data(s: &str) -> RespValue {
    RespValue::Data(s.as_bytes().to_vec())
}

#[test]
fn names_are_parsed_in_any_case() {
    assert_eq!(parse_context_type(" File_Transfer_Peer "), Some(RelayContextType::FileTransferPeer));
    assert_eq!(parse_context_type("other"), None);
    assert_eq!(parse_scope_mode("EXPLICIT_SUBSET"), Some(AudienceScopeMode::ExplicitSubset));
    assert_eq!(parse_scope_mode("fixed_peer"), Some(AudienceScopeMode::FixedPeer));
    assert_eq!(parse_scope_mode(""), None);
    assert_eq!(parse_context_state(" Policy_Version_Bumped"), Some(RelayContextState::PolicyVersionBumped));
    assert_eq!(parse_context_state("gone"), None);
    assert_eq!(DeliveryMode::RequestResponse.as_str(), "request_response");
    assert_eq!(DeliveryMode::Push.as_str(), "push");
}

#[test]
fn integers_are_read_from_numbers_only() {
    let v = json(r#"{"a":7,"b":-3,"c":"9","d":1.5}"#);
    assert_eq!(parse_u64(v.get("a")), Some(7));
    assert_eq!(parse_u64(v.get("b")), None);
    assert_eq!(parse_u64(v.get("c")), None);
    assert_eq!(parse_u64(v.get("d")), None);
    assert_eq!(parse_i64(v.get("b")), Some(-3));
    assert_eq!(parse_i64(None), None);
    assert_eq!(extract_request_id(&json(r#"{"request_id":"  r-2 "}"#)), Some("r-2".to_string()));
    assert_eq!(extract_request_id(&json(r#"{"request_id":"  "}"#)), None);
}

#[test]
fn snapshot_payload_is_parsed_with_defaults() {
    let payload = json(
        r#"{"type":"gateway_relay_context_snapshot","operation_class":" Relay_Hotpath ","subject":" alice@test.de ",
            "context_type":"file_transfer_peer","policy_version":5,"ts":1000,"default_ttl_seconds":60,
            "contexts":[
              {"context_id":"c1","operation_key":"ft-1","authorized_subject":"alice@test.de",
               "grant":{"grant_id":"g1"},"audience_scope":{"mode":"fixed_peer","peers":["bob@test.de",3]},
               "allowed_command_families":["file_transfer"]},
              {"context_id":"c2","operation_key":"ft-2","authorized_subject":"alice@test.de","state":"bogus",
               "grant":{"grant_id":"g2"},"audience_scope":{"mode":"fixed_peer"}},
              "not an object"
            ]}"#,
    );
    let snapshot = parse_relay_context_snapshot_at(&payload, 5).expect("snapshot");
    assert_eq!(snapshot.subject_email, "alice@test.de");
    assert_eq!(snapshot.policy_version, 5);
    assert_eq!(snapshot.received_at, 1000);
    assert_eq!(snapshot.contexts.len(), 1);
    let c = &snapshot.contexts[0];
    assert_eq!(c.state, RelayContextState::Active);
    assert_eq!(c.policy_version, 5);
    assert_eq!(c.expires_at, 1060);
    assert_eq!(c.grant.expires_at, 1060);
    assert_eq!(c.grant.policy_version, 5);
    assert_eq!(c.opened_at, 1000);
    assert_eq!(c.audience_scope.peers, vec!["bob@test.de"]);
    assert_eq!(c.operation_class, "relay_hotpath");
    let not_snapshot = json(r#"{"type":"message","subject":"a"}"#);
    assert!(parse_relay_context_snapshot_at(&not_snapshot, 5).is_none());
    let no_ts = json(r#"{"type":"gateway_relay_context_snapshot","operation_class":"relay_hotpath","subject":"a","context_type":"file_transfer_peer","policy_version":1}"#);
    assert_eq!(parse_relay_context_snapshot_at(&no_ts, 77).expect("snapshot").received_at, 77);
}

#[test]
fn xread_reply_is_parsed() {
    let reply = RespValue::Bulk(vec![
        RespValue::Bulk(vec![
            data("ws.outbox"),
            RespValue::Bulk(vec![
                RespValue::Bulk(vec![
                    data("1-0"),
                    RespValue::Bulk(vec![data("data"), data("{}"), RespValue::Nil, data("x"), data("data"), data("last"), data("odd")]),
                ]),
                RespValue::Bulk(vec![data("2-0")]),
            ]),
        ]),
        RespValue::Nil,
    ]);
    let streams = parse_xread(&reply).expect("parsed");
    assert_eq!(streams.len(), 1);
    assert_eq!(streams[0].name, "ws.outbox");
    assert_eq!(streams[0].entries.len(), 1);
    let entry = &streams[0].entries[0];
    assert_eq!(entry.id, "1-0");
    assert_eq!(entry.fields.len(), 2);
    assert_eq!(field_value(entry, "data").map(|s| s.as_str()), Some("last"));
    assert!(field_value(entry, "other").is_none());
    assert!(parse_xread(&RespValue::Nil).expect("nil").is_empty());
    assert_eq!(
        parse_xread(&RespValue::Other("int(3)".to_string())).err(),
        Some("unexpected redis value: int(3)".to_string())
    );
    let lossy = parse_xread(&RespValue::Data(vec![0x61, 0xff])).err().expect("error");
    assert_eq!(lossy, "unexpected redis value: a\u{fffd}");
}

fn texts(rx: &mut tokio::sync::mpsc::UnboundedReceiver<OutboundMessage>) -> Vec<String> {
    let mut out = Vec::new();
    while let Ok(OutboundMessage::Text(t)) = rx.try_recv() {
        out.push(t);
    }
    out
}

#[test]
fn outbox_messages_are_routed() {
    let mut state = GatewayState::new(None);
    let now = chrono::Utc::now().timestamp();
    let (_info, mut rx, _) = state.register_connection(
        "conn-a".to_string(),
        "alice@test.de".to_string(),
        String::new(),
        vec!["user:alice@test.de".to_string()],
        now,
    );
    let skipped = handle_outbox_message(&mut state, &json(r#"{"payload":{}}"#), "t".to_string(), now);
    assert!(matches!(skipped, OutboxOutcome::Skipped));

    let push = handle_outbox_message(&mut state, &json(r#"{"subjects":["user:alice@test.de"],"payload":{"type":"x"}}"#), "p1".to_string(), now);
    match push {
        OutboxOutcome::Dispatched { mode, result, route_found, .. } => {
            assert_eq!(mode, DeliveryMode::Push);
            assert_eq!(result.enqueued_count, 1);
            assert!(!route_found);
        }
        other => panic!("unexpected {other:?}"),
    }
    assert_eq!(texts(&mut rx), vec!["p1".to_string()]);

    state.bind_request_route_at("req-9", "conn-a", "alice@test.de", now);
    let routed = handle_outbox_message(&mut state, &json(r#"{"subjects":["user:alice@test.de"],"payload":{"request_id":"req-9"}}"#), "r1".to_string(), now);
    match routed {
        OutboxOutcome::Dispatched { mode, result, route_found, routed_connection_id } => {
            assert_eq!(mode, DeliveryMode::RequestResponse);
            assert!(route_found);
            assert_eq!(routed_connection_id, Some("conn-a".to_string()));
            assert_eq!(result.attempted_count, 1);
            assert_eq!(result.enqueued_count, 1);
        }
        other => panic!("unexpected {other:?}"),
    }
    assert_eq!(texts(&mut rx), vec!["r1".to_string()]);

    let fallback = handle_outbox_message(&mut state, &json(r#"{"subjects":["user:bob@test.de"],"payload":{"request_id":"unknown"}}"#), "f1".to_string(), now);
    match fallback {
        OutboxOutcome::Dispatched { mode, result, route_found, .. } => {
            assert_eq!(mode, DeliveryMode::RequestResponse);
            assert!(!route_found);
            assert_eq!(result.attempted_count, 0);
        }
        other => panic!("unexpected {other:?}"),
    }
    let (_b, mut bob_rx, _) = state.register_connection(
        "conn-b".to_string(),
        "bob@test.de".to_string(),
        String::new(),
        vec!["user:bob@test.de".to_string()],
        now,
    );
    assert_eq!(texts(&mut bob_rx), vec!["f1".to_string()]);

    let snapshot = json(r#"{"subjects":["user:alice@test.de"],"payload":{"type":"gateway_relay_context_snapshot","operation_class":"relay_hotpath","subject":"alice@test.de","context_type":"file_transfer_peer","policy_version":2}}"#);
    assert!(matches!(handle_outbox_message(&mut state, &snapshot, "s".to_string(), now), OutboxOutcome::SnapshotApplied));
    assert_eq!(state.list_relay_contexts_for_subject("ALICE@test.de").expect("applied").policy_version, 2);
}
