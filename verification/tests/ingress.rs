use realtime_gateway::connection::{ConnectionInfo, OutboundMessage};
use realtime_gateway::ingress::{collect_relay_targets, route_client_message, IngressOutcome};
use realtime_gateway::json::{JsonNumber, JsonValue};
use realtime_gateway::relay::{
    RelayAudienceScope, RelayContextSnapshot, RelayContextState, RelayGrant, RelayOperationContext,
};
use realtime_gateway::routes::{AudienceScopeMode, RelayContextType, RoutingClass};
use realtime_gateway::state::GatewayState;
use serde_json::Value;
use tokio::sync::mpsc::UnboundedReceiver;

fn to_json(v: &Value) -> JsonValue {
    match v {
        Value::Null => JsonValue::Null,
        Value::Bool(b) => JsonValue::Bool(*b),
        Value::Number(n) => JsonValue::Number(JsonNumber { as_u64: n.as_u64(), as_i64: n.as_i64() }),
        Value::String(s) => JsonValue::String(s.clone()),
        Value::Array(items) => JsonValue::Array(items.iter().map(to_json).collect()),
        Value::Object(map) => JsonValue::Object(map.iter().map(|(k, v)| (k.clone(), to_json(v))).collect()),
    }
}

fn parse_client(raw: &str) -> Value {
    serde_json::from_str::<Value>(raw).unwrap_or_else(|_| {
        let mut map = serde_json::Map::new();
        map.insert("type".to_string(), Value::String("raw".to_string()));
        map.insert("payload".to_string(), Value::String(raw.to_string()));
        Value::Object(map)
    })
}

fn event_text(payload: Value) -> String {
    let mut envelope = serde_json::Map::new();
    envelope.insert("type".to_string(), Value::String("event".to_string()));
    envelope.insert("payload".to_string(), payload);
    Value::Object(envelope).to_string()
}

/// Handles a client message the way the transports do: the outcome's
/// refusal goes back to the sender, its relay goes to the target subjects.
fn handle_client_message(state: &mut GatewayState, connection_id: &str, info: &ConnectionInfo, raw: String) {
    let data = parse_client(&raw);
    let outcome = route_client_message(state, connection_id, &info.user_id, &raw, &to_json(&data), chrono::Utc::now().timestamp());
    match outcome {
        IngressOutcome::Rejected(rejection) => {
            let mut payload = serde_json::Map::new();
            payload.insert("type".to_string(), Value::String("gateway_command_error".to_string()));
            payload.insert("command".to_string(), Value::String(rejection.command.clone()));
            payload.insert("error".to_string(), Value::String(rejection.error.to_string()));
            payload.insert("message".to_string(), Value::String(rejection.message.to_string()));
            let _ = state.send_to_connection(connection_id, event_text(Value::Object(payload)));
        }
        IngressOutcome::Accepted { relay: Some(relay), .. } => {
            let mut payload = data.clone();
            if let (Some(from), Value::Object(map)) = (relay.from.clone(), &mut payload) {
                map.insert("from".to_string(), Value::String(from));
            }
            let _ = state.send_to_subjects(&relay.subjects, event_text(payload), true, None);
        }
        _ => {}
    }
}

fn register_user_connection(
    state: &mut GatewayState,
    connection_id: &str,
    user_email: &str,
) -> (ConnectionInfo, UnboundedReceiver<OutboundMessage>) {
    let now = chrono::Utc::now().timestamp();
    let subjects = vec![format!("user:{user_email}")];
    let (info, rx, _evicted) = state.register_connection(
        connection_id.to_string(),
        user_email.to_string(),
        format!("client-{connection_id}"),
        subjects,
        now,
    );
    (info, rx)
}

fn recv_text(receiver: &mut UnboundedReceiver<OutboundMessage>) -> Option<String> {
    match receiver.try_recv() {
        Ok(OutboundMessage::Text(text)) => Some(text),
        _ => None,
    }
}

fn assert_no_message(receiver: &mut UnboundedReceiver<OutboundMessage>) {
    assert!(receiver.try_recv().is_err(), "unexpected outbound message");
}

fn extract_inner_payload(event_text: &str) -> Value {
    let parsed: Value = serde_json::from_str(event_text).expect("invalid event json");
    parsed.get("payload").cloned().expect("missing payload field")
}

fn apply_file_transfer_context(
    state: &mut GatewayState,
    sender: &str,
    peer: &str,
    operation_key: &str,
    status: RelayContextState,
    policy_version: u64,
) {
    let now = chrono::Utc::now().timestamp();
    state.apply_relay_context_snapshot(RelayContextSnapshot {
        subject_email: sender.to_string(),
        context_type: RelayContextType::FileTransferPeer,
        policy_version,
        received_at: now,
        contexts: vec![RelayOperationContext {
            context_id: format!("opx-{}", operation_key),
            operation_key: operation_key.to_string(),
            operation_class: "relay_hotpath".to_string(),
            context_type: RelayContextType::FileTransferPeer,
            state: status,
            authorized_subject: sender.to_string(),
            audience_scope: RelayAudienceScope {
                mode: AudienceScopeMode::FixedPeer,
                peers: vec![peer.to_string()],
            },
            allowed_command_families: vec!["file_transfer".to_string()],
            policy_version,
            grant: RelayGrant {
                grant_id: format!("grant-{}-{}", sender, peer),
                policy_version,
                issued_at: now,
                expires_at: now + 3600,
            },
            opened_at: now,
            updated_at: now,
            expires_at: now + 3600,
        }],
    });
}

#[test]
fn rejects_unknown_command() {
    let mut state = GatewayState::new(None);
    let (info, mut sender_rx) = register_user_connection(&mut state, "conn-a", "alice@test.de");
    handle_client_message(&mut state, "conn-a", &info, r#"{"type":"does_not_exist"}"#.to_string());
    let outbound = recv_text(&mut sender_rx).expect("expected error response");
    let payload = extract_inner_payload(&outbound);
    assert_eq!(payload.get("type").and_then(Value::as_str), Some("gateway_command_error"));
    assert_eq!(payload.get("error").and_then(Value::as_str), Some("unsupported_command"));
}

#[test]
fn rejects_preauth_command_in_runtime_channel() {
    let mut state = GatewayState::new(None);
    let (info, mut sender_rx) = register_user_connection(&mut state, "conn-a", "alice@test.de");
    handle_client_message(
        &mut state,
        "conn-a",
        &info,
        r#"{"type":"auth_login_request","email":"a@test.de","password":"x"}"#.to_string(),
    );
    let outbound = recv_text(&mut sender_rx).expect("expected error response");
    let payload = extract_inner_payload(&outbound);
    assert_eq!(payload.get("type").and_then(Value::as_str), Some("gateway_command_error"));
    assert_eq!(payload.get("error").and_then(Value::as_str), Some("preauth_only_command"));
}

#[test]
fn accepts_gateway_local_ping_without_dispatch() {
    let mut state = GatewayState::new(None);
    let (info, mut sender_rx) = register_user_connection(&mut state, "conn-a", "alice@test.de");
    handle_client_message(&mut state, "conn-a", &info, r#"{"type":"ping"}"#.to_string());
    assert_no_message(&mut sender_rx);
}

#[test]
fn relay_hotpath_file_transfer_offer_relays_to_target_without_backend() {
    let mut state = GatewayState::new(None);
    let (alice_info, mut alice_rx) = register_user_connection(&mut state, "conn-a", "alice@test.de");
    let (_bob_info, mut bob_rx) = register_user_connection(&mut state, "conn-b", "bob@test.de");
    apply_file_transfer_context(&mut state, "alice@test.de", "bob@test.de", "ft-1", RelayContextState::Active, 1);
    handle_client_message(
        &mut state,
        "conn-a",
        &alice_info,
        r#"{"type":"file_transfer_offer","transfer_id":"ft-1","to":"bob@test.de"}"#.to_string(),
    );
    let bob_event = recv_text(&mut bob_rx).expect("expected relay to target");
    let bob_payload = extract_inner_payload(&bob_event);
    assert_eq!(bob_payload.get("type").and_then(Value::as_str), Some("file_transfer_offer"));
    assert_eq!(bob_payload.get("from").and_then(Value::as_str), Some("alice@test.de"));
    assert_no_message(&mut alice_rx);
}

#[test]
fn relay_hotpath_rejects_without_context() {
    let mut state = GatewayState::new(None);
    let (alice_info, mut alice_rx) = register_user_connection(&mut state, "conn-a", "alice@test.de");
    let (_bob_info, mut bob_rx) = register_user_connection(&mut state, "conn-b", "bob@test.de");
    handle_client_message(
        &mut state,
        "conn-a",
        &alice_info,
        r#"{"type":"file_transfer_chunk","transfer_id":"ft-1","to":"bob@test.de","index":0}"#.to_string(),
    );
    let outbound = recv_text(&mut alice_rx).expect("expected relay auth error");
    let payload = extract_inner_payload(&outbound);
    assert_eq!(payload.get("type").and_then(Value::as_str), Some("gateway_command_error"));
    assert_eq!(payload.get("error").and_then(Value::as_str), Some("relay_context_missing"));
    assert_no_message(&mut bob_rx);
}

#[test]
fn relay_hotpath_without_target_is_rejected() {
    let mut state = GatewayState::new(None);
    let (alice_info, mut alice_rx) = register_user_connection(&mut state, "conn-a", "alice@test.de");
    handle_client_message(
        &mut state,
        "conn-a",
        &alice_info,
        r#"{"type":"file_transfer_chunk","transfer_id":"ft-1","index":0}"#.to_string(),
    );
    let outbound = recv_text(&mut alice_rx).expect("expected relay target error");
    let payload = extract_inner_payload(&outbound);
    assert_eq!(payload.get("type").and_then(Value::as_str), Some("gateway_command_error"));
    assert_eq!(payload.get("error").and_then(Value::as_str), Some("invalid_relay_targets"));
}

#[test]
fn relay_hotpath_rejects_revoked_context() {
    let mut state = GatewayState::new(None);
    let (alice_info, mut alice_rx) = register_user_connection(&mut state, "conn-a", "alice@test.de");
    let (_bob_info, mut bob_rx) = register_user_connection(&mut state, "conn-b", "bob@test.de");
    apply_file_transfer_context(&mut state, "alice@test.de", "bob@test.de", "ft-1", RelayContextState::Revoked, 4);
    handle_client_message(
        &mut state,
        "conn-a",
        &alice_info,
        r#"{"type":"file_transfer_chunk","transfer_id":"ft-1","to":"bob@test.de","index":0}"#.to_string(),
    );
    let outbound = recv_text(&mut alice_rx).expect("expected revoked error");
    let payload = extract_inner_payload(&outbound);
    assert_eq!(payload.get("error").and_then(Value::as_str), Some("relay_context_revoked"));
    assert_no_message(&mut bob_rx);
}

#[test]
fn relay_hotpath_rejects_closed_context() {
    let mut state = GatewayState::new(None);
    let (alice_info, mut alice_rx) = register_user_connection(&mut state, "conn-a", "alice@test.de");
    let (_bob_info, mut bob_rx) = register_user_connection(&mut state, "conn-b", "bob@test.de");
    apply_file_transfer_context(&mut state, "alice@test.de", "bob@test.de", "ft-1", RelayContextState::Closed, 5);
    handle_client_message(
        &mut state,
        "conn-a",
        &alice_info,
        r#"{"type":"file_transfer_chunk","transfer_id":"ft-1","to":"bob@test.de","index":0}"#.to_string(),
    );
    let outbound = recv_text(&mut alice_rx).expect("expected closed error");
    let payload = extract_inner_payload(&outbound);
    assert_eq!(payload.get("error").and_then(Value::as_str), Some("relay_context_closed"));
    assert_no_message(&mut bob_rx);
}

#[test]
fn relay_hotpath_rejects_policy_version_mismatch() {
    let mut state = GatewayState::new(None);
    let (alice_info, mut alice_rx) = register_user_connection(&mut state, "conn-a", "alice@test.de");
    let (_bob_info, mut bob_rx) = register_user_connection(&mut state, "conn-b", "bob@test.de");
    let now = chrono::Utc::now().timestamp();
    state.apply_relay_context_snapshot(RelayContextSnapshot {
        subject_email: "alice@test.de".to_string(),
        context_type: RelayContextType::FileTransferPeer,
        policy_version: 7,
        received_at: now,
        contexts: vec![RelayOperationContext {
            context_id: "opx-ft-1".to_string(),
            operation_key: "ft-1".to_string(),
            operation_class: "relay_hotpath".to_string(),
            context_type: RelayContextType::FileTransferPeer,
            state: RelayContextState::Active,
            authorized_subject: "alice@test.de".to_string(),
            audience_scope: RelayAudienceScope {
                mode: AudienceScopeMode::FixedPeer,
                peers: vec!["bob@test.de".to_string()],
            },
            allowed_command_families: vec!["file_transfer".to_string()],
            policy_version: 7,
            grant: RelayGrant {
                grant_id: "grant-1".to_string(),
                policy_version: 6,
                issued_at: now,
                expires_at: now + 3600,
            },
            opened_at: now,
            updated_at: now,
            expires_at: now + 3600,
        }],
    });
    handle_client_message(
        &mut state,
        "conn-a",
        &alice_info,
        r#"{"type":"file_transfer_chunk","transfer_id":"ft-1","to":"bob@test.de","index":0}"#.to_string(),
    );
    let outbound = recv_text(&mut alice_rx).expect("expected version error");
    let payload = extract_inner_payload(&outbound);
    assert_eq!(payload.get("error").and_then(Value::as_str), Some("relay_policy_version_mismatch"));
    assert_no_message(&mut bob_rx);
}

#[test]
fn relay_hotpath_rejects_scope_violation() {
    let mut state = GatewayState::new(None);
    let (alice_info, mut alice_rx) = register_user_connection(&mut state, "conn-a", "alice@test.de");
    let (_bob_info, mut bob_rx) = register_user_connection(&mut state, "conn-b", "bob@test.de");
    apply_file_transfer_context(&mut state, "alice@test.de", "charlie@test.de", "ft-1", RelayContextState::Active, 2);
    handle_client_message(
        &mut state,
        "conn-a",
        &alice_info,
        r#"{"type":"file_transfer_chunk","transfer_id":"ft-1","to":"bob@test.de","index":0}"#.to_string(),
    );
    let outbound = recv_text(&mut alice_rx).expect("expected scope violation");
    let payload = extract_inner_payload(&outbound);
    assert_eq!(payload.get("error").and_then(Value::as_str), Some("relay_scope_violation"));
    assert_no_message(&mut bob_rx);
}

#[test]
fn relay_hotpath_rejects_replay_nonce() {
    let mut state = GatewayState::new(None);
    let (alice_info, mut alice_rx) = register_user_connection(&mut state, "conn-a", "alice@test.de");
    let (_bob_info, mut bob_rx) = register_user_connection(&mut state, "conn-b", "bob@test.de");
    apply_file_transfer_context(&mut state, "alice@test.de", "bob@test.de", "ft-1", RelayContextState::Active, 3);
    let message = r#"{"type":"file_transfer_chunk","transfer_id":"ft-1","to":"bob@test.de","nonce":"n-1","ciphertext":"abc"}"#.to_string();
    handle_client_message(&mut state, "conn-a", &alice_info, message.clone());
    let first = recv_text(&mut bob_rx).expect("first chunk should pass");
    let first_payload = extract_inner_payload(&first);
    assert_eq!(first_payload.get("type").and_then(Value::as_str), Some("file_transfer_chunk"));
    handle_client_message(&mut state, "conn-a", &alice_info, message);
    let outbound = recv_text(&mut alice_rx).expect("expected replay rejection");
    let payload = extract_inner_payload(&outbound);
    assert_eq!(payload.get("error").and_then(Value::as_str), Some("relay_replay_detected"));
}

#[test]
fn backend_control_chat_typing_presence_are_not_relayed_directly() {
    let mut state = GatewayState::new(None);
    let (alice_info, mut alice_rx) = register_user_connection(&mut state, "conn-a", "alice@test.de");
    let (_bob_info, mut bob_rx) = register_user_connection(&mut state, "conn-b", "bob@test.de");
    handle_client_message(
        &mut state,
        "conn-a",
        &alice_info,
        r#"{"type":"chat_message_send","conversation_id":1,"to":"bob@test.de","ciphertext":"x"}"#.to_string(),
    );
    handle_client_message(
        &mut state,
        "conn-a",
        &alice_info,
        r#"{"type":"chat_typing_state","conversation_id":1,"to":"bob@test.de","isTyping":true}"#.to_string(),
    );
    handle_client_message(
        &mut state,
        "conn-a",
        &alice_info,
        r#"{"type":"presence_state","state":"online","to":"bob@test.de"}"#.to_string(),
    );
    assert_no_message(&mut bob_rx);
    assert_no_message(&mut alice_rx);
}

#[test]
fn backend_command_is_published_with_channel_and_flags() {
    let mut state = GatewayState::new(None);
    let (_info, _rx) = register_user_connection(&mut state, "conn-a", "alice@test.de");
    let raw = r#"{"type":"chat_message_send","request_id":" r-1 ","channel":"  room-9 ","encrypted":false,"flags":{"encrypted":true,"qos":"at_least_once"}}"#;
    let data = to_json(&parse_client(raw));
    let outcome = route_client_message(&mut state, "conn-a", "alice@test.de", raw, &data, 1000);
    match outcome {
        IngressOutcome::Accepted { relay: None, publish: Some(p) } => {
            assert_eq!(p.command_type, "chat_message_send");
            assert_eq!(p.routing_class, RoutingClass::BackendControl);
            assert_eq!(p.runtime_path, vec!["symfony"]);
            assert_eq!(p.channel_id, "room-9");
            assert_eq!(p.flags.encrypted, Some(true));
            assert_eq!(p.flags.qos, Some("at_least_once".to_string()));
        }
        other => panic!("unexpected {other:?}"),
    }
    assert_eq!(state.resolve_request_route_at("r-1", &[], 1000), Some("conn-a".to_string()));
    assert_eq!(state.list_connections(None, None)[0].last_seen_at, 1000);
}

#[test]
fn blank_or_untyped_messages() {
    let mut state = GatewayState::new(None);
    let data = to_json(&parse_client("{}"));
    assert!(matches!(route_client_message(&mut state, "c", "u", "   ", &data, 1), IngressOutcome::Ignored));
    match route_client_message(&mut state, "c", "u", "{}", &data, 1) {
        IngressOutcome::Rejected(r) => {
            assert_eq!(r.error, "invalid_command");
            assert_eq!(r.message, "Message type is required.");
            assert_eq!(r.command, "");
        }
        other => panic!("unexpected {other:?}"),
    }
    let raw = "not json";
    match route_client_message(&mut state, "c", "u", raw, &to_json(&parse_client(raw)), 1) {
        IngressOutcome::Rejected(r) => {
            assert_eq!(r.error, "unsupported_command");
            assert_eq!(r.command, "raw");
        }
        other => panic!("unexpected {other:?}"),
    }
}

#[test]
fn relay_targets_are_sorted_and_deduplicated() {
    let raw = r#"{"to":" Bob@Test.de ","recipients":["carol@test.de","bob@test.de", 5, "  "]}"#;
    let targets = collect_relay_targets(&to_json(&parse_client(raw)));
    assert_eq!(targets.emails, vec!["bob@test.de", "carol@test.de"]);
    assert_eq!(
        targets.subjects,
        vec!["user:Bob@Test.de", "user:bob@test.de", "user:carol@test.de"]
    );
}

#[test]
fn relay_operation_key_is_required() {
    let mut state = GatewayState::new(None);
    let raw = r#"{"type":"file_transfer_offer","to":"bob@test.de"}"#;
    match route_client_message(&mut state, "c", "alice@test.de", raw, &to_json(&parse_client(raw)), 1) {
        IngressOutcome::Rejected(r) => assert_eq!(r.error, "relay_operation_key_missing"),
        other => panic!("unexpected {other:?}"),
    }
}
