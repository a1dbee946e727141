use realtime_gateway::relay::{
    RelayAudienceScope, RelayAuthError, RelayContextSnapshot, RelayContextState, RelayGrant,
    RelayOperationContext,
};
use realtime_gateway::routes::{AudienceScopeMode, RelayAuthorizationSpec, RelayContextType, RelayGuardClass};
use realtime_gateway::connection::OutboundMessage;
use realtime_gateway::state::GatewayState;

fn now() -> i64 {
    chrono::Utc::now().timestamp()
}

fn sample_context(
    subject: &str,
    peer: &str,
    operation_key: &str,
    state: RelayContextState,
    policy_version: u64,
) -> RelayOperationContext {
    let now = now();
    RelayOperationContext {
        context_id: format!("opx-{operation_key}-{}", policy_version),
        operation_key: operation_key.to_string(),
        operation_class: "relay_hotpath".to_string(),
        context_type: RelayContextType::FileTransferPeer,
        state,
        authorized_subject: subject.to_string(),
        audience_scope: RelayAudienceScope {
            mode: AudienceScopeMode::FixedPeer,
            peers: vec![peer.to_string()],
        },
        allowed_command_families: vec!["file_transfer".to_string()],
        policy_version,
        grant: RelayGrant {
            grant_id: format!("grant-{subject}-{peer}"),
            policy_version,
            issued_at: now,
            expires_at: now + 3600,
        },
        opened_at: now,
        updated_at: now,
        expires_at: now + 3600,
    }
}

fn file_transfer_spec(requires_relay_context: bool) -> RelayAuthorizationSpec {
    RelayAuthorizationSpec {
        requires_relay_context,
        relay_context_type: RelayContextType::FileTransferPeer,
        audience_scope_mode: AudienceScopeMode::FixedPeer,
        guard_class: RelayGuardClass::ContextBoundPeer,
        command_family: "file_transfer",
        operation_key_field: "transfer_id",
    }
}

#[test]
fn relay_context_snapshot_ignores_stale_policy_version() {
    let mut state = GatewayState::new(None);
    state.apply_relay_context_snapshot(RelayContextSnapshot {
        subject_email: "alice@test.de".to_string(),
        context_type: RelayContextType::FileTransferPeer,
        policy_version: 3,
        received_at: 100,
        contexts: vec![sample_context("alice@test.de", "bob@test.de", "ft-1", RelayContextState::Active, 3)],
    });
    state.apply_relay_context_snapshot(RelayContextSnapshot {
        subject_email: "alice@test.de".to_string(),
        context_type: RelayContextType::FileTransferPeer,
        policy_version: 2,
        received_at: 101,
        contexts: vec![sample_context("alice@test.de", "charlie@test.de", "ft-2", RelayContextState::Active, 2)],
    });

    let snapshot = state.list_relay_contexts_for_subject("alice@test.de").expect("snapshot");
    assert_eq!(snapshot.policy_version, 3);
    assert_eq!(snapshot.contexts.len(), 1);
    assert_eq!(snapshot.contexts[0].audience_scope.peers, vec!["bob@test.de"]);
}

#[test]
fn relay_context_snapshot_merges_operation_updates() {
    let mut state = GatewayState::new(None);
    state.apply_relay_context_snapshot(RelayContextSnapshot {
        subject_email: "alice@test.de".to_string(),
        context_type: RelayContextType::FileTransferPeer,
        policy_version: 11,
        received_at: 110,
        contexts: vec![sample_context("alice@test.de", "bob@test.de", "ft-1", RelayContextState::Active, 11)],
    });
    state.apply_relay_context_snapshot(RelayContextSnapshot {
        subject_email: "alice@test.de".to_string(),
        context_type: RelayContextType::FileTransferPeer,
        policy_version: 12,
        received_at: 112,
        contexts: vec![sample_context("alice@test.de", "charlie@test.de", "ft-2", RelayContextState::Active, 12)],
    });

    let snapshot = state.list_relay_contexts_for_subject("alice@test.de").expect("snapshot");
    assert_eq!(snapshot.policy_version, 12);
    assert_eq!(snapshot.contexts.len(), 2);
    assert!(snapshot.contexts.iter().any(|context| context.operation_key == "ft-1"));
    assert!(snapshot.contexts.iter().any(|context| context.operation_key == "ft-2"));
}

#[test]
fn relay_authorization_rejects_policy_version_mismatch() {
    let mut state = GatewayState::new(None);
    let mut context = sample_context("alice@test.de", "bob@test.de", "ft-1", RelayContextState::Active, 4);
    context.grant.policy_version = 3;
    state.apply_relay_context_snapshot(RelayContextSnapshot {
        subject_email: "alice@test.de".to_string(),
        context_type: RelayContextType::FileTransferPeer,
        policy_version: 4,
        received_at: 10,
        contexts: vec![context],
    });

    let auth_spec = RelayAuthorizationSpec {
        requires_relay_context: true,
        relay_context_type: RelayContextType::FileTransferPeer,
        audience_scope_mode: AudienceScopeMode::FixedPeer,
        guard_class: RelayGuardClass::ContextBoundPeer,
        command_family: "file_transfer",
        operation_key_field: "transfer_id",
    };
    let result = state.authorize_relay_hotpath(
        "alice@test.de",
        "file_transfer_offer",
        auth_spec,
        "ft-1",
        &["bob@test.de".to_string()],
        None,
        None,
        11,
    );
    assert_eq!(result.err(), Some(RelayAuthError::PolicyVersionMismatch));
}

fn register(state: &mut GatewayState, id: &str, user: &str, instance: &str, connected_at: i64)
    -> tokio::sync::mpsc::UnboundedReceiver<OutboundMessage> {
    let (_info, rx, _evicted) = state.register_connection(
        id.to_string(),
        user.to_string(),
        instance.to_string(),
        vec![format!("user:{user}")],
        connected_at,
    );
    rx
}

fn texts(rx: &mut tokio::sync::mpsc::UnboundedReceiver<OutboundMessage>) -> Vec<String> {
    let mut out = Vec::new();
    while let Ok(message) = rx.try_recv() {
        if let OutboundMessage::Text(text) = message {
            out.push(text);
        }
    }
    out
}

#[test]
fn registered_connection_is_listed_and_unregistered() {
    let mut state = GatewayState::new(None);
    let _rx = register(&mut state, "conn-a", "alice@test.de", "", 100);
    let listed = state.list_connections(Some("user:alice@test.de"), None);
    assert_eq!(listed.len(), 1);
    assert_eq!(listed[0].connection_id, "conn-a");
    assert_eq!(listed[0].last_seen_at, 100);
    state.mark_connection_alive("conn-a", 150);
    assert_eq!(state.list_connections(None, Some("alice@test.de"))[0].last_seen_at, 150);
    let removed = state.unregister_connection("conn-a").expect("registered");
    assert_eq!(removed.user_id, "alice@test.de");
    assert!(state.list_connections(None, None).is_empty());
    assert!(state.unregister_connection("conn-a").is_none());
}

#[test]
fn same_client_instance_replaces_connection() {
    let mut state = GatewayState::new(None);
    let mut old_rx = register(&mut state, "conn-1", "alice@test.de", "tab-1", 100);
    let (_info, _rx, evicted) = state.register_connection(
        "conn-2".to_string(),
        "alice@test.de".to_string(),
        "tab-1".to_string(),
        vec!["user:alice@test.de".to_string()],
        101,
    );
    assert_eq!(evicted.len(), 1);
    assert_eq!(evicted[0].connection_id, "conn-1");
    match old_rx.try_recv() {
        Ok(OutboundMessage::Close { code, reason }) => {
            assert_eq!(code, 1000);
            assert_eq!(reason, "reconnect");
        }
        other => panic!("expected close, got {other:?}"),
    }
    let listed = state.list_connections(None, None);
    assert_eq!(listed.len(), 1);
    assert_eq!(listed[0].connection_id, "conn-2");
}

#[test]
fn per_user_cap_evicts_oldest() {
    let mut state = GatewayState::new(Some(2));
    let mut first = register(&mut state, "conn-1", "alice@test.de", "", 100);
    let _second = register(&mut state, "conn-2", "alice@test.de", "", 200);
    let (_info, _rx, evicted) = state.register_connection(
        "conn-3".to_string(),
        "alice@test.de".to_string(),
        String::new(),
        vec!["user:alice@test.de".to_string()],
        300,
    );
    assert_eq!(evicted.len(), 1);
    assert_eq!(evicted[0].connection_id, "conn-1");
    match first.try_recv() {
        Ok(OutboundMessage::Close { code, reason }) => {
            assert_eq!(code, 4409);
            assert_eq!(reason, "session_replaced");
        }
        other => panic!("expected close, got {other:?}"),
    }
    assert_eq!(state.list_connections(None, Some("alice@test.de")).len(), 2);
}

#[test]
fn undelivered_message_is_replayed_on_connect() {
    let mut state = GatewayState::new(None);
    let subjects = vec!["user:bob@test.de".to_string()];
    let result = state.send_to_subjects(&subjects, "hello".to_string(), true, None);
    assert_eq!(result.attempted_count, 0);
    assert_eq!(result.enqueued_count, 0);
    let mut rx = register(&mut state, "conn-b", "bob@test.de", "", now());
    assert_eq!(texts(&mut rx), vec!["hello".to_string()]);
    let again = state.send_to_subjects(&subjects, "second".to_string(), true, None);
    assert_eq!(again.attempted_count, 1);
    assert_eq!(again.enqueued_count, 1);
    assert_eq!(texts(&mut rx), vec!["second".to_string()]);
}

#[test]
fn sticky_buffer_keeps_latest_only() {
    let mut state = GatewayState::new(None);
    let subjects = vec!["user:bob@test.de".to_string()];
    state.buffer_latest_for_subjects(&subjects, "v1".to_string(), "presence");
    state.buffer_latest_for_subjects(&subjects, "v2".to_string(), "presence");
    let mut rx = register(&mut state, "conn-b", "bob@test.de", "", now());
    assert_eq!(texts(&mut rx), vec!["v2".to_string()]);
}

#[test]
fn empty_dispatch_does_nothing() {
    let mut state = GatewayState::new(None);
    let result = state.send_to_subjects(&Vec::new(), "x".to_string(), true, None);
    assert_eq!(result.attempted_count, 0);
    let result = state.send_to_subjects(&vec!["user:a".to_string()], String::new(), true, None);
    assert_eq!(result.enqueued_count, 0);
    assert!(!state.send_to_connection("missing", "x".to_string()));
}

#[test]
fn request_route_resolves_and_clears() {
    let mut state = GatewayState::new(None);
    let _rx = register(&mut state, "conn-a", "alice@test.de", "", now());
    state.bind_request_route("  req-1 ", "conn-a", "alice@test.de");
    assert_eq!(state.resolve_request_route("req-1", &[]), Some("conn-a".to_string()));
    assert_eq!(
        state.resolve_request_route("req-1", &["user:alice@test.de".to_string()]),
        Some("conn-a".to_string())
    );
    assert_eq!(state.resolve_request_route("req-1", &["user:other".to_string()]), None);
    state.clear_request_route("req-1");
    assert_eq!(state.resolve_request_route("req-1", &[]), None);
}

#[test]
fn expired_request_route_is_dropped() {
    let mut state = GatewayState::new(None);
    let _rx = register(&mut state, "conn-a", "alice@test.de", "", 0);
    state.bind_request_route_at("req-1", "conn-a", "alice@test.de", 1000);
    assert_eq!(state.resolve_request_route_at("req-1", &[], 1120), Some("conn-a".to_string()));
    assert_eq!(state.resolve_request_route_at("req-1", &[], 1121), None);
    assert_eq!(state.resolve_request_route_at("req-1", &[], 1000), None);
}

#[test]
fn stale_connections_are_pruned() {
    let mut state = GatewayState::new(None);
    let _a = register(&mut state, "conn-a", "alice@test.de", "", 100);
    let _b = register(&mut state, "conn-b", "bob@test.de", "", 200);
    let pruned = state.prune_stale_connections(300, 150);
    assert_eq!(pruned.len(), 1);
    assert_eq!(pruned[0].connection_id, "conn-a");
    assert_eq!(state.list_connections(None, None).len(), 1);
}

#[test]
fn replayed_nonce_is_refused_and_rate_limit_applies() {
    let mut state = GatewayState::new(None);
    state.apply_relay_context_snapshot(RelayContextSnapshot {
        subject_email: "Alice@Test.de ".to_string(),
        context_type: RelayContextType::FileTransferPeer,
        policy_version: 1,
        received_at: 10,
        contexts: vec![sample_context("alice@test.de", "bob@test.de", "ft-1", RelayContextState::Active, 1)],
    });
    let targets = ["Bob@Test.de".to_string()];
    let spec = file_transfer_spec(true);
    let t = now();
    let first = state
        .authorize_relay_hotpath("alice@test.de", "file_transfer_chunk", spec, " ft-1 ", &targets, Some("n-1"), Some(10), t)
        .expect("authorized");
    assert_eq!(first.context_id, "opx-ft-1-1");
    assert_eq!(first.policy_version, 1);
    let second = state.authorize_relay_hotpath(
        "alice@test.de", "file_transfer_chunk", spec, "ft-1", &targets, Some("n-1"), None, t + 10,
    );
    assert_eq!(second.err(), Some(RelayAuthError::ReplayDetected));
    let too_big = state.authorize_relay_hotpath(
        "alice@test.de", "file_transfer_chunk", spec, "ft-1", &targets, None, Some(2_000_001), t,
    );
    assert_eq!(too_big.err(), Some(RelayAuthError::PayloadTooLarge));
    let mut allowed = 1;
    let mut limited = false;
    for _ in 0..300 {
        match state.authorize_relay_hotpath("alice@test.de", "file_transfer_chunk", spec, "ft-1", &targets, None, None, t) {
            Ok(_) => allowed += 1,
            Err(RelayAuthError::RateLimited) => {
                limited = true;
                break;
            }
            Err(other) => panic!("unexpected {other:?}"),
        }
    }
    assert!(limited);
    assert_eq!(allowed, 240);
}

#[test]
fn relay_authorization_error_paths() {
    let mut state = GatewayState::new(None);
    let spec = file_transfer_spec(true);
    let targets = ["bob@test.de".to_string()];
    let t = now();
    assert_eq!(
        state.authorize_relay_hotpath("  ", "c", spec, "ft-1", &targets, None, None, t).err(),
        Some(RelayAuthError::SenderBindingInvalid)
    );
    assert_eq!(
        state.authorize_relay_hotpath("alice@test.de", "c", spec, " ", &targets, None, None, t).err(),
        Some(RelayAuthError::MissingContext)
    );
    assert_eq!(
        state.authorize_relay_hotpath("alice@test.de", "c", spec, "ft-1", &[], None, None, t).err(),
        Some(RelayAuthError::ScopeViolation)
    );
    assert_eq!(
        state.authorize_relay_hotpath("alice@test.de", "c", spec, "ft-1", &targets, None, None, t).err(),
        Some(RelayAuthError::MissingContext)
    );
    let mut expired = sample_context("alice@test.de", "bob@test.de", "ft-1", RelayContextState::Revoked, 2);
    expired.expires_at = t + 10;
    state.apply_relay_context_snapshot_at(
        RelayContextSnapshot {
            subject_email: "alice@test.de".to_string(),
            context_type: RelayContextType::FileTransferPeer,
            policy_version: 2,
            received_at: t,
            contexts: vec![expired],
        },
        t,
    );
    assert_eq!(
        state.authorize_relay_hotpath("alice@test.de", "c", spec, "ft-1", &targets, None, None, t).err(),
        Some(RelayAuthError::ContextStateInvalid(RelayContextState::Revoked))
    );
    assert_eq!(
        state.authorize_relay_hotpath("alice@test.de", "c", spec, "ft-1", &targets, None, None, t + 11).err(),
        Some(RelayAuthError::GrantExpired)
    );
    assert_eq!(RelayAuthError::ContextStateInvalid(RelayContextState::Revoked).code(), "relay_context_revoked");
    assert_eq!(RelayAuthError::RateLimited.code(), "relay_rate_limited");
}

#[test]
fn replay_queue_keeps_latest_per_subject_cap() {
    let mut state = GatewayState::new(None);
    let subjects = vec!["user:carol@test.de".to_string()];
    for i in 0..300 {
        state.requeue_for_subjects(&subjects, format!("m{i}"));
    }
    let mut rx = register(&mut state, "conn-c", "carol@test.de", "", now());
    let replayed = texts(&mut rx);
    assert_eq!(replayed.len(), 256);
    assert_eq!(replayed[0], "m44");
    assert_eq!(replayed[255], "m299");
    let mut second = register(&mut state, "conn-d", "carol@test.de", "", now());
    assert!(texts(&mut second).is_empty());
}

#[test]
fn unregister_drops_routes_to_connection() {
    let mut state = GatewayState::new(None);
    let _a = register(&mut state, "conn-a", "alice@test.de", "", now());
    let _b = register(&mut state, "conn-b", "alice@test.de", "", now());
    state.bind_request_route("req-a", "conn-a", "alice@test.de");
    state.bind_request_route("req-b", "conn-b", "alice@test.de");
    let _ = state.unregister_connection("conn-a");
    let _a2 = register(&mut state, "conn-a", "alice@test.de", "", now());
    assert_eq!(state.resolve_request_route("req-a", &[]), None);
    assert_eq!(state.resolve_request_route("req-b", &[]), Some("conn-b".to_string()));
}

#[test]
fn snapshot_for_one_subject_keeps_others_and_orders_contexts() {
    let mut state = GatewayState::new(None);
    let mut late = sample_context("alice@test.de", "bob@test.de", "ft-b", RelayContextState::Active, 1);
    late.updated_at = 200;
    let mut early = sample_context("alice@test.de", "bob@test.de", "ft-z", RelayContextState::Active, 1);
    early.updated_at = 100;
    let mut tie = sample_context("alice@test.de", "bob@test.de", "ft-a", RelayContextState::Active, 1);
    tie.updated_at = 200;
    state.apply_relay_context_snapshot(RelayContextSnapshot {
        subject_email: "alice@test.de".to_string(),
        context_type: RelayContextType::FileTransferPeer,
        policy_version: 1,
        received_at: 1,
        contexts: vec![late, early, tie],
    });
    state.apply_relay_context_snapshot(RelayContextSnapshot {
        subject_email: "dave@test.de".to_string(),
        context_type: RelayContextType::FileTransferPeer,
        policy_version: 9,
        received_at: 2,
        contexts: vec![sample_context("dave@test.de", "bob@test.de", "ft-d", RelayContextState::Active, 9)],
    });
    let alice = state.list_relay_contexts_for_subject("alice@test.de").expect("alice");
    let keys: Vec<&str> = alice.contexts.iter().map(|c| c.operation_key.as_str()).collect();
    assert_eq!(keys, vec!["ft-z", "ft-a", "ft-b"]);
    assert_eq!(alice.policy_version, 1);
    assert_eq!(state.list_relay_contexts_for_subject("DAVE@test.de").expect("dave").policy_version, 9);
    assert!(state.list_relay_contexts_for_subject("   ").is_none());
}
