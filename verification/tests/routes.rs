use realtime_gateway::routes::{
    validate_registry, CommandSpec, RelayAuthorizationEntry,
    command_registry, resolve_command_spec, resolve_message_type, resolve_relay_authorization_spec,
    validate_command_registry, AudienceScopeMode, MessageSemanticType, RelayContextType, RelayGuardClass,
    RoutingClass,
};

#[test]
fn registry_is_valid() {
    assert!(validate_command_registry().is_ok());
}

#[test]
fn critical_commands_have_expected_routing_classes() {
    let cases = [
        ("auth_login_request", RoutingClass::NoAuth),
        ("ping", RoutingClass::GatewayLocal),
        ("chat_message_send", RoutingClass::BackendControl),
        ("chat_typing_state", RoutingClass::BackendControl),
        ("presence_state", RoutingClass::BackendControl),
        ("file_transfer_offer", RoutingClass::RelayHotpath),
        ("file_transfer_chunk", RoutingClass::RelayHotpath),
        ("file_transfer_complete", RoutingClass::RelayHotpath),
        ("group_membership_accept", RoutingClass::BackendControl),
    ];
    for (command, expected_class) in cases {
        let spec = resolve_command_spec(command).expect("command must exist");
        assert_eq!(
            spec.routing_class, expected_class,
            "critical command '{}' has unexpected routing class",
            command
        );
    }
}

#[test]
fn critical_commands_have_expected_semantic_types() {
    let cases = [
        ("auth_login_request", MessageSemanticType::Technical),
        ("ping", MessageSemanticType::Technical),
        ("chat_message_send", MessageSemanticType::Command),
        ("chat_typing_state", MessageSemanticType::Signal),
        ("presence_state", MessageSemanticType::Signal),
        ("contacts_request", MessageSemanticType::Query),
        ("file_transfer_offer", MessageSemanticType::Command),
        ("file_transfer_chunk", MessageSemanticType::Command),
        ("file_transfer_complete", MessageSemanticType::Command),
        ("call_session_token_request", MessageSemanticType::Query),
        ("call_session_media_key", MessageSemanticType::Signal),
    ];
    for (command, expected_type) in cases {
        let spec = resolve_command_spec(command).expect("command must exist");
        assert_eq!(
            spec.message_type, expected_type,
            "critical command '{}' has unexpected semantic type",
            command
        );
    }
}

#[test]
fn relay_hotpath_commands_require_relay_authorization_metadata() {
    for spec in command_registry() {
        if !matches!(spec.routing_class, RoutingClass::RelayHotpath) {
            continue;
        }
        let relay = resolve_relay_authorization_spec(spec.command_name)
            .expect("relay command must have relay auth metadata");
        if spec.command_name == "file_transfer_offer" {
            assert!(!relay.requires_relay_context);
        } else {
            assert!(relay.requires_relay_context);
        }
        assert_eq!(relay.command_family, "file_transfer");
        assert_eq!(relay.operation_key_field, "transfer_id");
        assert_eq!(relay.relay_context_type, RelayContextType::FileTransferPeer);
        assert_eq!(relay.audience_scope_mode, AudienceScopeMode::FixedPeer);
        assert_eq!(relay.guard_class, RelayGuardClass::ContextBoundPeer);
    }
}

#[test]
fn registry_has_every_command_once_in_order() {
    let registry = command_registry();
    assert_eq!(registry.len(), 24);
    assert_eq!(registry[0].command_name, "auth");
    assert_eq!(registry[5].command_name, "ping");
    assert_eq!(registry[23].command_name, "session_ready");
    for (i, a) in registry.iter().enumerate() {
        for b in registry.iter().skip(i + 1) {
            assert_ne!(a.command_name, b.command_name);
        }
    }
}

#[test]
fn unknown_command_has_no_spec() {
    assert!(resolve_command_spec("does_not_exist").is_none());
    assert!(resolve_message_type("does_not_exist").is_none());
    assert!(resolve_relay_authorization_spec("chat_message_send").is_none());
}

#[test]
fn message_type_follows_registry() {
    assert_eq!(resolve_message_type("presence_state"), Some(MessageSemanticType::Signal));
    assert_eq!(resolve_message_type("mls_welcome_request"), Some(MessageSemanticType::Query));
}

#[test]
fn enum_names_are_snake_case() {
    assert_eq!(RoutingClass::NoAuth.as_str(), "no_auth");
    assert_eq!(RoutingClass::GatewayLocal.as_str(), "gateway_local");
    assert_eq!(RoutingClass::RelayHotpath.as_str(), "relay_hotpath");
    assert_eq!(RoutingClass::BackendControl.as_str(), "backend_control");
    assert_eq!(MessageSemanticType::Command.as_str(), "command");
    assert_eq!(MessageSemanticType::Query.as_str(), "query");
    assert_eq!(MessageSemanticType::Event.as_str(), "event");
    assert_eq!(MessageSemanticType::Signal.as_str(), "signal");
    assert_eq!(MessageSemanticType::Technical.as_str(), "technical");
    assert_eq!(RelayContextType::FileTransferPeer.as_str(), "file_transfer_peer");
    assert_eq!(AudienceScopeMode::FixedPeer.as_str(), "fixed_peer");
    assert_eq!(AudienceScopeMode::ContextMembers.as_str(), "context_members");
    assert_eq!(AudienceScopeMode::ExplicitSubset.as_str(), "explicit_subset");
    assert_eq!(RelayGuardClass::ContextBoundPeer.as_str(), "context_bound_peer");
}

#[test]
fn duplicate_command_is_reported() {
    let mut cmds: Vec<CommandSpec> = command_registry();
    cmds.push(CommandSpec {
        command_name: "ping",
        routing_class: RoutingClass::GatewayLocal,
        message_type: MessageSemanticType::Technical,
        mirror_to_backend: false,
    });
    let relay: Vec<RelayAuthorizationEntry> = Vec::new();
    assert_eq!(
        validate_registry(&cmds, &relay).err(),
        Some("command registry contains duplicate command 'ping'".to_string())
    );
}

#[test]
fn event_semantic_type_is_reported() {
    let cmds = vec![CommandSpec {
        command_name: "news",
        routing_class: RoutingClass::BackendControl,
        message_type: MessageSemanticType::Event,
        mirror_to_backend: false,
    }];
    let relay: Vec<RelayAuthorizationEntry> = Vec::new();
    assert_eq!(
        validate_registry(&cmds, &relay).err(),
        Some("command 'news' uses semantic type 'event' in inbound command registry".to_string())
    );
}
