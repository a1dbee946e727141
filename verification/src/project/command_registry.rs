//! The gateway's command registry: every inbound command type with its
//! routing class, semantic type and backend mirroring, and the relay
//! authorization metadata of the relay commands.

use vstd::prelude::*;
use crate::routes::{
    AudienceScopeMode, CommandSpec, MessageSemanticType, RelayAuthorizationEntry,
    RelayAuthorizationSpec, RelayContextType, RelayGuardClass, RoutingClass,
};

verus! {

/// Number of entries in the command registry.
pub const COMMAND_COUNT: usize = 24;

/// Entry `i` of the command registry: name, routing class, semantic type, mirror flag.
pub open spec fn registry_entry(i: int) -> (Seq<char>, RoutingClass, MessageSemanticType, bool) {
    if i == 0 { ("auth"@, RoutingClass::NoAuth, MessageSemanticType::Technical, false) }
    else if i == 1 { ("auth_login_request"@, RoutingClass::NoAuth, MessageSemanticType::Technical, false) }
    else if i == 2 { ("auth_register_request"@, RoutingClass::NoAuth, MessageSemanticType::Technical, false) }
    else if i == 3 { ("auth_identity_request"@, RoutingClass::NoAuth, MessageSemanticType::Technical, false) }
    else if i == 4 { ("dropbox_public_auth"@, RoutingClass::NoAuth, MessageSemanticType::Technical, false) }
    else if i == 5 { ("ping"@, RoutingClass::GatewayLocal, MessageSemanticType::Technical, false) }
    else if i == 6 { ("file_transfer_offer"@, RoutingClass::RelayHotpath, MessageSemanticType::Command, false) }
    else if i == 7 { ("file_transfer_chunk"@, RoutingClass::RelayHotpath, MessageSemanticType::Command, false) }
    else if i == 8 { ("file_transfer_complete"@, RoutingClass::RelayHotpath, MessageSemanticType::Command, false) }
    else if i == 9 { ("chat_message_send"@, RoutingClass::BackendControl, MessageSemanticType::Command, false) }
    else if i == 10 { ("chat_typing_state"@, RoutingClass::BackendControl, MessageSemanticType::Signal, false) }
    else if i == 11 { ("presence_state"@, RoutingClass::BackendControl, MessageSemanticType::Signal, false) }
    else if i == 12 { ("chat_messages_request"@, RoutingClass::BackendControl, MessageSemanticType::Query, false) }
    else if i == 13 { ("chat_conversations_request"@, RoutingClass::BackendControl, MessageSemanticType::Query, false) }
    else if i == 14 { ("contacts_request"@, RoutingClass::BackendControl, MessageSemanticType::Query, false) }
    else if i == 15 { ("group_create"@, RoutingClass::BackendControl, MessageSemanticType::Command, false) }
    else if i == 16 { ("group_add"@, RoutingClass::BackendControl, MessageSemanticType::Command, false) }
    else if i == 17 { ("group_membership_accept"@, RoutingClass::BackendControl, MessageSemanticType::Command, false) }
    else if i == 18 { ("mls_commit"@, RoutingClass::BackendControl, MessageSemanticType::Command, false) }
    else if i == 19 { ("mls_welcome_request"@, RoutingClass::BackendControl, MessageSemanticType::Query, false) }
    else if i == 20 { ("call_session_create"@, RoutingClass::BackendControl, MessageSemanticType::Command, false) }
    else if i == 21 { ("call_session_token_request"@, RoutingClass::BackendControl, MessageSemanticType::Query, false) }
    else if i == 22 { ("call_session_media_key"@, RoutingClass::BackendControl, MessageSemanticType::Signal, false) }
    else { ("session_ready"@, RoutingClass::BackendControl, MessageSemanticType::Signal, false) }
}

/// A registry entry agrees with `registry_entry(i)`.
pub open spec fn matches_entry(spec: CommandSpec, i: int) -> bool {
    let e = registry_entry(i);
    &&& spec.command_name@ == e.0
    &&& spec.routing_class == e.1
    &&& spec.message_type == e.2
    &&& spec.mirror_to_backend == e.3
}

fn entry(
    command_name: &'static str,
    routing_class: RoutingClass,
    message_type: MessageSemanticType,
) -> (spec: CommandSpec)
    ensures
        spec.command_name == command_name,
        spec.routing_class == routing_class,
        spec.message_type == message_type,
        !spec.mirror_to_backend,
{
    CommandSpec { command_name, routing_class, message_type, mirror_to_backend: false }
}

/// The command registry, in its fixed order.
pub fn command_registry_entries() -> (r: Vec<CommandSpec>)
    ensures
        r@.len() == COMMAND_COUNT,
        forall|i: int| 0 <= i < COMMAND_COUNT ==> #[trigger] matches_entry(r@[i], i),
{
    let mut r: Vec<CommandSpec> = Vec::new();
    r.push(entry("auth", RoutingClass::NoAuth, MessageSemanticType::Technical));
    r.push(entry("auth_login_request", RoutingClass::NoAuth, MessageSemanticType::Technical));
    r.push(entry("auth_register_request", RoutingClass::NoAuth, MessageSemanticType::Technical));
    r.push(entry("auth_identity_request", RoutingClass::NoAuth, MessageSemanticType::Technical));
    r.push(entry("dropbox_public_auth", RoutingClass::NoAuth, MessageSemanticType::Technical));
    r.push(entry("ping", RoutingClass::GatewayLocal, MessageSemanticType::Technical));
    r.push(entry("file_transfer_offer", RoutingClass::RelayHotpath, MessageSemanticType::Command));
    r.push(entry("file_transfer_chunk", RoutingClass::RelayHotpath, MessageSemanticType::Command));
    r.push(entry("file_transfer_complete", RoutingClass::RelayHotpath, MessageSemanticType::Command));
    r.push(entry("chat_message_send", RoutingClass::BackendControl, MessageSemanticType::Command));
    r.push(entry("chat_typing_state", RoutingClass::BackendControl, MessageSemanticType::Signal));
    r.push(entry("presence_state", RoutingClass::BackendControl, MessageSemanticType::Signal));
    r.push(entry("chat_messages_request", RoutingClass::BackendControl, MessageSemanticType::Query));
    r.push(entry("chat_conversations_request", RoutingClass::BackendControl, MessageSemanticType::Query));
    r.push(entry("contacts_request", RoutingClass::BackendControl, MessageSemanticType::Query));
    r.push(entry("group_create", RoutingClass::BackendControl, MessageSemanticType::Command));
    r.push(entry("group_add", RoutingClass::BackendControl, MessageSemanticType::Command));
    r.push(entry("group_membership_accept", RoutingClass::BackendControl, MessageSemanticType::Command));
    r.push(entry("mls_commit", RoutingClass::BackendControl, MessageSemanticType::Command));
    r.push(entry("mls_welcome_request", RoutingClass::BackendControl, MessageSemanticType::Query));
    r.push(entry("call_session_create", RoutingClass::BackendControl, MessageSemanticType::Command));
    r.push(entry("call_session_token_request", RoutingClass::BackendControl, MessageSemanticType::Query));
    r.push(entry("call_session_media_key", RoutingClass::BackendControl, MessageSemanticType::Signal));
    r.push(entry("session_ready", RoutingClass::BackendControl, MessageSemanticType::Signal));
    r
}

/// Number of entries in the relay authorization registry.
pub const RELAY_ENTRY_COUNT: usize = 3;

/// The relay authorization metadata that every file-transfer relay command carries.
pub open spec fn file_transfer_relay_spec(requires_relay_context: bool, spec: RelayAuthorizationSpec) -> bool {
    &&& spec.requires_relay_context == requires_relay_context
    &&& spec.relay_context_type == RelayContextType::FileTransferPeer
    &&& spec.audience_scope_mode == AudienceScopeMode::FixedPeer
    &&& spec.guard_class == RelayGuardClass::ContextBoundPeer
    &&& spec.command_family@ == "file_transfer"@
    &&& spec.operation_key_field@ == "transfer_id"@
}

/// The relay authorization metadata of the file-transfer relay commands.
pub open spec fn file_transfer_spec(requires_relay_context: bool) -> RelayAuthorizationSpec {
    RelayAuthorizationSpec {
        requires_relay_context,
        relay_context_type: RelayContextType::FileTransferPeer,
        audience_scope_mode: AudienceScopeMode::FixedPeer,
        guard_class: RelayGuardClass::ContextBoundPeer,
        command_family: "file_transfer",
        operation_key_field: "transfer_id",
    }
}

/// Entry `i` of the relay authorization registry agrees with the fixed table.
pub open spec fn matches_relay_entry(e: RelayAuthorizationEntry, i: int) -> bool {
    if i == 0 {
        e.command_name@ == "file_transfer_offer"@ && file_transfer_relay_spec(false, e.spec)
            && e.spec == file_transfer_spec(false)
    } else if i == 1 {
        e.command_name@ == "file_transfer_chunk"@ && file_transfer_relay_spec(true, e.spec)
            && e.spec == file_transfer_spec(true)
    } else {
        e.command_name@ == "file_transfer_complete"@ && file_transfer_relay_spec(true, e.spec)
            && e.spec == file_transfer_spec(true)
    }
}

fn file_transfer_entry(command_name: &'static str, requires_relay_context: bool) -> (e: RelayAuthorizationEntry)
    ensures
        e.command_name == command_name,
        file_transfer_relay_spec(requires_relay_context, e.spec),
        e.spec == file_transfer_spec(requires_relay_context),
{
    RelayAuthorizationEntry {
        command_name,
        spec: RelayAuthorizationSpec {
            requires_relay_context,
            relay_context_type: RelayContextType::FileTransferPeer,
            audience_scope_mode: AudienceScopeMode::FixedPeer,
            guard_class: RelayGuardClass::ContextBoundPeer,
            command_family: "file_transfer",
            operation_key_field: "transfer_id",
        },
    }
}

/// The relay authorization registry, in its fixed order.
pub fn relay_authorization_entries() -> (r: Vec<RelayAuthorizationEntry>)
    ensures
        r@.len() == RELAY_ENTRY_COUNT,
        forall|i: int| 0 <= i < RELAY_ENTRY_COUNT ==> #[trigger] matches_relay_entry(r@[i], i),
{
    let mut r: Vec<RelayAuthorizationEntry> = Vec::new();
    r.push(file_transfer_entry("file_transfer_offer", false));
    r.push(file_transfer_entry("file_transfer_chunk", true));
    r.push(file_transfer_entry("file_transfer_complete", true));
    r
}

} // verus!
