//! Routing metadata of inbound commands: routing classes, semantic types,
//! relay authorization specs, registry lookups and the registry's consistency
//! rules.

use vstd::prelude::*;
use crate::project::command_registry::{
    command_registry_entries, matches_entry, registry_entry, relay_authorization_entries,
    matches_relay_entry, file_transfer_relay_spec, file_transfer_spec, COMMAND_COUNT, RELAY_ENTRY_COUNT,
};
use crate::text::{spec_trim, str_eq, trim_text};

verus! {

/// How the gateway routes an inbound command.
#[derive(Clone, Copy, Debug, PartialEq, Eq, Structural)]
pub enum RoutingClass {
    NoAuth,
    GatewayLocal,
    RelayHotpath,
    BackendControl,
}

impl RoutingClass {
    pub open spec fn spec_name(self) -> Seq<char> {
        match self {
            RoutingClass::NoAuth => "no_auth"@,
            RoutingClass::GatewayLocal => "gateway_local"@,
            RoutingClass::RelayHotpath => "relay_hotpath"@,
            RoutingClass::BackendControl => "backend_control"@,
        }
    }

    pub fn as_str(self) -> (r: &'static str)
        ensures
            r@ == self.spec_name(),
    {
        match self {
            RoutingClass::NoAuth => "no_auth",
            RoutingClass::GatewayLocal => "gateway_local",
            RoutingClass::RelayHotpath => "relay_hotpath",
            RoutingClass::BackendControl => "backend_control",
        }
    }
}

/// The semantic type of an inbound message.
#[derive(Clone, Copy, Debug, PartialEq, Eq, Structural)]
pub enum MessageSemanticType {
    Command,
    Query,
    Event,
    Signal,
    Technical,
}

impl MessageSemanticType {
    pub open spec fn spec_name(self) -> Seq<char> {
        match self {
            MessageSemanticType::Command => "command"@,
            MessageSemanticType::Query => "query"@,
            MessageSemanticType::Event => "event"@,
            MessageSemanticType::Signal => "signal"@,
            MessageSemanticType::Technical => "technical"@,
        }
    }

    pub fn as_str(self) -> (r: &'static str)
        ensures
            r@ == self.spec_name(),
    {
        match self {
            MessageSemanticType::Command => "command",
            MessageSemanticType::Query => "query",
            MessageSemanticType::Event => "event",
            MessageSemanticType::Signal => "signal",
            MessageSemanticType::Technical => "technical",
        }
    }
}

/// The kind of relay context that authorizes relay commands.
#[derive(Clone, Copy, Debug, PartialEq, Eq, Structural)]
pub enum RelayContextType {
    FileTransferPeer,
}

impl RelayContextType {
    pub open spec fn spec_name(self) -> Seq<char> {
        match self {
            RelayContextType::FileTransferPeer => "file_transfer_peer"@,
        }
    }

    pub fn as_str(self) -> (r: &'static str)
        ensures
            r@ == self.spec_name(),
    {
        match self {
            RelayContextType::FileTransferPeer => "file_transfer_peer",
        }
    }
}

/// Which peers a relay context lets a sender reach.
#[derive(Clone, Copy, Debug, PartialEq, Eq, Structural)]
pub enum AudienceScopeMode {
    FixedPeer,
    ContextMembers,
    ExplicitSubset,
}

impl AudienceScopeMode {
    pub open spec fn spec_name(self) -> Seq<char> {
        match self {
            AudienceScopeMode::FixedPeer => "fixed_peer"@,
            AudienceScopeMode::ContextMembers => "context_members"@,
            AudienceScopeMode::ExplicitSubset => "explicit_subset"@,
        }
    }

    pub fn as_str(self) -> (r: &'static str)
        ensures
            r@ == self.spec_name(),
    {
        match self {
            AudienceScopeMode::FixedPeer => "fixed_peer",
            AudienceScopeMode::ContextMembers => "context_members",
            AudienceScopeMode::ExplicitSubset => "explicit_subset",
        }
    }
}

/// The guard applied to a relay command.
#[derive(Clone, Copy, Debug, PartialEq, Eq, Structural)]
pub enum RelayGuardClass {
    ContextBoundPeer,
}

impl RelayGuardClass {
    pub open spec fn spec_name(self) -> Seq<char> {
        match self {
            RelayGuardClass::ContextBoundPeer => "context_bound_peer"@,
        }
    }

    pub fn as_str(self) -> (r: &'static str)
        ensures
            r@ == self.spec_name(),
    {
        match self {
            RelayGuardClass::ContextBoundPeer => "context_bound_peer",
        }
    }
}

/// The relay authorization metadata of a relay command.
#[derive(Clone, Copy, Debug)]
pub struct RelayAuthorizationSpec {
    pub requires_relay_context: bool,
    pub relay_context_type: RelayContextType,
    pub audience_scope_mode: AudienceScopeMode,
    pub guard_class: RelayGuardClass,
    pub command_family: &'static str,
    pub operation_key_field: &'static str,
}

/// A relay command with its authorization metadata.
#[derive(Clone, Copy, Debug)]
pub struct RelayAuthorizationEntry {
    pub command_name: &'static str,
    pub spec: RelayAuthorizationSpec,
}

/// A registered inbound command.
#[derive(Clone, Copy, Debug)]
pub struct CommandSpec {
    pub command_name: &'static str,
    pub routing_class: RoutingClass,
    pub message_type: MessageSemanticType,
    pub mirror_to_backend: bool,
}

/// Index `i` is the first entry of `cmds` named `name`.
pub open spec fn first_command_index(cmds: Seq<CommandSpec>, name: Seq<char>, i: int) -> bool {
    &&& 0 <= i < cmds.len()
    &&& cmds[i].command_name@ == name
    &&& forall|j: int| 0 <= j < i ==> #[trigger] cmds[j].command_name@ != name
}

/// Index `i` is the first relay entry named `name`.
pub open spec fn first_relay_index(entries: Seq<RelayAuthorizationEntry>, name: Seq<char>, i: int) -> bool {
    &&& 0 <= i < entries.len()
    &&& entries[i].command_name@ == name
    &&& forall|j: int| 0 <= j < i ==> #[trigger] entries[j].command_name@ != name
}

/// The first relay authorization spec registered for `name` in `entries`.
pub open spec fn relay_lookup(entries: Seq<RelayAuthorizationEntry>, name: Seq<char>) -> Option<RelayAuthorizationSpec>
    decreases entries.len(),
{
    if entries.len() == 0 {
        None
    } else if entries[0].command_name@ == name {
        Some(entries[0].spec)
    } else {
        relay_lookup(entries.drop_first(), name)
    }
}

/// Index `i` is the first entry of the built-in registry named `name`.
pub open spec fn first_registry_index(name: Seq<char>, i: int) -> bool {
    &&& 0 <= i < COMMAND_COUNT
    &&& registry_entry(i).0 == name
    &&& forall|j: int| 0 <= j < i ==> #[trigger] registry_entry(j).0 != name
}

/// The built-in command registry.
pub fn command_registry() -> (r: Vec<CommandSpec>)
    ensures
        r@.len() == COMMAND_COUNT,
        forall|i: int| 0 <= i < COMMAND_COUNT ==> #[trigger] matches_entry(r@[i], i),
{
    command_registry_entries()
}

fn find_command(cmds: &Vec<CommandSpec>, name: &str) -> (r: Option<usize>)
    ensures
        match r {
            Some(i) => first_command_index(cmds@, name@, i as int),
            None => forall|j: int| 0 <= j < cmds@.len() ==> #[trigger] cmds@[j].command_name@ != name@,
        },
{
    let mut i: usize = 0;
    while i < cmds.len()
        invariant
            i <= cmds@.len(),
            forall|j: int| 0 <= j < i ==> #[trigger] cmds@[j].command_name@ != name@,
        decreases cmds@.len() - i,
    {
        if str_eq(cmds[i].command_name, name) {
            return Some(i);
        }
        i = i + 1;
    }
    None
}

/// The registry entry of the first command named `name`, if any.
pub open spec fn command_entry_of(name: Seq<char>) -> Option<(Seq<char>, RoutingClass, MessageSemanticType, bool)> {
    if exists|i: int| first_registry_index(name, i) {
        Some(registry_entry(choose|i: int| first_registry_index(name, i)))
    } else {
        None
    }
}

/// Only one index is the first one with a given name.
pub proof fn lemma_first_registry_unique(name: Seq<char>, i: int, j: int)
    requires
        first_registry_index(name, i),
        first_registry_index(name, j),
    ensures
        i == j,
{
    if i < j {
        assert(registry_entry(i).0 != name);
    } else if j < i {
        assert(registry_entry(j).0 != name);
    }
}

/// The registered spec of command `command_type`, if any.
pub fn resolve_command_spec(command_type: &str) -> (r: Option<CommandSpec>)
    ensures
        match r {
            Some(spec) => exists|i: int| first_registry_index(command_type@, i) && #[trigger] matches_entry(spec, i),
            None => forall|i: int| 0 <= i < COMMAND_COUNT ==> #[trigger] registry_entry(i).0 != command_type@,
        },
        match r {
            Some(spec) => command_entry_of(command_type@)
                == Some((spec.command_name@, spec.routing_class, spec.message_type, spec.mirror_to_backend)),
            None => command_entry_of(command_type@) is None,
        },
{
    let cmds = command_registry();
    match find_command(&cmds, command_type) {
        Some(i) => {
            let spec = cmds[i];
            assert(matches_entry(cmds@[i as int], i as int));
            assert forall|j: int| 0 <= j < i implies #[trigger] registry_entry(j).0 != command_type@ by {
                assert(matches_entry(cmds@[j], j));
                assert(cmds@[j].command_name@ != command_type@);
            }
            assert(first_registry_index(command_type@, i as int));
            proof {
                let k = choose|k: int| first_registry_index(command_type@, k);
                lemma_first_registry_unique(command_type@, i as int, k);
            }
            Some(spec)
        }
        None => {
            assert forall|j: int| 0 <= j < COMMAND_COUNT implies #[trigger] registry_entry(j).0 != command_type@ by {
                assert(matches_entry(cmds@[j], j));
                assert(cmds@[j].command_name@ != command_type@);
            }
            assert(!exists|i: int| first_registry_index(command_type@, i));
            None
        }
    }
}

/// The semantic type of the registered command `command_type`, if any.
pub fn resolve_message_type(command_type: &str) -> (r: Option<MessageSemanticType>)
    ensures
        match r {
            Some(t) => exists|i: int| first_registry_index(command_type@, i) && #[trigger] registry_entry(i).2 == t,
            None => forall|i: int| 0 <= i < COMMAND_COUNT ==> #[trigger] registry_entry(i).0 != command_type@,
        },
{
    match resolve_command_spec(command_type) {
        Some(spec) => {
            let ghost i = choose|i: int| first_registry_index(command_type@, i) && #[trigger] matches_entry(spec, i);
            assert(registry_entry(i).2 == spec.message_type);
            Some(spec.message_type)
        }
        None => None,
    }
}

fn find_relay_entry(entries: &Vec<RelayAuthorizationEntry>, name: &str) -> (r: Option<RelayAuthorizationSpec>)
    ensures
        r == relay_lookup(entries@, name@),
{
    let mut i: usize = 0;
    assert(entries@.skip(0) =~= entries@);
    while i < entries.len()
        invariant
            i <= entries@.len(),
            relay_lookup(entries@, name@) == relay_lookup(entries@.skip(i as int), name@),
        decreases entries@.len() - i,
    {
        assert(entries@.skip(i as int).drop_first() =~= entries@.skip(i + 1));
        if str_eq(entries[i].command_name, name) {
            return Some(entries[i].spec);
        }
        i = i + 1;
    }
    None
}

/// A command name is one of the relay commands of the built-in relay registry.
pub open spec fn is_relay_command_name(name: Seq<char>) -> bool {
    name == "file_transfer_offer"@ || name == "file_transfer_chunk"@ || name == "file_transfer_complete"@
}

/// The relay authorization metadata registered for a command name.
pub open spec fn relay_spec_of(name: Seq<char>) -> Option<RelayAuthorizationSpec> {
    if name == "file_transfer_offer"@ {
        Some(file_transfer_spec(false))
    } else if name == "file_transfer_chunk"@ || name == "file_transfer_complete"@ {
        Some(file_transfer_spec(true))
    } else {
        None
    }
}

/// The relay authorization metadata registered for `command_type`, if any.
pub fn resolve_relay_authorization_spec(command_type: &str) -> (r: Option<RelayAuthorizationSpec>)
    ensures
        command_type@ == "file_transfer_offer"@ ==> (r matches Some(s) && file_transfer_relay_spec(false, s)),
        (command_type@ == "file_transfer_chunk"@ || command_type@ == "file_transfer_complete"@)
            ==> (r matches Some(s) && file_transfer_relay_spec(true, s)),
        !is_relay_command_name(command_type@) ==> r is None,
        r == relay_spec_of(command_type@),
{
    let entries = relay_authorization_entries();
    let r = find_relay_entry(&entries, command_type);
    proof {
        reveal_strlit("file_transfer_offer");
        reveal_strlit("file_transfer_chunk");
        reveal_strlit("file_transfer_complete");
        assert("file_transfer_offer"@[14] != "file_transfer_chunk"@[14]);
        assert("file_transfer_offer"@[14] != "file_transfer_complete"@[14]);
        assert("file_transfer_chunk"@[15] != "file_transfer_complete"@[15]);
        let s = entries@;
        assert(matches_relay_entry(s[0], 0));
        assert(matches_relay_entry(s[1], 1));
        assert(matches_relay_entry(s[2], 2));
        let n = command_type@;
        let s1 = s.drop_first();
        let s2 = s1.drop_first();
        let s3 = s2.drop_first();
        assert(s1[0] == s[1] && s2[0] == s[2] && s3.len() == 0);
        if n != "file_transfer_offer"@ {
            assert(relay_lookup(s, n) == relay_lookup(s1, n));
            if n == "file_transfer_chunk"@ {
                assert(s1.len() == 2 && s1[0].command_name@ == n);
                assert(relay_lookup(s1, n) == Some(s[1].spec));
            }
            if n == "file_transfer_complete"@ {
                assert(s2.len() == 1 && s2[0].command_name@ == n);
                assert(relay_lookup(s2, n) == Some(s[2].spec));
            }
            if n != "file_transfer_chunk"@ {
                assert(relay_lookup(s1, n) == relay_lookup(s2, n));
                if n != "file_transfer_complete"@ {
                    assert(relay_lookup(s2, n) == relay_lookup(s3, n));
                }
            }
        }

    }
    r
}


/// The rule that command `i` of `cmds` breaks, checked in registry order, as
/// the message the registry check reports for it.
pub open spec fn command_violation(cmds: Seq<CommandSpec>, i: int) -> Option<Seq<char>> {
    let c = cmds[i];
    let name = c.command_name@;
    if spec_trim(name).len() == 0 {
        Some("command registry contains empty command name"@)
    } else if exists|j: int| 0 <= j < i && #[trigger] cmds[j].command_name@ == name {
        Some("command registry contains duplicate command '"@ + name + "'"@)
    } else if c.message_type == MessageSemanticType::Event {
        Some("command '"@ + name + "' uses semantic type 'event' in inbound command registry"@)
    } else {
        match c.routing_class {
            RoutingClass::NoAuth | RoutingClass::GatewayLocal => {
                if c.message_type != MessageSemanticType::Technical {
                    Some("command '"@ + name + "' with routing class '"@ + c.routing_class.spec_name()
                        + "' must use semantic type 'technical'"@)
                } else if c.mirror_to_backend {
                    Some("command '"@ + name + "' with routing class '"@ + c.routing_class.spec_name()
                        + "' cannot set backend mirror"@)
                } else {
                    None
                }
            },
            RoutingClass::RelayHotpath => {
                if c.message_type == MessageSemanticType::Technical {
                    Some("relay command '"@ + name + "' cannot use semantic type 'technical'"@)
                } else {
                    None
                }
            },
            RoutingClass::BackendControl => {
                if c.message_type == MessageSemanticType::Technical {
                    Some("backend control command '"@ + name + "' cannot use semantic type 'technical'"@)
                } else if c.mirror_to_backend {
                    Some("backend control command '"@ + name + "' cannot set backend mirror"@)
                } else {
                    None
                }
            },
        }
    }
}

/// The first per-command violation at or after index `i`.
pub open spec fn first_command_violation(cmds: Seq<CommandSpec>, i: int) -> Option<Seq<char>>
    decreases cmds.len() - i,
{
    if i < 0 || i >= cmds.len() {
        None
    } else {
        match command_violation(cmds, i) {
            Some(m) => Some(m),
            None => first_command_violation(cmds, i + 1),
        }
    }
}

/// The violation of relay command `i`: missing or incomplete relay metadata.
pub open spec fn relay_metadata_violation(
    cmds: Seq<CommandSpec>,
    relay: Seq<RelayAuthorizationEntry>,
    i: int,
) -> Option<Seq<char>> {
    let name = cmds[i].command_name@;
    if cmds[i].routing_class != RoutingClass::RelayHotpath {
        None
    } else {
        match relay_lookup(relay, name) {
            None => Some("relay command '"@ + name + "' is missing relay authorization metadata"@),
            Some(spec) => {
                if spec_trim(spec.command_family@).len() == 0 {
                    Some("relay command '"@ + name + "' has empty relay command family"@)
                } else if spec_trim(spec.operation_key_field@).len() == 0 {
                    Some("relay command '"@ + name + "' has empty relay operation key field"@)
                } else {
                    None
                }
            },
        }
    }
}

/// The first relay metadata violation at or after index `i`.
pub open spec fn first_relay_violation(
    cmds: Seq<CommandSpec>,
    relay: Seq<RelayAuthorizationEntry>,
    i: int,
) -> Option<Seq<char>>
    decreases cmds.len() - i,
{
    if i < 0 || i >= cmds.len() {
        None
    } else {
        match relay_metadata_violation(cmds, relay, i) {
            Some(m) => Some(m),
            None => first_relay_violation(cmds, relay, i + 1),
        }
    }
}

/// The violation of command `i` if it is not a relay command but has relay metadata.
pub open spec fn stray_metadata_violation(
    cmds: Seq<CommandSpec>,
    relay: Seq<RelayAuthorizationEntry>,
    i: int,
) -> Option<Seq<char>> {
    let name = cmds[i].command_name@;
    if cmds[i].routing_class != RoutingClass::RelayHotpath && relay_lookup(relay, name) is Some {
        Some("non-relay command '"@ + name + "' declares relay authorization metadata"@)
    } else {
        None
    }
}

/// The first stray relay metadata violation at or after index `i`.
pub open spec fn first_stray_violation(
    cmds: Seq<CommandSpec>,
    relay: Seq<RelayAuthorizationEntry>,
    i: int,
) -> Option<Seq<char>>
    decreases cmds.len() - i,
{
    if i < 0 || i >= cmds.len() {
        None
    } else {
        match stray_metadata_violation(cmds, relay, i) {
            Some(m) => Some(m),
            None => first_stray_violation(cmds, relay, i + 1),
        }
    }
}

/// The message of the first rule that a registry breaks, if it breaks any:
/// per-command rules first, then relay metadata, then stray metadata.
pub open spec fn registry_violation(cmds: Seq<CommandSpec>, relay: Seq<RelayAuthorizationEntry>) -> Option<Seq<char>> {
    match first_command_violation(cmds, 0) {
        Some(m) => Some(m),
        None => match first_relay_violation(cmds, relay, 0) {
            Some(m) => Some(m),
            None => first_stray_violation(cmds, relay, 0),
        },
    }
}

fn message3(a: &str, b: &str, c: &str) -> (r: String)
    ensures
        r@ == a@ + b@ + c@,
{
    let mut out = String::from_str(a);
    out.append(b);
    out.append(c);
    out
}

fn message5(a: &str, b: &str, c: &str, d: &str, e: &str) -> (r: String)
    ensures
        r@ == a@ + b@ + c@ + d@ + e@,
{
    let mut out = String::from_str(a);
    out.append(b);
    out.append(c);
    out.append(d);
    out.append(e);
    out
}

fn check_command(cmds: &Vec<CommandSpec>, i: usize) -> (r: Option<String>)
    requires
        i < cmds@.len(),
    ensures
        match r {
            Some(m) => command_violation(cmds@, i as int) == Some(m@),
            None => command_violation(cmds@, i as int) is None,
        },
{
    let c = cmds[i];
    let name = c.command_name;
    if trim_text(name).is_empty() {
        return Some(String::from_str("command registry contains empty command name"));
    }
    let mut j: usize = 0;
    while j < i
        invariant
            j <= i < cmds@.len(),
            name == cmds@[i as int].command_name,
            spec_trim(name@).len() != 0,
            forall|k: int| 0 <= k < j ==> #[trigger] cmds@[k].command_name@ != name@,
        decreases i - j,
    {
        if str_eq(cmds[j].command_name, name) {
            assert(cmds@[j as int].command_name@ == name@);
            return Some(message3("command registry contains duplicate command '", name, "'"));
        }
        j = j + 1;
    }
    if c.message_type == MessageSemanticType::Event {
        return Some(message3("command '", name, "' uses semantic type 'event' in inbound command registry"));
    }
    match c.routing_class {
        RoutingClass::NoAuth | RoutingClass::GatewayLocal => {
            if c.message_type != MessageSemanticType::Technical {
                Some(message5("command '", name, "' with routing class '", c.routing_class.as_str(),
                    "' must use semantic type 'technical'"))
            } else if c.mirror_to_backend {
                Some(message5("command '", name, "' with routing class '", c.routing_class.as_str(),
                    "' cannot set backend mirror"))
            } else {
                None
            }
        },
        RoutingClass::RelayHotpath => {
            if c.message_type == MessageSemanticType::Technical {
                Some(message3("relay command '", name, "' cannot use semantic type 'technical'"))
            } else {
                None
            }
        },
        RoutingClass::BackendControl => {
            if c.message_type == MessageSemanticType::Technical {
                Some(message3("backend control command '", name, "' cannot use semantic type 'technical'"))
            } else if c.mirror_to_backend {
                Some(message3("backend control command '", name, "' cannot set backend mirror"))
            } else {
                None
            }
        },
    }
}

/// Checks a command registry and its relay metadata against the registry's
/// rules, reporting the first rule broken.
pub fn validate_registry(cmds: &Vec<CommandSpec>, relay: &Vec<RelayAuthorizationEntry>) -> (r: Result<(), String>)
    ensures
        match r {
            Ok(()) => registry_violation(cmds@, relay@) is None,
            Err(m) => registry_violation(cmds@, relay@) == Some(m@),
        },
{
    let n = cmds.len();
    let mut i: usize = 0;
    while i < n
        invariant
            n == cmds@.len(),
            i <= n,
            first_command_violation(cmds@, 0) == first_command_violation(cmds@, i as int),
        decreases n - i,
    {
        if let Some(m) = check_command(cmds, i) {
            return Err(m);
        }
        i = i + 1;
    }
    let mut i: usize = 0;
    while i < n
        invariant
            n == cmds@.len(),
            i <= n,
            first_command_violation(cmds@, 0) is None,
            first_relay_violation(cmds@, relay@, 0) == first_relay_violation(cmds@, relay@, i as int),
        decreases n - i,
    {
        let c = cmds[i];
        if c.routing_class == RoutingClass::RelayHotpath {
            match find_relay_entry(relay, c.command_name) {
                None => {
                    return Err(message3("relay command '", c.command_name, "' is missing relay authorization metadata"));
                }
                Some(spec) => {
                    if trim_text(spec.command_family).is_empty() {
                        return Err(message3("relay command '", c.command_name, "' has empty relay command family"));
                    }
                    if trim_text(spec.operation_key_field).is_empty() {
                        return Err(message3("relay command '", c.command_name, "' has empty relay operation key field"));
                    }
                }
            }
        }
        i = i + 1;
    }
    let mut i: usize = 0;
    while i < n
        invariant
            n == cmds@.len(),
            i <= n,
            first_command_violation(cmds@, 0) is None,
            first_relay_violation(cmds@, relay@, 0) is None,
            first_stray_violation(cmds@, relay@, 0) == first_stray_violation(cmds@, relay@, i as int),
        decreases n - i,
    {
        let c = cmds[i];
        if c.routing_class != RoutingClass::RelayHotpath {
            if find_relay_entry(relay, c.command_name).is_some() {
                return Err(message3("non-relay command '", c.command_name, "' declares relay authorization metadata"));
            }
        }
        i = i + 1;
    }
    Ok(())
}

/// The two sequences are the built-in command registry and relay registry.
pub open spec fn is_builtin_registry(cmds: Seq<CommandSpec>, relay: Seq<RelayAuthorizationEntry>) -> bool {
    &&& cmds.len() == COMMAND_COUNT
    &&& forall|i: int| 0 <= i < COMMAND_COUNT ==> #[trigger] matches_entry(cmds[i], i)
    &&& relay.len() == RELAY_ENTRY_COUNT
    &&& forall|i: int| 0 <= i < RELAY_ENTRY_COUNT ==> #[trigger] matches_relay_entry(relay[i], i)
}

/// Checks the built-in command registry against the registry's rules.
pub fn validate_command_registry() -> (r: Result<(), String>)
    ensures
        exists|cmds: Seq<CommandSpec>, relay: Seq<RelayAuthorizationEntry>| {
            &&& is_builtin_registry(cmds, relay)
            &&& match r {
                Ok(()) => registry_violation(cmds, relay) is None,
                Err(m) => registry_violation(cmds, relay) == Some(m@),
            }
        },
{
    let cmds = command_registry();
    let relay = relay_authorization_entries();
    let r = validate_registry(&cmds, &relay);
    assert(is_builtin_registry(cmds@, relay@));
    r
}

} // verus!
