//! What the gateway does with a message a client sends on an open
//! connection: it checks the command against the registry, binds request
//! routes, authorizes relay commands, and decides whether the message is
//! relayed to its targets, published to the backend, or refused.

use vstd::prelude::*;
use crate::clock::unix_seconds_now;
use crate::json::{json_str, json_strings, JsonValue};
use crate::message::{extract_channel_id, extract_flags, spec_channel_id, spec_encrypted, spec_qos, MessageFlags};
use crate::order::{sorted_distinct, sorted_seq, strictly_sorted};
use crate::relay::RelayAuthError;
use crate::routes::{
    command_entry_of, relay_spec_of, resolve_command_spec, resolve_relay_authorization_spec,
    MessageSemanticType, RoutingClass,
};
use crate::state::{spec_authorize, spec_bind_route, spec_mark_alive, GatewayModel, GatewayState};
use crate::text::{lowercase_text, spec_lowercase, spec_trim, str_eq, strs, trim_text};

verus! {

/// The message type of the error event a refused command is answered with.
pub const COMMAND_ERROR_EVENT_TYPE: &'static str = "gateway_command_error";


/// A command refused with a `gateway_command_error` to the sender.
#[derive(Clone, Debug)]
pub struct CommandRejection {
    pub command: String,
    pub error: &'static str,
    pub message: &'static str,
}

/// A relay of the message to the connections of its target subjects; `from`
/// is set when the message must carry the sender as its `from`.
#[derive(Clone, Debug)]
pub struct RelayDispatch {
    pub subjects: Vec<String>,
    pub from: Option<String>,
}

/// A publication of the message to the backend inbox.
#[derive(Clone, Debug)]
pub struct BackendPublish {
    pub command_type: String,
    pub routing_class: RoutingClass,
    pub message_type: MessageSemanticType,
    pub runtime_path: Vec<&'static str>,
    pub channel_id: String,
    pub flags: MessageFlags,
}

/// What becomes of a client message.
#[derive(Clone, Debug)]
pub enum IngressOutcome {
    /// A blank message: nothing is done.
    Ignored,
    /// The command is refused.
    Rejected(CommandRejection),
    /// The command is accepted: relayed, published, both or neither (ping).
    Accepted { relay: Option<RelayDispatch>, publish: Option<BackendPublish> },
}

/// A publication as plain values.
pub struct PublishView {
    pub command_type: Seq<char>,
    pub routing_class: RoutingClass,
    pub message_type: MessageSemanticType,
    pub runtime_path: Seq<Seq<char>>,
    pub channel_id: Seq<char>,
    pub encrypted: Option<bool>,
    pub qos: Option<Seq<char>>,
}

/// An outcome as plain values.
pub enum IngressView {
    Ignored,
    Rejected { command: Seq<char>, error: Seq<char>, message: Seq<char> },
    Accepted { relay: Option<(Seq<Seq<char>>, Option<Seq<char>>)>, publish: Option<PublishView> },
}

/// The plain view of an optional string.
pub open spec fn opt_view(s: Option<String>) -> Option<Seq<char>> {
    match s {
        Some(x) => Some(x@),
        None => None,
    }
}

/// The texts of a list of static strings.
pub open spec fn static_views(v: Seq<&'static str>) -> Seq<Seq<char>> {
    v.map_values(|s: &'static str| s@)
}

/// The plain view of a publication.
pub open spec fn publish_view(p: BackendPublish) -> PublishView {
    PublishView {
        command_type: p.command_type@,
        routing_class: p.routing_class,
        message_type: p.message_type,
        runtime_path: static_views(p.runtime_path@),
        channel_id: p.channel_id@,
        encrypted: p.flags.encrypted,
        qos: opt_view(p.flags.qos),
    }
}

/// The plain view of an outcome.
pub open spec fn outcome_view(o: IngressOutcome) -> IngressView {
    match o {
        IngressOutcome::Ignored => IngressView::Ignored,
        IngressOutcome::Rejected(r) => IngressView::Rejected { command: r.command@, error: r.error@, message: r.message@ },
        IngressOutcome::Accepted { relay, publish } => IngressView::Accepted {
            relay: match relay {
                Some(d) => Some((strs(d.subjects@), opt_view(d.from))),
                None => None,
            },
            publish: match publish {
                Some(p) => Some(publish_view(p)),
                None => None,
            },
        },
    }
}

/// The emails and subjects that relay target values stand for: each value,
/// trimmed, that is not blank gives its lower-cased form as an email and
/// `user:` followed by its trimmed and its lower-cased form as subjects.
pub open spec fn target_variants(values: Seq<Seq<char>>) -> (Seq<Seq<char>>, Seq<Seq<char>>)
    decreases values.len(),
{
    if values.len() == 0 {
        (Seq::empty(), Seq::empty())
    } else {
        let before = target_variants(values.drop_last());
        let t = spec_trim(values.last());
        if t.len() == 0 {
            before
        } else {
            let n = spec_lowercase(t);
            (before.0.push(n), before.1.push("user:"@ + t).push("user:"@ + n))
        }
    }
}

/// The relay target values of a message: its `to` member (when a string),
/// then the string items of its `recipients` array.
pub open spec fn relay_target_values(data: JsonValue) -> Seq<Seq<char>> {
    let to = match json_str(data, "to"@) {
        Some(t) => seq![t],
        None => Seq::empty(),
    };
    to + json_strings(data, "recipients"@)
}

/// The relay targets of a message: its target emails and subjects, each
/// sorted and without repeats.
pub open spec fn spec_relay_targets(data: JsonValue) -> (Seq<Seq<char>>, Seq<Seq<char>>) {
    let v = target_variants(relay_target_values(data));
    (sorted_seq(v.0.to_set()), sorted_seq(v.1.to_set()))
}

/// The steps a command goes through, as logged and published.
pub open spec fn runtime_path(subjects_step: bool, backend_step: bool) -> Seq<Seq<char>> {
    if subjects_step && backend_step {
        seq!["subjects"@, "symfony"@]
    } else if subjects_step {
        seq!["subjects"@]
    } else if backend_step {
        seq!["symfony"@]
    } else {
        Seq::empty()
    }
}

/// A refusal.
pub open spec fn rejected(command: Seq<char>, error: Seq<char>, message: Seq<char>) -> IngressView {
    IngressView::Rejected { command, error, message }
}

/// The `from` a relayed message must be given: the sender, when the message
/// has no non-blank `from` of its own.
pub open spec fn relay_from(data: JsonValue, user: Seq<char>) -> Option<Seq<char>> {
    let from = match json_str(data, "from"@) {
        Some(f) => spec_trim(f),
        None => Seq::empty(),
    };
    if from.len() == 0 { Some(user) } else { None }
}

/// The text of an optional string, trimmed (empty when absent).
pub open spec fn trimmed_or_empty(s: Option<Seq<char>>) -> Seq<char> {
    match s {
        Some(v) => spec_trim(v),
        None => Seq::empty(),
    }
}

/// The publication of a command to the backend.
pub open spec fn spec_publish(
    data: JsonValue,
    user: Seq<char>,
    command: Seq<char>,
    class: RoutingClass,
    message_type: MessageSemanticType,
    path: Seq<Seq<char>>,
) -> PublishView {
    PublishView {
        command_type: command,
        routing_class: class,
        message_type,
        runtime_path: path,
        channel_id: spec_channel_id(data, user),
        encrypted: spec_encrypted(data),
        qos: spec_qos(data),
    }
}

/// The replay nonce of a relay command: its `nonce`, else its `header`.
pub open spec fn relay_nonce(data: JsonValue) -> Option<Seq<char>> {
    if json_str(data, "nonce"@) is Some { json_str(data, "nonce"@) } else { json_str(data, "header"@) }
}

/// The ciphertext size of a relay command, in bytes.
pub open spec fn ciphertext_size(data: JsonValue) -> Option<usize> {
    match json_str(data, "ciphertext"@) {
        Some(c) => Some(vstd::utf8::encode_utf8(c).len() as usize),
        None => None,
    }
}

/// The relay step of a relay command with target subjects, after the
/// request route step left state `m2`.
pub open spec fn spec_relay_step(
    m2: GatewayModel,
    user: Seq<char>,
    command: Seq<char>,
    data: JsonValue,
    backend_step: bool,
    publish: PublishView,
    now: i64,
) -> (GatewayModel, IngressView) {
    let (emails, subjects) = spec_relay_targets(data);
    match relay_spec_of(command) {
        None => (m2, rejected(command, "relay_auth_spec_missing"@, "Relay command has no authorization metadata."@)),
        Some(rs) => {
            let op = trimmed_or_empty(json_str(data, rs.operation_key_field@));
            if op.len() == 0 {
                (m2, rejected(command, "relay_operation_key_missing"@, "Relay command is missing operation key."@))
            } else {
                let authorized = if rs.requires_relay_context {
                    spec_authorize(m2, user, command, rs, op, emails, relay_nonce(data), ciphertext_size(data), now)
                } else {
                    (m2, Ok((Seq::empty(), 0u64)))
                };
                match authorized.1 {
                    Err(e) => (authorized.0, rejected(command, e.spec_code(), "Relay authorization failed."@)),
                    Ok(_) => (authorized.0, IngressView::Accepted {
                        relay: Some((subjects, relay_from(data, user))),
                        publish: if backend_step { Some(publish) } else { None },
                    }),
                }
            }
        },
    }
}

/// What a client message does (the state after it and the outcome): from
/// connection `connection_id` of `user`, raw text `raw` parsed as `data`, at
/// time `now`. A blank message is ignored; otherwise the connection is marked
/// alive and the command is checked: it must name a registered command that
/// is not a preauth command; `ping` is accepted as is, other gateway-local
/// commands are refused. A backend command with a request id binds the
/// request route. A relay command needs target subjects, authorization
/// metadata, an operation key and (where required) relay authorization; it
/// is then relayed, and also published when it is mirrored to the backend.
/// Backend commands are published.
pub open spec fn spec_ingress(
    m: GatewayModel,
    connection_id: Seq<char>,
    user: Seq<char>,
    raw: Seq<char>,
    data: JsonValue,
    now: i64,
) -> (GatewayModel, IngressView) {
    if spec_trim(raw).len() == 0 {
        (m, IngressView::Ignored)
    } else {
        let m1 = spec_mark_alive(m, connection_id, now);
        let t = match json_str(data, "type"@) { Some(t) => t, None => Seq::empty() };
        if spec_trim(t).len() == 0 {
            (m1, rejected(Seq::empty(), "invalid_command"@, "Message type is required."@))
        } else {
            match command_entry_of(t) {
                None => (m1, rejected(t, "unsupported_command"@, "Command is not registered."@)),
                Some(e) => {
                    let class = e.1;
                    if class == RoutingClass::NoAuth {
                        (m1, rejected(t, "preauth_only_command"@, "Command is only allowed during preauth."@))
                    } else if class == RoutingClass::GatewayLocal {
                        if t == "ping"@ {
                            (m1, IngressView::Accepted { relay: None, publish: None })
                        } else {
                            (m1, rejected(t, "invalid_gateway_local_command"@, "Unsupported gateway-local command."@))
                        }
                    } else {
                        let subjects_step = class == RoutingClass::RelayHotpath;
                        let backend_step = class == RoutingClass::BackendControl || (subjects_step && e.3);
                        let publish = spec_publish(data, user, t, class, e.2, runtime_path(subjects_step, backend_step));
                        let rid = trimmed_or_empty(json_str(data, "request_id"@));
                        let m2 = if rid.len() > 0 && backend_step {
                            spec_bind_route(m1, rid, connection_id, user, now)
                        } else {
                            m1
                        };
                        if !subjects_step {
                            (m2, IngressView::Accepted { relay: None, publish: Some(publish) })
                        } else if spec_relay_targets(data).1.len() == 0 {
                            if !backend_step {
                                (m2, rejected(t, "invalid_relay_targets"@,
                                    "Relay command requires at least one target subject."@))
                            } else {
                                (m2, IngressView::Accepted { relay: None, publish: Some(publish) })
                            }
                        } else {
                            spec_relay_step(m2, user, t, data, backend_step, publish, now)
                        }
                    }
                },
            }
        }
    }
}

/// The relay targets of a message (see `spec_relay_targets`).
pub struct RelayTargets {
    pub emails: Vec<String>,
    pub subjects: Vec<String>,
}

/// Adds the email and subjects that relay target `value` stands for (see
/// `target_variants`).
pub fn append_target_variants(value: &str, emails: &mut Vec<String>, subjects: &mut Vec<String>)
    ensures
        ({
            let t = spec_trim(value@);
            let n = spec_lowercase(t);
            if t.len() == 0 {
                final(emails)@ == old(emails)@ && final(subjects)@ == old(subjects)@
            } else {
                &&& strs(final(emails)@) == strs(old(emails)@).push(n)
                &&& strs(final(subjects)@) == strs(old(subjects)@).push("user:"@ + t).push("user:"@ + n)
            }
        }),
{
    let trimmed = trim_text(value);
    if trimmed.is_empty() {
        return;
    }
    let normalized = lowercase_text(trimmed);
    let ghost e0 = strs(emails@);
    let ghost s0 = strs(subjects@);
    emails.push(normalized.clone());
    let mut exact = String::from_str("user:");
    exact.append(trimmed);
    let mut lowered = String::from_str("user:");
    lowered.append(normalized.as_str());
    subjects.push(exact);
    subjects.push(lowered);
    proof {
        assert(strs(emails@) =~= e0.push(normalized@));
        assert(strs(subjects@) =~= s0.push("user:"@ + trimmed@).push("user:"@ + normalized@));
    }
}

/// The relay targets of a message (see `spec_relay_targets`).
pub fn collect_relay_targets(data: &JsonValue) -> (r: RelayTargets)
    ensures
        strs(r.emails@) == spec_relay_targets(*data).0,
        strs(r.subjects@) == spec_relay_targets(*data).1,
        strictly_sorted(strs(r.emails@)),
        strictly_sorted(strs(r.subjects@)),
{
    let mut emails: Vec<String> = Vec::new();
    let mut subjects: Vec<String> = Vec::new();
    let ghost to_part: Seq<Seq<char>> = match json_str(*data, "to"@) {
        Some(t) => seq![t],
        None => Seq::empty(),
    };
    proof {
        assert(strs(emails@) =~= Seq::<Seq<char>>::empty());
        assert(strs(subjects@) =~= Seq::<Seq<char>>::empty());
    }
    if let Some(target) = data.get_str("to") {
        append_target_variants(target, &mut emails, &mut subjects);
        proof {
            assert(to_part.drop_last() =~= Seq::<Seq<char>>::empty());
            assert(to_part.last() == target@);
            assert(target_variants(to_part.drop_last()) == (Seq::<Seq<char>>::empty(), Seq::<Seq<char>>::empty()));
            assert(strs(emails@) == target_variants(to_part).0);
            assert(strs(subjects@) == target_variants(to_part).1);
        }
    } else {
        proof {
            assert(strs(emails@) =~= Seq::<Seq<char>>::empty());
            assert(strs(subjects@) =~= Seq::<Seq<char>>::empty());
        }
    }
    let recipients = data.get_strings("recipients");
    let ghost rs = strs(recipients@);
    let mut i: usize = 0;
    proof { assert(to_part + rs.take(0) =~= to_part); }
    while i < recipients.len()
        invariant
            i <= recipients@.len(),
            rs == strs(recipients@),
            strs(emails@) == target_variants(to_part + rs.take(i as int)).0,
            strs(subjects@) == target_variants(to_part + rs.take(i as int)).1,
        decreases recipients@.len() - i,
    {
        proof {
            let next = to_part + rs.take(i + 1);
            assert(next.drop_last() =~= to_part + rs.take(i as int));
            assert(next.last() == recipients@[i as int]@);
        }
        append_target_variants(recipients[i].as_str(), &mut emails, &mut subjects);
        i = i + 1;
    }
    proof {
        assert(rs.take(recipients@.len() as int) =~= rs);
        assert(to_part + rs == relay_target_values(*data));
    }
    RelayTargets { emails: sorted_distinct(emails), subjects: sorted_distinct(subjects) }
}

fn rejection(command: &str, error: &'static str, message: &'static str) -> (r: IngressOutcome)
    ensures
        outcome_view(r) == rejected(command@, error@, message@),
{
    IngressOutcome::Rejected(CommandRejection { command: String::from_str(command), error, message })
}

fn runtime_path_exec(subjects_step: bool, backend_step: bool) -> (r: Vec<&'static str>)
    ensures
        static_views(r@) == runtime_path(subjects_step, backend_step),
{
    let mut path: Vec<&'static str> = Vec::new();
    if subjects_step {
        path.push("subjects");
    }
    if backend_step {
        path.push("symfony");
    }
    proof {
        let v = static_views(path@);
        if subjects_step && backend_step {
            assert(v =~= seq!["subjects"@, "symfony"@]);
        } else if subjects_step {
            assert(v =~= seq!["subjects"@]);
        } else if backend_step {
            assert(v =~= seq!["symfony"@]);
        } else {
            assert(v =~= Seq::<Seq<char>>::empty());
        }
    }
    path
}

fn trimmed_text_or_empty(s: Option<&str>) -> (r: &str)
    ensures
        r@ == trimmed_or_empty(match s { Some(x) => Some(x@), None => None }),
{
    proof { reveal_strlit(""); }
    match s {
        Some(x) => trim_text(x),
        None => "",
    }
}

/// Handles a client message (see `spec_ingress`): `data` is `raw` parsed as
/// JSON, or `{"type":"raw","payload":raw}` when it does not parse.
pub fn route_client_message(
    state: &mut GatewayState,
    connection_id: &str,
    user_id: &str,
    raw: &str,
    data: &JsonValue,
    now_ts: i64,
) -> (r: IngressOutcome)
    requires
        old(state).wf(),
    ensures
        final(state).wf(),
        final(state)@ == spec_ingress(old(state)@, connection_id@, user_id@, raw@, *data, now_ts).0,
        outcome_view(r) == spec_ingress(old(state)@, connection_id@, user_id@, raw@, *data, now_ts).1,
        r matches IngressOutcome::Accepted { relay: Some(d), .. } ==> strictly_sorted(strs(d.subjects@)),
{
    if trim_text(raw).is_empty() {
        return IngressOutcome::Ignored;
    }
    state.mark_connection_alive(connection_id, now_ts);
    let msg_type: &str = match data.get_str("type") {
        Some(t) => t,
        None => "",
    };
    proof {
        reveal_strlit("");
        assert(""@ =~= Seq::<char>::empty());
        assert(msg_type@ == (match json_str(*data, "type"@) { Some(t) => t, None => Seq::<char>::empty() }));
        assert(state@ == spec_mark_alive(old(state)@, connection_id@, now_ts));
    }
    if trim_text(msg_type).is_empty() {
        return rejection("", "invalid_command", "Message type is required.");
    }
    let command_spec = match resolve_command_spec(msg_type) {
        Some(spec) => spec,
        None => { return rejection(msg_type, "unsupported_command", "Command is not registered."); }
    };
    match command_spec.routing_class {
        RoutingClass::NoAuth => {
            return rejection(msg_type, "preauth_only_command", "Command is only allowed during preauth.");
        }
        RoutingClass::GatewayLocal => {
            if str_eq(msg_type, "ping") {
                return IngressOutcome::Accepted { relay: None, publish: None };
            }
            return rejection(msg_type, "invalid_gateway_local_command", "Unsupported gateway-local command.");
        }
        _ => {}
    }
    let subjects_step = command_spec.routing_class == RoutingClass::RelayHotpath;
    let backend_step = command_spec.routing_class == RoutingClass::BackendControl
        || (subjects_step && command_spec.mirror_to_backend);
    let request_id = trimmed_text_or_empty(data.get_str("request_id"));
    if !request_id.is_empty() && backend_step {
        state.bind_request_route_at(request_id, connection_id, user_id, now_ts);
    }
    let publish = BackendPublish {
        command_type: String::from_str(msg_type),
        routing_class: command_spec.routing_class,
        message_type: command_spec.message_type,
        runtime_path: runtime_path_exec(subjects_step, backend_step),
        channel_id: extract_channel_id(data, user_id),
        flags: extract_flags(data),
    };
    if !subjects_step {
        return IngressOutcome::Accepted { relay: None, publish: Some(publish) };
    }
    let targets = collect_relay_targets(data);
    if targets.subjects.len() == 0 {
        if !backend_step {
            return rejection(msg_type, "invalid_relay_targets", "Relay command requires at least one target subject.");
        }
        return IngressOutcome::Accepted { relay: None, publish: Some(publish) };
    }
    let auth_spec = match resolve_relay_authorization_spec(msg_type) {
        Some(s) => s,
        None => {
            return rejection(msg_type, "relay_auth_spec_missing", "Relay command has no authorization metadata.");
        }
    };
    let replay_nonce: Option<&str> = match data.get_str("nonce") {
        Some(n) => Some(n),
        None => data.get_str("header"),
    };
    let operation_key = trimmed_text_or_empty(data.get_str(auth_spec.operation_key_field));
    if operation_key.is_empty() {
        return rejection(msg_type, "relay_operation_key_missing", "Relay command is missing operation key.");
    }
    if auth_spec.requires_relay_context {
        let payload_size_hint: Option<usize> = match data.get_str("ciphertext") {
            Some(c) => Some(c.as_bytes().len()),
            None => None,
        };
        match state.authorize_relay_hotpath(
            user_id,
            msg_type,
            auth_spec,
            operation_key,
            targets.emails.as_slice(),
            replay_nonce,
            payload_size_hint,
            now_ts,
        ) {
            Ok(_decision) => {}
            Err(error) => {
                return rejection(msg_type, error.code(), "Relay authorization failed.");
            }
        }
    }
    let from: Option<String> = if trimmed_text_or_empty(data.get_str("from")).is_empty() {
        Some(String::from_str(user_id))
    } else {
        None
    };
    let relay = RelayDispatch { subjects: targets.subjects, from };
    if backend_step {
        IngressOutcome::Accepted { relay: Some(relay), publish: Some(publish) }
    } else {
        IngressOutcome::Accepted { relay: Some(relay), publish: None }
    }
}

/// Handles a client message at the current time (see `route_client_message`).
pub fn route_client_message_now(
    state: &mut GatewayState,
    connection_id: &str,
    user_id: &str,
    raw: &str,
    data: &JsonValue,
) -> (r: IngressOutcome)
    requires
        old(state).wf(),
    ensures
        final(state).wf(),
        exists|now: i64| final(state)@ == spec_ingress(old(state)@, connection_id@, user_id@, raw@, *data, now).0
            && outcome_view(r) == spec_ingress(old(state)@, connection_id@, user_id@, raw@, *data, now).1,
{
    let now_ts = unix_seconds_now();
    route_client_message(state, connection_id, user_id, raw, data, now_ts)
}

} // verus!
