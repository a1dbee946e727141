//! Relay contexts: the grants that let a sender relay commands straight to
//! peers, how snapshots of them are normalized and merged, and how a relay
//! command is matched against them.

use vstd::prelude::*;
use crate::routes::{AudienceScopeMode, RelayAuthorizationSpec, RelayContextType};
use crate::text::{
    clamp_i64, contains_text, normalize_identity, normalize_unique, normalized_unique,
    saturating_add_i64, spec_lowercase, spec_normalize, spec_trim, str_eq, strs, trim_text,
    lowercase_text,
};

verus! {

/// Seconds a relay context lives when its snapshot gives no expiry.
pub const RELAY_CONTEXT_TTL_SECONDS: i64 = 86400;

/// The lifecycle state of a relay context.
#[derive(Clone, Copy, Debug, PartialEq, Eq, Structural)]
pub enum RelayContextState {
    Opened,
    Active,
    Revoked,
    Closed,
    PolicyVersionBumped,
}

impl RelayContextState {
    /// Only an active context lets commands through.
    pub fn is_relay_permitted(self) -> (r: bool)
        ensures
            r == (self == RelayContextState::Active),
    {
        match self {
            RelayContextState::Active => true,
            _ => false,
        }
    }
}

/// The grant behind a relay context.
#[derive(Clone, Debug)]
pub struct RelayGrant {
    pub grant_id: String,
    pub policy_version: u64,
    pub issued_at: i64,
    pub expires_at: i64,
}

/// The peers that a relay context reaches.
#[derive(Clone, Debug)]
pub struct RelayAudienceScope {
    pub mode: AudienceScopeMode,
    pub peers: Vec<String>,
}

/// One operation (such as a file transfer) that a sender may relay for.
#[derive(Clone, Debug)]
pub struct RelayOperationContext {
    pub context_id: String,
    pub operation_key: String,
    pub operation_class: String,
    pub context_type: RelayContextType,
    pub state: RelayContextState,
    pub authorized_subject: String,
    pub audience_scope: RelayAudienceScope,
    pub allowed_command_families: Vec<String>,
    pub policy_version: u64,
    pub grant: RelayGrant,
    pub opened_at: i64,
    pub updated_at: i64,
    pub expires_at: i64,
}

/// A backend snapshot of one subject's relay contexts.
#[derive(Clone, Debug)]
pub struct RelayContextSnapshot {
    pub subject_email: String,
    pub context_type: RelayContextType,
    pub policy_version: u64,
    pub contexts: Vec<RelayOperationContext>,
    pub received_at: i64,
}

/// The relay contexts the gateway holds for one subject.
#[derive(Clone, Debug)]
pub struct RelaySubjectContexts {
    pub context_type: RelayContextType,
    pub policy_version: u64,
    pub updated_at: i64,
    pub contexts: Vec<RelayOperationContext>,
}

/// The context that authorized a relay command.
#[derive(Clone, Debug)]
pub struct RelayAuthDecision {
    pub context_id: String,
    pub policy_version: u64,
}

/// Why a relay command was refused.
#[derive(Clone, Debug, PartialEq, Eq, Structural)]
pub enum RelayAuthError {
    MissingContext,
    SenderBindingInvalid,
    ScopeViolation,
    ContextStateInvalid(RelayContextState),
    GrantExpired,
    GrantInvalid,
    PolicyVersionMismatch,
    ReplayDetected,
    RateLimited,
    PayloadTooLarge,
}

impl RelayAuthError {
    /// The error code sent to the client.
    pub open spec fn spec_code(&self) -> Seq<char> {
        match self {
            RelayAuthError::MissingContext => "relay_context_missing"@,
            RelayAuthError::SenderBindingInvalid => "relay_sender_binding_invalid"@,
            RelayAuthError::ScopeViolation => "relay_scope_violation"@,
            RelayAuthError::ContextStateInvalid(RelayContextState::Revoked) => "relay_context_revoked"@,
            RelayAuthError::ContextStateInvalid(RelayContextState::Closed) => "relay_context_closed"@,
            RelayAuthError::ContextStateInvalid(RelayContextState::PolicyVersionBumped) => "relay_context_policy_version_bumped"@,
            RelayAuthError::ContextStateInvalid(RelayContextState::Opened) => "relay_context_not_active"@,
            RelayAuthError::ContextStateInvalid(RelayContextState::Active) => "relay_context_invalid_state"@,
            RelayAuthError::GrantExpired => "relay_grant_expired"@,
            RelayAuthError::GrantInvalid => "relay_grant_invalid"@,
            RelayAuthError::PolicyVersionMismatch => "relay_policy_version_mismatch"@,
            RelayAuthError::ReplayDetected => "relay_replay_detected"@,
            RelayAuthError::RateLimited => "relay_rate_limited"@,
            RelayAuthError::PayloadTooLarge => "relay_payload_too_large"@,
        }
    }

    pub fn code(&self) -> (r: &'static str)
        ensures
            r@ == self.spec_code(),
    {
        match self {
            RelayAuthError::MissingContext => "relay_context_missing",
            RelayAuthError::SenderBindingInvalid => "relay_sender_binding_invalid",
            RelayAuthError::ScopeViolation => "relay_scope_violation",
            RelayAuthError::ContextStateInvalid(RelayContextState::Revoked) => "relay_context_revoked",
            RelayAuthError::ContextStateInvalid(RelayContextState::Closed) => "relay_context_closed",
            RelayAuthError::ContextStateInvalid(RelayContextState::PolicyVersionBumped) => "relay_context_policy_version_bumped",
            RelayAuthError::ContextStateInvalid(RelayContextState::Opened) => "relay_context_not_active",
            RelayAuthError::ContextStateInvalid(RelayContextState::Active) => "relay_context_invalid_state",
            RelayAuthError::GrantExpired => "relay_grant_expired",
            RelayAuthError::GrantInvalid => "relay_grant_invalid",
            RelayAuthError::PolicyVersionMismatch => "relay_policy_version_mismatch",
            RelayAuthError::ReplayDetected => "relay_replay_detected",
            RelayAuthError::RateLimited => "relay_rate_limited",
            RelayAuthError::PayloadTooLarge => "relay_payload_too_large",
        }
    }
}

/// A grant as plain values.
pub struct RelayGrantView {
    pub grant_id: Seq<char>,
    pub policy_version: u64,
    pub issued_at: i64,
    pub expires_at: i64,
}

/// An audience scope as plain values.
pub struct RelayAudienceScopeView {
    pub mode: AudienceScopeMode,
    pub peers: Seq<Seq<char>>,
}

/// A relay context as plain values.
pub struct RelayOperationContextView {
    pub context_id: Seq<char>,
    pub operation_key: Seq<char>,
    pub operation_class: Seq<char>,
    pub context_type: RelayContextType,
    pub state: RelayContextState,
    pub authorized_subject: Seq<char>,
    pub audience_scope: RelayAudienceScopeView,
    pub allowed_command_families: Seq<Seq<char>>,
    pub policy_version: u64,
    pub grant: RelayGrantView,
    pub opened_at: i64,
    pub updated_at: i64,
    pub expires_at: i64,
}

/// A subject's relay contexts as plain values.
pub struct RelaySubjectContextsView {
    pub context_type: RelayContextType,
    pub policy_version: u64,
    pub updated_at: i64,
    pub contexts: Seq<RelayOperationContextView>,
}

/// A snapshot as plain values.
pub struct RelayContextSnapshotView {
    pub subject_email: Seq<char>,
    pub context_type: RelayContextType,
    pub policy_version: u64,
    pub contexts: Seq<RelayOperationContextView>,
    pub received_at: i64,
}

impl View for RelayGrant {
    type V = RelayGrantView;

    open spec fn view(&self) -> RelayGrantView {
        RelayGrantView {
            grant_id: self.grant_id@,
            policy_version: self.policy_version,
            issued_at: self.issued_at,
            expires_at: self.expires_at,
        }
    }
}

impl View for RelayAudienceScope {
    type V = RelayAudienceScopeView;

    open spec fn view(&self) -> RelayAudienceScopeView {
        RelayAudienceScopeView { mode: self.mode, peers: strs(self.peers@) }
    }
}

impl View for RelayOperationContext {
    type V = RelayOperationContextView;

    open spec fn view(&self) -> RelayOperationContextView {
        RelayOperationContextView {
            context_id: self.context_id@,
            operation_key: self.operation_key@,
            operation_class: self.operation_class@,
            context_type: self.context_type,
            state: self.state,
            authorized_subject: self.authorized_subject@,
            audience_scope: self.audience_scope@,
            allowed_command_families: strs(self.allowed_command_families@),
            policy_version: self.policy_version,
            grant: self.grant@,
            opened_at: self.opened_at,
            updated_at: self.updated_at,
            expires_at: self.expires_at,
        }
    }
}

/// The plain views of a list of relay contexts.
pub open spec fn context_views(v: Seq<RelayOperationContext>) -> Seq<RelayOperationContextView> {
    v.map_values(|c: RelayOperationContext| c@)
}

impl View for RelaySubjectContexts {
    type V = RelaySubjectContextsView;

    open spec fn view(&self) -> RelaySubjectContextsView {
        RelaySubjectContextsView {
            context_type: self.context_type,
            policy_version: self.policy_version,
            updated_at: self.updated_at,
            contexts: context_views(self.contexts@),
        }
    }
}

impl View for RelayContextSnapshot {
    type V = RelayContextSnapshotView;

    open spec fn view(&self) -> RelayContextSnapshotView {
        RelayContextSnapshotView {
            subject_email: self.subject_email@,
            context_type: self.context_type,
            policy_version: self.policy_version,
            contexts: context_views(self.contexts@),
            received_at: self.received_at,
        }
    }
}

impl RelayOperationContext {
    /// A copy of this context.
    pub fn duplicate(&self) -> (r: RelayOperationContext)
        ensures
            r@ == self@,
    {
        RelayOperationContext {
            context_id: self.context_id.clone(),
            operation_key: self.operation_key.clone(),
            operation_class: self.operation_class.clone(),
            context_type: self.context_type,
            state: self.state,
            authorized_subject: self.authorized_subject.clone(),
            audience_scope: RelayAudienceScope {
                mode: self.audience_scope.mode,
                peers: crate::connection::clone_strings(&self.audience_scope.peers),
            },
            allowed_command_families: crate::connection::clone_strings(&self.allowed_command_families),
            policy_version: self.policy_version,
            grant: RelayGrant {
                grant_id: self.grant.grant_id.clone(),
                policy_version: self.grant.policy_version,
                issued_at: self.grant.issued_at,
                expires_at: self.grant.expires_at,
            },
            opened_at: self.opened_at,
            updated_at: self.updated_at,
            expires_at: self.expires_at,
        }
    }
}

/// Copies a list of relay contexts.
pub fn duplicate_contexts(v: &Vec<RelayOperationContext>) -> (r: Vec<RelayOperationContext>)
    ensures
        context_views(r@) == context_views(v@),
{
    let mut r: Vec<RelayOperationContext> = Vec::new();
    let mut i: usize = 0;
    while i < v.len()
        invariant
            i <= v@.len(),
            context_views(r@) == context_views(v@).take(i as int),
        decreases v@.len() - i,
    {
        let c = v[i].duplicate();
        let ghost before = r@;
        r.push(c);
        proof {
            assert(context_views(r@) =~= context_views(before).push(v@[i as int]@));
            assert(context_views(v@).take(i + 1) =~= context_views(v@).take(i as int).push(v@[i as int]@));
        }
        i = i + 1;
    }
    assert(context_views(v@).take(v@.len() as int) =~= context_views(v@));
    r
}

impl RelaySubjectContexts {
    /// A copy of these contexts.
    pub fn duplicate(&self) -> (r: RelaySubjectContexts)
        ensures
            r@ == self@,
    {
        RelaySubjectContexts {
            context_type: self.context_type,
            policy_version: self.policy_version,
            updated_at: self.updated_at,
            contexts: duplicate_contexts(&self.contexts),
        }
    }
}


/// A context from a snapshot for `subject`, normalized: identities trimmed
/// and lower-cased, command families and peers deduplicated, missing expiries
/// filled in. `None` when the context does not belong to `subject` or type
/// `context_type`, or lacks families, peers, an id or an operation key.
pub open spec fn spec_normalize_context(
    c: RelayOperationContextView,
    subject: Seq<char>,
    context_type: RelayContextType,
    now: i64,
) -> Option<RelayOperationContextView> {
    match spec_normalize(c.authorized_subject) {
        None => None,
        Some(authorized) => {
            let families = normalized_unique(c.allowed_command_families);
            let peers = normalized_unique(c.audience_scope.peers);
            let context_id = spec_trim(c.context_id);
            let operation_key = spec_trim(c.operation_key);
            if authorized != subject || c.context_type != context_type || families.len() == 0
                || peers.len() == 0 || context_id.len() == 0 || operation_key.len() == 0 {
                None
            } else {
                let expires_at = if c.expires_at > 0 {
                    c.expires_at
                } else {
                    clamp_i64(now + RELAY_CONTEXT_TTL_SECONDS)
                };
                let grant_expires_at = if c.grant.expires_at > 0 { c.grant.expires_at } else { expires_at };
                Some(RelayOperationContextView {
                    context_id,
                    operation_key,
                    operation_class: spec_trim(c.operation_class),
                    context_type: c.context_type,
                    state: c.state,
                    authorized_subject: authorized,
                    audience_scope: RelayAudienceScopeView { mode: c.audience_scope.mode, peers },
                    allowed_command_families: families,
                    policy_version: c.policy_version,
                    grant: RelayGrantView {
                        grant_id: spec_trim(c.grant.grant_id),
                        policy_version: c.grant.policy_version,
                        issued_at: c.grant.issued_at,
                        expires_at: grant_expires_at,
                    },
                    opened_at: c.opened_at,
                    updated_at: c.updated_at,
                    expires_at,
                })
            }
        },
    }
}

fn trimmed_owned(s: &str) -> (r: String)
    ensures
        r@ == spec_trim(s@),
{
    String::from_str(trim_text(s))
}

/// Normalizes one context of a snapshot for `subject` (see `spec_normalize_context`).
pub fn normalize_context(
    c: &RelayOperationContext,
    subject: &str,
    context_type: RelayContextType,
    now_ts: i64,
) -> (r: Option<RelayOperationContext>)
    ensures
        match r {
            Some(n) => spec_normalize_context(c@, subject@, context_type, now_ts) == Some(n@),
            None => spec_normalize_context(c@, subject@, context_type, now_ts) is None,
        },
{
    let authorized = match normalize_identity(c.authorized_subject.as_str()) {
        Some(a) => a,
        None => return None,
    };
    if !str_eq(authorized.as_str(), subject) {
        return None;
    }
    if c.context_type != context_type {
        return None;
    }
    let families = normalize_unique(&c.allowed_command_families);
    if families.len() == 0 {
        return None;
    }
    let peers = normalize_unique(&c.audience_scope.peers);
    if peers.len() == 0 {
        return None;
    }
    let context_id = trimmed_owned(c.context_id.as_str());
    if context_id.as_str().is_empty() {
        return None;
    }
    let operation_key = trimmed_owned(c.operation_key.as_str());
    if operation_key.as_str().is_empty() {
        return None;
    }
    let expires_at = if c.expires_at > 0 {
        c.expires_at
    } else {
        saturating_add_i64(now_ts, RELAY_CONTEXT_TTL_SECONDS)
    };
    let grant_expires_at = if c.grant.expires_at > 0 { c.grant.expires_at } else { expires_at };
    Some(RelayOperationContext {
        context_id,
        operation_key,
        operation_class: trimmed_owned(c.operation_class.as_str()),
        context_type: c.context_type,
        state: c.state,
        authorized_subject: authorized,
        audience_scope: RelayAudienceScope { mode: c.audience_scope.mode, peers },
        allowed_command_families: families,
        policy_version: c.policy_version,
        grant: RelayGrant {
            grant_id: trimmed_owned(c.grant.grant_id.as_str()),
            policy_version: c.grant.policy_version,
            issued_at: c.grant.issued_at,
            expires_at: grant_expires_at,
        },
        opened_at: c.opened_at,
        updated_at: c.updated_at,
        expires_at,
    })
}

/// The normalized contexts of a snapshot for `subject`, in snapshot order.
pub open spec fn incoming_contexts(
    cs: Seq<RelayOperationContextView>,
    subject: Seq<char>,
    context_type: RelayContextType,
    now: i64,
) -> Seq<RelayOperationContextView>
    decreases cs.len(),
{
    if cs.len() == 0 {
        Seq::empty()
    } else {
        let rest = incoming_contexts(cs.drop_last(), subject, context_type, now);
        match spec_normalize_context(cs.last(), subject, context_type, now) {
            Some(n) => rest.push(n),
            None => rest,
        }
    }
}

/// The contexts that are not expired at `now`.
pub open spec fn unexpired_contexts(cs: Seq<RelayOperationContextView>, now: i64) -> Seq<RelayOperationContextView>
    decreases cs.len(),
{
    if cs.len() == 0 {
        Seq::empty()
    } else {
        let rest = unexpired_contexts(cs.drop_last(), now);
        if now > cs.last().expires_at { rest } else { rest.push(cs.last()) }
    }
}

/// The contexts whose operation key differs from `key`.
pub open spec fn without_operation(cs: Seq<RelayOperationContextView>, key: Seq<char>) -> Seq<RelayOperationContextView>
    decreases cs.len(),
{
    if cs.len() == 0 {
        Seq::empty()
    } else {
        let rest = without_operation(cs.drop_last(), key);
        if cs.last().operation_key == key { rest } else { rest.push(cs.last()) }
    }
}

/// Applies each incoming context in order, replacing any context with the
/// same operation key.
pub open spec fn upsert_contexts(
    cs: Seq<RelayOperationContextView>,
    incoming: Seq<RelayOperationContextView>,
) -> Seq<RelayOperationContextView>
    decreases incoming.len(),
{
    if incoming.len() == 0 {
        cs
    } else {
        let before = upsert_contexts(cs, incoming.drop_last());
        without_operation(before, incoming.last().operation_key).push(incoming.last())
    }
}

/// Byte strings in lexicographic order, shorter prefix first (the order of `str`).
pub open spec fn bytes_less(a: Seq<u8>, b: Seq<u8>) -> bool
    decreases a.len(),
{
    if a.len() == 0 {
        b.len() > 0
    } else if b.len() == 0 {
        false
    } else if a[0] != b[0] {
        a[0] < b[0]
    } else {
        bytes_less(a.drop_first(), b.drop_first())
    }
}

/// Context `a` sorts before `b`: by update time, then by operation key.
pub open spec fn context_before(a: RelayOperationContextView, b: RelayOperationContextView) -> bool {
    a.updated_at < b.updated_at || (a.updated_at == b.updated_at && bytes_less(
        vstd::utf8::encode_utf8(a.operation_key),
        vstd::utf8::encode_utf8(b.operation_key),
    ))
}

/// Inserts `x` into a sorted list after every context it does not sort before.
pub open spec fn insert_sorted(s: Seq<RelayOperationContextView>, x: RelayOperationContextView) -> Seq<RelayOperationContextView>
    decreases s.len(),
{
    if s.len() == 0 {
        seq![x]
    } else if context_before(x, s.last()) {
        insert_sorted(s.drop_last(), x).push(s.last())
    } else {
        s.push(x)
    }
}

/// A stable sort of contexts by update time, then operation key.
pub open spec fn sort_contexts(s: Seq<RelayOperationContextView>) -> Seq<RelayOperationContextView>
    decreases s.len(),
{
    if s.len() == 0 {
        s
    } else {
        insert_sorted(sort_contexts(s.drop_last()), s.last())
    }
}

/// What a subject's relay contexts become when a snapshot for it arrives;
/// `None` when the snapshot is stale (older policy version, same type) and is
/// ignored.
pub open spec fn spec_merge_snapshot(
    existing: Option<RelaySubjectContextsView>,
    snapshot: RelayContextSnapshotView,
    subject: Seq<char>,
    now: i64,
) -> Option<RelaySubjectContextsView> {
    let incoming = incoming_contexts(snapshot.contexts, subject, snapshot.context_type, now);
    match existing {
        Some(e) => {
            if e.context_type == snapshot.context_type && snapshot.policy_version < e.policy_version {
                None
            } else if e.context_type == snapshot.context_type {
                Some(RelaySubjectContextsView {
                    context_type: snapshot.context_type,
                    policy_version: if snapshot.policy_version >= e.policy_version { snapshot.policy_version } else { e.policy_version },
                    updated_at: snapshot.received_at,
                    contexts: sort_contexts(upsert_contexts(unexpired_contexts(e.contexts, now), incoming)),
                })
            } else {
                Some(RelaySubjectContextsView {
                    context_type: snapshot.context_type,
                    policy_version: snapshot.policy_version,
                    updated_at: snapshot.received_at,
                    contexts: sort_contexts(upsert_contexts(Seq::empty(), incoming)),
                })
            }
        },
        None => Some(RelaySubjectContextsView {
            context_type: snapshot.context_type,
            policy_version: snapshot.policy_version,
            updated_at: snapshot.received_at,
            contexts: sort_contexts(upsert_contexts(Seq::empty(), incoming)),
        }),
    }
}


/// The normalized contexts of a snapshot for `subject`, in snapshot order.
pub fn normalize_contexts(
    cs: &Vec<RelayOperationContext>,
    subject: &str,
    context_type: RelayContextType,
    now_ts: i64,
) -> (r: Vec<RelayOperationContext>)
    ensures
        context_views(r@) == incoming_contexts(context_views(cs@), subject@, context_type, now_ts),
{
    let ghost all = context_views(cs@);
    let mut out: Vec<RelayOperationContext> = Vec::new();
    let mut i: usize = 0;
    proof { assert(all.take(0) =~= Seq::<RelayOperationContextView>::empty()); }
    while i < cs.len()
        invariant
            i <= cs@.len(),
            all == context_views(cs@),
            context_views(out@) == incoming_contexts(all.take(i as int), subject@, context_type, now_ts),
        decreases cs@.len() - i,
    {
        proof {
            assert(all.take(i + 1).drop_last() =~= all.take(i as int));
            assert(all.take(i + 1).last() == cs@[i as int]@);
        }
        match normalize_context(&cs[i], subject, context_type, now_ts) {
            Some(n) => {
                let ghost before = out@;
                out.push(n);
                proof { assert(context_views(out@) =~= context_views(before).push(n@)); }
            }
            None => {}
        }
        i = i + 1;
    }
    proof { assert(all.take(cs@.len() as int) =~= all); }
    out
}

/// Keeps the contexts that are not expired at `now_ts`, in order.
pub fn keep_unexpired(cs: Vec<RelayOperationContext>, now_ts: i64) -> (r: Vec<RelayOperationContext>)
    ensures
        context_views(r@) == unexpired_contexts(context_views(cs@), now_ts),
{
    let ghost all = context_views(cs@);
    let mut rest = cs;
    let mut out: Vec<RelayOperationContext> = Vec::new();
    let ghost mut i: int = 0;
    proof {
        assert(all.take(0) =~= Seq::<RelayOperationContextView>::empty());
        assert(context_views(rest@) =~= all.skip(0));
    }
    while rest.len() > 0
        invariant
            0 <= i <= all.len(),
            context_views(rest@) == all.skip(i),
            rest@.len() == all.len() - i,
            context_views(out@) == unexpired_contexts(all.take(i), now_ts),
        decreases rest@.len(),
    {
        proof { assert(context_views(rest@)[0] == rest@[0]@); }
        let ghost rb = rest@;
        let c = rest.remove(0);
        proof {
            assert(c@ == all[i]);
            assert(context_views(rest@) =~= context_views(rb).drop_first());
            assert(context_views(rest@) =~= all.skip(i + 1));
            assert(all.take(i + 1).drop_last() =~= all.take(i));
            assert(all.take(i + 1).last() == all[i]);
        }
        if !(now_ts > c.expires_at) {
            let ghost before = out@;
            out.push(c);
            proof { assert(context_views(out@) =~= context_views(before).push(all[i])); }
        }
        proof { i = i + 1; }
    }
    proof { assert(all.take(i) =~= all); }
    out
}

/// Removes the contexts whose operation key is `key`, keeping the order of the others.
pub fn remove_operation(cs: Vec<RelayOperationContext>, key: &str) -> (r: Vec<RelayOperationContext>)
    ensures
        context_views(r@) == without_operation(context_views(cs@), key@),
{
    let ghost all = context_views(cs@);
    let mut rest = cs;
    let mut out: Vec<RelayOperationContext> = Vec::new();
    let ghost mut i: int = 0;
    proof {
        assert(all.take(0) =~= Seq::<RelayOperationContextView>::empty());
        assert(context_views(rest@) =~= all.skip(0));
    }
    while rest.len() > 0
        invariant
            0 <= i <= all.len(),
            context_views(rest@) == all.skip(i),
            rest@.len() == all.len() - i,
            context_views(out@) == without_operation(all.take(i), key@),
        decreases rest@.len(),
    {
        proof { assert(context_views(rest@)[0] == rest@[0]@); }
        let ghost rb = rest@;
        let c = rest.remove(0);
        proof {
            assert(c@ == all[i]);
            assert(context_views(rest@) =~= context_views(rb).drop_first());
            assert(context_views(rest@) =~= all.skip(i + 1));
            assert(all.take(i + 1).drop_last() =~= all.take(i));
            assert(all.take(i + 1).last() == all[i]);
        }
        if !str_eq(c.operation_key.as_str(), key) {
            let ghost before = out@;
            out.push(c);
            proof { assert(context_views(out@) =~= context_views(before).push(all[i])); }
        }
        proof { i = i + 1; }
    }
    proof { assert(all.take(i) =~= all); }
    out
}

/// Applies incoming contexts in order, each replacing any context with the same operation key.
pub fn upsert_all(cs: Vec<RelayOperationContext>, incoming: Vec<RelayOperationContext>) -> (r: Vec<RelayOperationContext>)
    ensures
        context_views(r@) == upsert_contexts(context_views(cs@), context_views(incoming@)),
{
    let ghost base = context_views(cs@);
    let ghost inc = context_views(incoming@);
    let mut acc = cs;
    let mut rest = incoming;
    let ghost mut i: int = 0;
    proof {
        assert(inc.take(0) =~= Seq::<RelayOperationContextView>::empty());
        assert(context_views(rest@) =~= inc.skip(0));
    }
    while rest.len() > 0
        invariant
            0 <= i <= inc.len(),
            context_views(rest@) == inc.skip(i),
            rest@.len() == inc.len() - i,
            context_views(acc@) == upsert_contexts(base, inc.take(i)),
        decreases rest@.len(),
    {
        proof { assert(context_views(rest@)[0] == rest@[0]@); }
        let ghost rb = rest@;
        let x = rest.remove(0);
        proof {
            assert(x@ == inc[i]);
            assert(context_views(rest@) =~= context_views(rb).drop_first());
            assert(context_views(rest@) =~= inc.skip(i + 1));
            assert(inc.take(i + 1).drop_last() =~= inc.take(i));
            assert(inc.take(i + 1).last() == inc[i]);
        }
        let mut kept = remove_operation(acc, x.operation_key.as_str());
        let ghost before = kept@;
        kept.push(x);
        proof { assert(context_views(kept@) =~= context_views(before).push(inc[i])); }
        acc = kept;
        proof { i = i + 1; }
    }
    proof { assert(inc.take(i) =~= inc); }
    acc
}

/// Whether byte string `a` sorts before `b` (the order of `str`).
pub fn bytes_before(a: &[u8], b: &[u8]) -> (r: bool)
    ensures
        r == bytes_less(a@, b@),
{
    let mut i: usize = 0;
    proof {
        assert(a@.skip(0) =~= a@);
        assert(b@.skip(0) =~= b@);
    }
    while i < a.len() && i < b.len()
        invariant
            i <= a@.len(),
            i <= b@.len(),
            bytes_less(a@, b@) == bytes_less(a@.skip(i as int), b@.skip(i as int)),
        decreases a@.len() - i,
    {
        if a[i] != b[i] {
            return a[i] < b[i];
        }
        proof {
            assert(a@.skip(i as int).drop_first() =~= a@.skip(i + 1));
            assert(b@.skip(i as int).drop_first() =~= b@.skip(i + 1));
        }
        i = i + 1;
    }
    i == a.len() && i < b.len()
}

fn sorts_before(a: &RelayOperationContext, b: &RelayOperationContext) -> (r: bool)
    ensures
        r == context_before(a@, b@),
{
    if a.updated_at < b.updated_at {
        true
    } else if a.updated_at == b.updated_at {
        bytes_before(a.operation_key.as_str().as_bytes(), b.operation_key.as_str().as_bytes())
    } else {
        false
    }
}

#[verifier::rlimit(40)]
#[verifier::spinoff_prover]
fn insert_into_sorted(sorted: &mut Vec<RelayOperationContext>, x: RelayOperationContext)
    ensures
        context_views(final(sorted)@) == insert_sorted(context_views(old(sorted)@), x@),
{
    let ghost s = context_views(sorted@);
    let mut j: usize = sorted.len();
    proof {
        assert(s.take(j as int) =~= s);
        assert(s.skip(j as int) =~= Seq::<RelayOperationContextView>::empty());
        assert(insert_sorted(s, x@) =~= insert_sorted(s.take(j as int), x@) + s.skip(j as int));
    }
    while j > 0 && sorts_before(&x, &sorted[j - 1])
        invariant
            j <= sorted@.len(),
            s == context_views(sorted@),
            insert_sorted(s, x@) == insert_sorted(s.take(j as int), x@) + s.skip(j as int),
        decreases j,
    {
        proof {
            let t = s.take(j as int);
            assert(t.last() == s[j - 1]);
            assert(t.drop_last() =~= s.take(j - 1));
            assert(insert_sorted(t, x@) == insert_sorted(s.take(j - 1), x@).push(s[j - 1]));
            assert(s.skip(j - 1) =~= seq![s[j - 1]] + s.skip(j as int));
            assert(insert_sorted(s.take(j - 1), x@).push(s[j - 1]) + s.skip(j as int)
                =~= insert_sorted(s.take(j - 1), x@) + s.skip(j - 1));
        }
        j = j - 1;
    }
    proof {
        let t = s.take(j as int);
        if j > 0 {
            assert(insert_sorted(t, x@) == t.push(x@));
        } else {
            assert(insert_sorted(t, x@) == seq![x@]);
        }
    }
    let ghost before = sorted@;
    sorted.insert(j, x);
    proof {
        assert(context_views(sorted@) =~= s.take(j as int).push(x@) + s.skip(j as int));
        if j > 0 {
            assert(s.take(j as int).push(x@) + s.skip(j as int) =~= insert_sorted(s.take(j as int), x@) + s.skip(j as int));
        } else {
            assert(s.take(0).push(x@) =~= seq![x@]);
        }
    }
}

/// Sorts contexts by update time, then operation key, keeping the order of ties.
pub fn sort_by_update(cs: Vec<RelayOperationContext>) -> (r: Vec<RelayOperationContext>)
    ensures
        context_views(r@) == sort_contexts(context_views(cs@)),
{
    let ghost all = context_views(cs@);
    let mut rest = cs;
    let mut sorted: Vec<RelayOperationContext> = Vec::new();
    let ghost mut i: int = 0;
    proof {
        assert(all.take(0) =~= Seq::<RelayOperationContextView>::empty());
        assert(context_views(rest@) =~= all.skip(0));
    }
    while rest.len() > 0
        invariant
            0 <= i <= all.len(),
            context_views(rest@) == all.skip(i),
            rest@.len() == all.len() - i,
            context_views(sorted@) == sort_contexts(all.take(i)),
        decreases rest@.len(),
    {
        proof { assert(context_views(rest@)[0] == rest@[0]@); }
        let ghost rb = rest@;
        let x = rest.remove(0);
        proof {
            assert(x@ == all[i]);
            assert(context_views(rest@) =~= context_views(rb).drop_first());
            assert(context_views(rest@) =~= all.skip(i + 1));
            assert(all.take(i + 1).drop_last() =~= all.take(i));
            assert(all.take(i + 1).last() == all[i]);
        }
        insert_into_sorted(&mut sorted, x);
        proof { i = i + 1; }
    }
    proof { assert(all.take(i) =~= all); }
    sorted
}

/// The plain view of an optional subject entry.
pub open spec fn opt_subject_view(e: Option<&RelaySubjectContexts>) -> Option<RelaySubjectContextsView> {
    match e {
        Some(x) => Some(x@),
        None => None,
    }
}

/// Merges a snapshot into a subject's relay contexts (see `spec_merge_snapshot`).
pub fn merge_snapshot(
    existing: Option<&RelaySubjectContexts>,
    snapshot: &RelayContextSnapshot,
    subject: &str,
    now_ts: i64,
) -> (r: Option<RelaySubjectContexts>)
    ensures
        match r {
            Some(n) => spec_merge_snapshot(opt_subject_view(existing), snapshot@, subject@, now_ts) == Some(n@),
            None => spec_merge_snapshot(opt_subject_view(existing), snapshot@, subject@, now_ts) is None,
        },
{
    let incoming = normalize_contexts(&snapshot.contexts, subject, snapshot.context_type, now_ts);
    let mut next_contexts: Vec<RelayOperationContext> = Vec::new();
    let mut next_policy_version = snapshot.policy_version;
    match existing {
        Some(e) => {
            if e.context_type == snapshot.context_type && snapshot.policy_version < e.policy_version {
                return None;
            }
            if e.context_type == snapshot.context_type {
                if e.policy_version > next_policy_version {
                    next_policy_version = e.policy_version;
                }
                next_contexts = keep_unexpired(duplicate_contexts(&e.contexts), now_ts);
            }
        }
        None => {}
    }
    proof {
        assert(context_views(Seq::<RelayOperationContext>::empty()) =~= Seq::<RelayOperationContextView>::empty());
    }
    let merged = upsert_all(next_contexts, incoming);
    let sorted = sort_by_update(merged);
    Some(RelaySubjectContexts {
        context_type: snapshot.context_type,
        policy_version: next_policy_version,
        updated_at: snapshot.received_at,
        contexts: sorted,
    })
}


/// Every target, trimmed and lower-cased, is one of the scope's peers.
pub open spec fn targets_in_scope(peers: Seq<Seq<char>>, targets: Seq<Seq<char>>) -> bool {
    forall|i: int| 0 <= i < targets.len() ==> peers.contains(#[trigger] spec_lowercase(spec_trim(targets[i])))
}

/// A context is about this sender, operation, command family and context type.
pub open spec fn context_applies(
    c: RelayOperationContextView,
    sender: Seq<char>,
    spec: RelayAuthorizationSpec,
    operation_key: Seq<char>,
    family: Seq<char>,
) -> bool {
    &&& c.context_type == spec.relay_context_type
    &&& c.operation_key == operation_key
    &&& c.allowed_command_families.contains(family)
    &&& c.authorized_subject == sender
}

/// The outcome of matching a relay command against contexts `i..`: the index
/// of the context that authorizes it, or the refusal. A context that applies
/// but has a bad grant, a policy version mismatch, an expiry or a state other
/// than active refuses the command; contexts of another scope mode or whose
/// peers miss a target are passed over; when none is left, the targets are out
/// of scope.
pub open spec fn spec_select_from(
    cs: Seq<RelayOperationContextView>,
    i: int,
    sender: Seq<char>,
    spec: RelayAuthorizationSpec,
    operation_key: Seq<char>,
    family: Seq<char>,
    targets: Seq<Seq<char>>,
    now: i64,
) -> Result<int, RelayAuthError>
    decreases cs.len() - i,
{
    if i < 0 || i >= cs.len() {
        Err(RelayAuthError::ScopeViolation)
    } else {
        let c = cs[i];
        if !context_applies(c, sender, spec, operation_key, family) {
            spec_select_from(cs, i + 1, sender, spec, operation_key, family, targets, now)
        } else if spec_trim(c.grant.grant_id).len() == 0 {
            Err(RelayAuthError::GrantInvalid)
        } else if c.policy_version == 0 || c.grant.policy_version == 0 || c.policy_version != c.grant.policy_version {
            Err(RelayAuthError::PolicyVersionMismatch)
        } else if now > c.expires_at || now > c.grant.expires_at {
            Err(RelayAuthError::GrantExpired)
        } else if c.audience_scope.mode != spec.audience_scope_mode {
            spec_select_from(cs, i + 1, sender, spec, operation_key, family, targets, now)
        } else if !targets_in_scope(c.audience_scope.peers, targets) {
            spec_select_from(cs, i + 1, sender, spec, operation_key, family, targets, now)
        } else if c.state != RelayContextState::Active {
            Err(RelayAuthError::ContextStateInvalid(c.state))
        } else {
            Ok(i)
        }
    }
}

/// The command family of a relay spec, trimmed and lower-cased.
pub open spec fn spec_family(spec: RelayAuthorizationSpec) -> Seq<char> {
    spec_lowercase(spec_trim(spec.command_family@))
}

fn all_targets_in_scope(peers: &Vec<String>, targets: &[String]) -> (r: bool)
    ensures
        r == targets_in_scope(strs(peers@), strs(targets@)),
{
    let mut i: usize = 0;
    while i < targets.len()
        invariant
            i <= targets@.len(),
            forall|j: int| 0 <= j < i ==> strs(peers@).contains(#[trigger] spec_lowercase(spec_trim(strs(targets@)[j]))),
        decreases targets@.len() - i,
    {
        let normalized = lowercase_text(trim_text(targets[i].as_str()));
        assert(strs(targets@)[i as int] == targets@[i as int]@);
        if !contains_text(peers, normalized.as_str()) {
            return false;
        }
        i = i + 1;
    }
    true
}

/// Finds the context that authorizes a relay command (see `spec_select_from`).
pub fn select_relay_context(
    contexts: &Vec<RelayOperationContext>,
    sender: &str,
    spec: RelayAuthorizationSpec,
    operation_key: &str,
    targets: &[String],
    now_ts: i64,
) -> (r: Result<usize, RelayAuthError>)
    ensures
        match r {
            Ok(i) => i < contexts@.len() && spec_select_from(context_views(contexts@), 0, sender@, spec, operation_key@,
                spec_family(spec), strs(targets@), now_ts) == Ok::<int, RelayAuthError>(i as int),
            Err(e) => spec_select_from(context_views(contexts@), 0, sender@, spec, operation_key@,
                spec_family(spec), strs(targets@), now_ts) == Err::<int, RelayAuthError>(e),
        },
{
    let ghost cs = context_views(contexts@);
    let family = lowercase_text(trim_text(spec.command_family));
    let mut i: usize = 0;
    while i < contexts.len()
        invariant
            i <= contexts@.len(),
            cs == context_views(contexts@),
            family@ == spec_family(spec),
            spec_select_from(cs, 0, sender@, spec, operation_key@, family@, strs(targets@), now_ts)
                == spec_select_from(cs, i as int, sender@, spec, operation_key@, family@, strs(targets@), now_ts),
        decreases contexts@.len() - i,
    {
        let c = &contexts[i];
        assert(cs[i as int] == c@);
        if c.context_type != spec.relay_context_type
            || !str_eq(c.operation_key.as_str(), operation_key)
            || !contains_text(&c.allowed_command_families, family.as_str())
            || !str_eq(c.authorized_subject.as_str(), sender)
        {
            i = i + 1;
            continue;
        }
        if trim_text(c.grant.grant_id.as_str()).is_empty() {
            return Err(RelayAuthError::GrantInvalid);
        }
        if c.policy_version == 0 || c.grant.policy_version == 0 || c.policy_version != c.grant.policy_version {
            return Err(RelayAuthError::PolicyVersionMismatch);
        }
        if now_ts > c.expires_at || now_ts > c.grant.expires_at {
            return Err(RelayAuthError::GrantExpired);
        }
        if c.audience_scope.mode != spec.audience_scope_mode {
            i = i + 1;
            continue;
        }
        if !all_targets_in_scope(&c.audience_scope.peers, targets) {
            i = i + 1;
            continue;
        }
        if !c.state.is_relay_permitted() {
            return Err(RelayAuthError::ContextStateInvalid(c.state));
        }
        return Ok(i);
    }
    Err(RelayAuthError::ScopeViolation)
}

} // verus!
