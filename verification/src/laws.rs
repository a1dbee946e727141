//! Properties of the gateway state that span several operations.

use vstd::prelude::*;
use crate::connection::{ConnectionInfoView, HandedMessage, Handoff};
use crate::pending::{PendingView, PENDING_MAX_PER_SUBJECT};
use crate::order::{lemma_bytes_less_irreflexive, lemma_bytes_less_total, lemma_bytes_less_transitive};
use crate::relay::{
    context_applies, context_before, incoming_contexts, insert_sorted, sort_contexts, spec_family,
    spec_merge_snapshot, spec_select_from, targets_in_scope, unexpired_contexts, RelayAuthError, RelayContextState,
    upsert_contexts, without_operation, RelayContextSnapshotView, RelayOperationContextView,
    RelaySubjectContextsView, spec_normalize_context,
};
use crate::state::{
    connection_ids_unique, enqueue_all, enqueue_one, find_connection, has_connection, connection_index,
    prune_replay, prune_routes, spec_apply_snapshot, spec_bind_route, spec_check_rate, spec_check_replay,
    spec_clear_route, spec_requeue, spec_resolve_route, spec_unregister, GatewayModel, RouteView,
    add_member_all, new_connection_info, register_evictions, spec_register, spec_unregister_all,
    upsert_connection, ids_of, replay_key, same_instance, without_id, sort_by_connected, user_connections,
    overflow_count, subset_distinct, lemma_user_subset, lemma_sort_subset, lemma_take_subset, lemma_unregister_keeps, dispatch_handed, dispatch_handoffs, target_ids, remove_member_all, remove_member, take_all, spec_authorize, spec_mark_alive,
    RELAY_RATE_LIMIT_DEFAULT, RELAY_REPLAY_TTL_SECONDS, RELAY_REPLAY_CACHE_MAX, REQUEST_ROUTE_TTL_SECONDS, shares_subject,
};
use crate::ingress::{spec_ingress, spec_relay_targets, trimmed_or_empty, relay_nonce, ciphertext_size, IngressView};
use crate::json::{json_get, json_str, json_strings, JsonValue};
use crate::broker::{failed_send, non_blank, or_else, outbox_allows, outbox_handed, spec_parse_snapshot, DeliveryMode, OutboxOutcome};
use crate::routes::{command_entry_of, relay_spec_of, RelayAuthorizationSpec, RelayContextType, RoutingClass};
use crate::text::{clamp_i64, is_normalized, lemma_normalized_unique, lemma_trim_keeps_non_white, spec_normalize, spec_trim};

verus! {

/// A snapshot whose policy version is older than the one held for its
/// subject (same context type) changes nothing.
pub proof fn law_stale_snapshot_ignored(m: GatewayModel, snapshot: RelayContextSnapshotView, now: i64)
    requires
        spec_normalize(snapshot.subject_email) is Some,
        m.relay_contexts.contains_key(spec_normalize(snapshot.subject_email).unwrap()),
        m.relay_contexts[spec_normalize(snapshot.subject_email).unwrap()].context_type == snapshot.context_type,
        snapshot.policy_version < m.relay_contexts[spec_normalize(snapshot.subject_email).unwrap()].policy_version,
    ensures
        spec_apply_snapshot(m, snapshot, now) == m,
{
}

/// For one subject and context type, the policy version held never goes
/// down when a snapshot arrives.
pub proof fn law_policy_version_monotone(m: GatewayModel, snapshot: RelayContextSnapshotView, now: i64)
    requires
        spec_normalize(snapshot.subject_email) is Some,
        m.relay_contexts.contains_key(spec_normalize(snapshot.subject_email).unwrap()),
        m.relay_contexts[spec_normalize(snapshot.subject_email).unwrap()].context_type == snapshot.context_type,
    ensures
        ({
            let s = spec_normalize(snapshot.subject_email).unwrap();
            let after = spec_apply_snapshot(m, snapshot, now);
            &&& after.relay_contexts.contains_key(s)
            &&& after.relay_contexts[s].context_type == snapshot.context_type
            &&& after.relay_contexts[s].policy_version >= m.relay_contexts[s].policy_version
        }),
{
}

/// A snapshot only touches the contexts of its own subject.
pub proof fn law_snapshot_keeps_other_subjects(
    m: GatewayModel,
    snapshot: RelayContextSnapshotView,
    now: i64,
    other: Seq<char>,
)
    requires
        spec_normalize(snapshot.subject_email) != Some(other),
    ensures
        spec_apply_snapshot(m, snapshot, now).relay_contexts.contains_key(other) == m.relay_contexts.contains_key(other),
        m.relay_contexts.contains_key(other) ==> spec_apply_snapshot(m, snapshot, now).relay_contexts[other]
            == m.relay_contexts[other],
{
}

/// A replay key that was accepted at `now` is refused again at any `later`
/// time within the replay window.
pub proof fn law_replay_refused_within_window(m: GatewayModel, key: Seq<char>, now: i64, later: i64)
    requires
        spec_trim(key).len() > 0,
        spec_check_replay(m, key, now).1,
        now <= later,
        later - now <= RELAY_REPLAY_TTL_SECONDS,
    ensures
        !spec_check_replay(spec_check_replay(m, key, now).0, key, later).1,
{
    let seen = m.replay_seen.insert(key, now);
    assert(clamp_i64(now - now) == 0);
    assert(prune_replay(seen, now).contains_key(key));
    assert(prune_replay(seen, now)[key] == now);
    assert(clamp_i64(later - now) == later - now);
}

/// A relay command with a non-blank nonce that was authorized at `first`
/// is refused as a replay when it comes again, with the same nonce (after
/// trimming), at `later` within the replay window, from a state that keeps
/// the relay contexts the first authorization left and the replay-cache
/// entries it recorded at `first` (other operations leave the cache alone,
/// and authorizations in the window keep those entries: see
/// `law_authorize_keeps_recent_replays`), as long as the same context is
/// picked again (it is still active and unexpired).
pub proof fn law_repeated_relay_refused(
    m: GatewayModel,
    m2: GatewayModel,
    sender: Seq<char>,
    command: Seq<char>,
    spec: RelayAuthorizationSpec,
    operation_key: Seq<char>,
    targets: Seq<Seq<char>>,
    nonce: Seq<char>,
    nonce2: Seq<char>,
    payload_size: Option<usize>,
    first: i64,
    later: i64,
)
    requires
        spec_authorize(m, sender, command, spec, operation_key, targets, Some(nonce), payload_size, first).1 is Ok,
        spec_trim(nonce).len() > 0,
        spec_trim(nonce2) == spec_trim(nonce),
        m2.relay_contexts
            == spec_authorize(m, sender, command, spec, operation_key, targets, Some(nonce), payload_size, first).0.relay_contexts,
        forall|k: Seq<char>| #![trigger m2.replay_seen.contains_key(k)]
            spec_authorize(m, sender, command, spec, operation_key, targets, Some(nonce), payload_size, first).0.replay_seen.contains_key(k)
            && spec_authorize(m, sender, command, spec, operation_key, targets, Some(nonce), payload_size, first).0.replay_seen[k] == first
            ==> m2.replay_seen.contains_key(k) && m2.replay_seen[k] == first,
        first <= later,
        later - first <= RELAY_REPLAY_TTL_SECONDS,
        spec_normalize(sender) is Some ==> m.relay_contexts.contains_key(spec_normalize(sender).unwrap()) ==> ({
            let subject = spec_normalize(sender).unwrap();
            let cs = m.relay_contexts[subject].contexts;
            spec_select_from(cs, 0, subject, spec, spec_trim(operation_key), spec_family(spec), targets, later)
                == spec_select_from(cs, 0, subject, spec, spec_trim(operation_key), spec_family(spec), targets, first)
        }),
    ensures
        spec_authorize(m2, sender, command, spec, operation_key, targets, Some(nonce2), payload_size, later).1
            == Err::<(Seq<char>, u64), RelayAuthError>(RelayAuthError::ReplayDetected),
{
    let subject = spec_normalize(sender).unwrap();
    let cs = m.relay_contexts[subject].contexts;
    let i = spec_select_from(cs, 0, subject, spec, spec_trim(operation_key), spec_family(spec), targets, first)->Ok_0;
    let key = replay_key(subject, command, cs[i].context_id, spec_trim(nonce));
    assert(key[subject.len() as int] == '|');
    lemma_trim_keeps_non_white(key, subject.len() as int);
    let checked = spec_check_replay(m, key, first);
    assert(checked.1);
    assert(clamp_i64(first - first) == 0);
    assert(prune_replay(m.replay_seen.insert(key, first), first).contains_key(key));
    assert(checked.0.replay_seen.contains_key(key) && checked.0.replay_seen[key] == first);
    assert(m2.replay_seen.contains_key(key));
    assert(m2.replay_seen[key] == first);
    assert(clamp_i64(later - first) == later - first);
    assert(m2.relay_contexts == m.relay_contexts);
}

/// An authorization at `now` keeps every replay-cache entry recorded within
/// the replay window before `now`, with its time.
pub proof fn law_authorize_keeps_recent_replays(
    m: GatewayModel,
    sender: Seq<char>,
    command: Seq<char>,
    spec: RelayAuthorizationSpec,
    operation_key: Seq<char>,
    targets: Seq<Seq<char>>,
    nonce: Option<Seq<char>>,
    payload_size: Option<usize>,
    now: i64,
    k: Seq<char>,
)
    requires
        m.replay_seen.contains_key(k),
        m.replay_seen[k] <= now,
        now - m.replay_seen[k] <= RELAY_REPLAY_TTL_SECONDS,
    ensures
        ({
            let after = spec_authorize(m, sender, command, spec, operation_key, targets, nonce, payload_size, now).0;
            after.replay_seen.contains_key(k) && after.replay_seen[k] == m.replay_seen[k]
        }),
{
    assert(clamp_i64(now - m.replay_seen[k]) == now - m.replay_seen[k]);
    match spec_normalize(sender) {
        None => {},
        Some(subject) => {
            if m.relay_contexts.contains_key(subject) {
                let cs = m.relay_contexts[subject].contexts;
                match spec_select_from(cs, 0, subject, spec, spec_trim(operation_key), spec_family(spec), targets, now) {
                    Ok(i) => {
                        if nonce is Some && spec_trim(nonce.unwrap()).len() > 0 {
                            let rk = replay_key(subject, command, cs[i].context_id, spec_trim(nonce.unwrap()));
                            let seen = m.replay_seen.insert(rk, now);
                            if rk != k {
                                assert(seen.contains_key(k) && seen[k] == m.replay_seen[k]);
                                if seen.dom().len() > RELAY_REPLAY_CACHE_MAX {
                                    assert(prune_replay(seen, now).contains_key(k));
                                }
                            }
                        }
                    },
                    Err(_) => {},
                }
            }
        },
    }
}

/// Rate counters never count past the limit.
pub proof fn law_rate_counters_bounded(
    m: GatewayModel,
    sender: Seq<char>,
    command: Seq<char>,
    context_id: Seq<char>,
    now: i64,
)
    requires
        forall|k: Seq<char>| #[trigger] m.rate_counters.contains_key(k) ==> m.rate_counters[k].1 <= RELAY_RATE_LIMIT_DEFAULT,
    ensures
        ({
            let after = spec_check_rate(m, sender, command, context_id, now).0;
            forall|k: Seq<char>| #[trigger] after.rate_counters.contains_key(k)
                ==> after.rate_counters[k].1 <= RELAY_RATE_LIMIT_DEFAULT
        }),
{
}

/// A request bound to a live connection of its user resolves, at the same
/// time and without a subject filter, to that connection.
pub proof fn law_bound_route_resolves(
    m: GatewayModel,
    request_id: Seq<char>,
    connection_id: Seq<char>,
    user_id: Seq<char>,
    now: i64,
)
    requires
        spec_trim(request_id).len() > 0,
        connection_id.len() > 0,
        user_id.len() > 0,
        find_connection(m.connections, connection_id) is Some,
        find_connection(m.connections, connection_id).unwrap().user_id == user_id,
    ensures
        spec_resolve_route(spec_bind_route(m, request_id, connection_id, user_id, now), request_id, Seq::empty(), now).1
            == Some(connection_id),
{
    let key = spec_trim(request_id);
    let r = RouteView { connection_id, user_id, updated_at: now };
    let routes = m.routes.insert(key, r);
    assert(clamp_i64(now - now) == 0);
    assert(has_connection(m.connections, connection_id));
    assert(prune_routes(routes, m.connections, now).contains_key(key));
    assert(prune_routes(routes, m.connections, now)[key] == r);
}

/// After a request's route is cleared, it resolves to no connection.
pub proof fn law_cleared_route_resolves_to_none(m: GatewayModel, request_id: Seq<char>, subjects: Seq<Seq<char>>, now: i64)
    ensures
        spec_resolve_route(spec_clear_route(m, request_id), request_id, subjects, now).1 is None,
{
}

/// `remove_member_all` takes the id out of each listed subject and leaves
/// the other subjects as they were.
proof fn lemma_remove_member_all(subjects: Map<Seq<char>, Set<Seq<char>>>, list: Seq<Seq<char>>, id: Seq<char>)
    ensures
        forall|k: Seq<char>| #[trigger] remove_member_all(subjects, list, id).contains_key(k) ==> {
            &&& list.contains(k) ==> !remove_member_all(subjects, list, id)[k].contains(id)
            &&& !list.contains(k) ==> subjects.contains_key(k) && remove_member_all(subjects, list, id)[k] == subjects[k]
        },
    decreases list.len(),
{
    if list.len() > 0 {
        let rest = list.drop_last();
        lemma_remove_member_all(subjects, rest, id);
        let r0 = remove_member_all(subjects, rest, id);
        let r1 = remove_member_all(subjects, list, id);
        assert(r1 == remove_member(r0, list.last(), id));
        assert forall|k: Seq<char>| #[trigger] r1.contains_key(k) implies {
            &&& list.contains(k) ==> !r1[k].contains(id)
            &&& !list.contains(k) ==> subjects.contains_key(k) && r1[k] == subjects[k]
        } by {
            if k != list.last() {
                assert(r0.contains_key(k) && r1[k] == r0[k]);
                if list.contains(k) {
                    let j = choose|j: int| 0 <= j < list.len() && list[j] == k;
                    assert(j < list.len() - 1);
                    assert(rest[j] == k);
                } else {
                    assert forall|j: int| 0 <= j < rest.len() implies rest[j] != k by {
                        assert(list[j] == rest[j]);
                    }
                    assert(!rest.contains(k));
                }
            } else {
                assert(list.contains(k)) by { assert(list[list.len() - 1] == k); }
            }
        }
    }
}

/// Unregistering a connection leaves no connection with its id; when it was
/// registered, every request route that pointed at it is gone too, and when
/// every subject that lists it is one it registered with, no subject lists
/// it any more.
pub proof fn law_unregister_removes(m: GatewayModel, id: Seq<char>)
    requires
        connection_ids_unique(m.connections),
    ensures
        !has_connection(spec_unregister(m, id).connections, id),
        has_connection(m.connections, id) ==> forall|k: Seq<char>| #[trigger] spec_unregister(m, id).routes.contains_key(k)
            ==> spec_unregister(m, id).routes[k].connection_id != id,
        connection_ids_unique(spec_unregister(m, id).connections),
        spec_unregister(spec_unregister(m, id), id) == spec_unregister(m, id),
        has_connection(m.connections, id)
            && (forall|k: Seq<char>| #[trigger] m.subjects.contains_key(k) && m.subjects[k].contains(id)
                ==> find_connection(m.connections, id).unwrap().subjects.contains(k))
            ==> forall|k: Seq<char>| #[trigger] spec_unregister(m, id).subjects.contains_key(k)
                ==> !spec_unregister(m, id).subjects[k].contains(id),
{
    if has_connection(m.connections, id) {
        let i = connection_index(m.connections, id);
        lemma_remove_member_all(m.subjects, m.connections[i].subjects, id);
        let i = connection_index(m.connections, id);
        let cs = m.connections.remove(i);
        assert forall|j: int| 0 <= j < cs.len() implies #[trigger] cs[j].connection_id != id by {
            let j2 = if j < i { j } else { j + 1 };
            assert(cs[j] == m.connections[j2]);
        }
        assert forall|a: int, b: int| 0 <= a < cs.len() && 0 <= b < cs.len() && a != b
            implies cs[a].connection_id != cs[b].connection_id by {
            let a2 = if a < i { a } else { a + 1 };
            let b2 = if b < i { b } else { b + 1 };
            assert(cs[a] == m.connections[a2] && cs[b] == m.connections[b2]);
        }
    }
}

/// Every replay queue stays within the per-subject cap when a message is
/// queued for replay.
pub proof fn law_pending_queues_bounded(m: GatewayModel, subjects: Seq<Seq<char>>, message: Seq<char>, now: i64)
    requires
        forall|s: Seq<char>| #[trigger] m.pending.contains_key(s) ==> m.pending[s].len() <= PENDING_MAX_PER_SUBJECT,
    ensures
        ({
            let after = spec_requeue(m, subjects, message, now);
            forall|s: Seq<char>| #[trigger] after.pending.contains_key(s) ==> after.pending[s].len() <= PENDING_MAX_PER_SUBJECT
        }),
{
    if subjects.len() > 0 && message.len() > 0 {
        lemma_enqueue_all_bounded(m.pending, subjects, PendingView { text: message, enqueued_at: now, sticky_key: None }, None, now);
    }
}

proof fn lemma_enqueue_all_bounded(
    p: Map<Seq<char>, Seq<PendingView>>,
    subjects: Seq<Seq<char>>,
    item: PendingView,
    sticky: Option<Seq<char>>,
    now: i64,
)
    requires
        forall|s: Seq<char>| #[trigger] p.contains_key(s) ==> p[s].len() <= PENDING_MAX_PER_SUBJECT,
    ensures
        forall|s: Seq<char>| #[trigger] enqueue_all(p, subjects, item, sticky, now).contains_key(s)
            ==> enqueue_all(p, subjects, item, sticky, now)[s].len() <= PENDING_MAX_PER_SUBJECT,
    decreases subjects.len(),
{
    if subjects.len() > 0 {
        lemma_enqueue_all_bounded(p, subjects.drop_last(), item, sticky, now);
        let before = enqueue_all(p, subjects.drop_last(), item, sticky, now);
        let s0 = subjects.last();
        assert(enqueue_all(p, subjects, item, sticky, now) == enqueue_one(before, s0, item, sticky, now));
        assert forall|s: Seq<char>| #[trigger] enqueue_one(before, s0, item, sticky, now).contains_key(s)
            implies enqueue_one(before, s0, item, sticky, now)[s].len() <= PENDING_MAX_PER_SUBJECT by {
            if s != s0 {
                assert(before.contains_key(s));
            }
        }
    }
}


/// After a connection registers, it is stored with the description it was
/// registered with, and it is subscribed to each of its subjects.
pub proof fn law_register_stores_connection(
    m: GatewayModel,
    id: Seq<char>,
    user: Seq<char>,
    instance: Seq<char>,
    subjects: Seq<Seq<char>>,
    connected_at: i64,
    now: i64,
)
    requires
        connection_ids_unique(m.connections),
    ensures
        find_connection(spec_register(m, id, user, instance, subjects, connected_at, now).connections, id)
            == Some(new_connection_info(id, user, instance, subjects, connected_at)),
        connection_ids_unique(spec_register(m, id, user, instance, subjects, connected_at, now).connections),
        forall|i: int| 0 <= i < subjects.len() ==> {
            let after = spec_register(m, id, user, instance, subjects, connected_at, now);
            &&& after.subjects.contains_key(#[trigger] subjects[i])
            &&& after.subjects[subjects[i]].contains(id)
        },
{
    let (first, second) = register_evictions(m, id, user, instance);
    lemma_unregister_all_unique(m, ids_of(first));
    let m1 = spec_unregister_all(m, ids_of(first));
    lemma_unregister_all_unique(m1, ids_of(second));
    let m2 = spec_unregister_all(m1, ids_of(second));
    let info = new_connection_info(id, user, instance, subjects, connected_at);
    lemma_upsert_finds(m2.connections, info);
    lemma_add_member_all(m2.subjects, subjects, id);
}

proof fn lemma_unregister_all_unique(m: GatewayModel, ids: Seq<Seq<char>>)
    requires
        connection_ids_unique(m.connections),
    ensures
        connection_ids_unique(spec_unregister_all(m, ids).connections),
    decreases ids.len(),
{
    if ids.len() > 0 {
        lemma_unregister_all_unique(m, ids.drop_last());
        law_unregister_removes(spec_unregister_all(m, ids.drop_last()), ids.last());
    }
}

proof fn lemma_upsert_finds(cs: Seq<ConnectionInfoView>, info: ConnectionInfoView)
    requires
        connection_ids_unique(cs),
    ensures
        connection_ids_unique(upsert_connection(cs, info)),
        find_connection(upsert_connection(cs, info), info.connection_id) == Some(info),
{
    let id = info.connection_id;
    let out = upsert_connection(cs, info);
    if has_connection(cs, id) {
        let i = connection_index(cs, id);
        assert(out == cs.update(i, info));
        assert forall|a: int, b: int| 0 <= a < out.len() && 0 <= b < out.len() && a != b
            implies out[a].connection_id != out[b].connection_id by {
            if a != i && b != i {
                assert(out[a] == cs[a] && out[b] == cs[b]);
            } else if a == i {
                assert(out[b] == cs[b]);
                assert(cs[i].connection_id == id);
            } else {
                assert(out[a] == cs[a]);
                assert(cs[i].connection_id == id);
            }
        }
        assert(out[i].connection_id == id);
        assert(has_connection(out, id));
        let j = connection_index(out, id);
        assert(j == i);
    } else {
        assert(out == cs.push(info));
        assert forall|a: int, b: int| 0 <= a < out.len() && 0 <= b < out.len() && a != b
            implies out[a].connection_id != out[b].connection_id by {
            if a == cs.len() {
                assert(out[b] == cs[b]);
            } else if b == cs.len() {
                assert(out[a] == cs[a]);
            } else {
                assert(out[a] == cs[a] && out[b] == cs[b]);
            }
        }
        let last = cs.len() as int;
        assert(out[last].connection_id == id);
        assert(has_connection(out, id));
        let j = connection_index(out, id);
        assert(j == last);
    }
}

proof fn lemma_add_member_all(
    subjects: Map<Seq<char>, Set<Seq<char>>>,
    list: Seq<Seq<char>>,
    id: Seq<char>,
)
    ensures
        forall|i: int| 0 <= i < list.len() ==> {
            &&& add_member_all(subjects, list, id).contains_key(#[trigger] list[i])
            &&& add_member_all(subjects, list, id)[list[i]].contains(id)
        },
        forall|s: Seq<char>| #[trigger] add_member_all(subjects, list, id).contains_key(s) && s != list.last()
            && add_member_all(subjects, list.drop_last(), id).contains_key(s) && list.len() > 0
            ==> add_member_all(subjects, list, id)[s] == add_member_all(subjects, list.drop_last(), id)[s],
    decreases list.len(),
{
    if list.len() > 0 {
        let rest = list.drop_last();
        lemma_add_member_all(subjects, rest, id);
        let before = add_member_all(subjects, rest, id);
        let after = add_member_all(subjects, list, id);
        assert forall|i: int| 0 <= i < list.len() implies {
            &&& after.contains_key(#[trigger] list[i])
            &&& after[list[i]].contains(id)
        } by {
            if list[i] != list.last() {
                assert(rest[i] == list[i]);
                assert(before.contains_key(rest[i]));
                assert(before[rest[i]].contains(id));
            }
        }
    }
}


/// The operation keys of a list of contexts.
pub open spec fn op_keys(cs: Seq<RelayOperationContextView>) -> Set<Seq<char>> {
    cs.map_values(|c: RelayOperationContextView| c.operation_key).to_set()
}

/// No two contexts share an operation key.
pub open spec fn keys_distinct(cs: Seq<RelayOperationContextView>) -> bool {
    forall|i: int, j: int| 0 <= i < j < cs.len() ==> cs[i].operation_key != cs[j].operation_key
}

/// The contexts are ordered by update time, then operation key.
pub open spec fn contexts_sorted(cs: Seq<RelayOperationContextView>) -> bool {
    forall|i: int, j: int| 0 <= i < j < cs.len() ==> !context_before(#[trigger] cs[j], #[trigger] cs[i])
}

proof fn lemma_before_order(a: RelayOperationContextView, b: RelayOperationContextView, c: RelayOperationContextView)
    ensures
        !context_before(a, a),
        context_before(a, b) ==> !context_before(b, a),
        !context_before(a, b) && !context_before(b, c) ==> !context_before(a, c),
{
    let ea = vstd::utf8::encode_utf8(a.operation_key);
    let eb = vstd::utf8::encode_utf8(b.operation_key);
    let ec = vstd::utf8::encode_utf8(c.operation_key);
    lemma_bytes_less_irreflexive(ea);
    if context_before(a, b) && context_before(b, a) {
        lemma_bytes_less_transitive(ea, eb, ea);
    }
    if !context_before(a, b) && !context_before(b, c) && context_before(a, c) {
        // then a.updated_at == b.updated_at == c.updated_at and the keys are out of order
        if ea != eb {
            lemma_bytes_less_total(ea, eb);
        }
        if eb != ec {
            lemma_bytes_less_total(eb, ec);
        }
        if ea != eb && eb != ec {
            lemma_bytes_less_transitive(ec, eb, ea);
            lemma_bytes_less_transitive(ea, ec, ea);
        } else if ea == eb {
            lemma_bytes_less_transitive(ea, ec, ea);
        } else {
            lemma_bytes_less_transitive(ea, ec, ea);
        }
    }
}

proof fn lemma_insert_sorted_shape(s: Seq<RelayOperationContextView>, x: RelayOperationContextView)
    ensures
        exists|p: int| 0 <= p <= s.len() && #[trigger] insert_sorted(s, x) == s.take(p) + seq![x] + s.skip(p),
    decreases s.len(),
{
    if s.len() == 0 {
        assert(insert_sorted(s, x) =~= s.take(0) + seq![x] + s.skip(0));
    } else if context_before(x, s.last()) {
        let t = s.drop_last();
        lemma_insert_sorted_shape(t, x);
        let p = choose|p: int| 0 <= p <= t.len() && #[trigger] insert_sorted(t, x) == t.take(p) + seq![x] + t.skip(p);
        assert(insert_sorted(s, x) =~= s.take(p) + seq![x] + s.skip(p));
    } else {
        assert(insert_sorted(s, x) =~= s.take(s.len() as int) + seq![x] + s.skip(s.len() as int));
    }
}

proof fn lemma_insert_sorted_sorted(s: Seq<RelayOperationContextView>, x: RelayOperationContextView)
    requires
        contexts_sorted(s),
    ensures
        contexts_sorted(insert_sorted(s, x)),
    decreases s.len(),
{
    if s.len() == 0 {
        return;
    }
    let last = s.last();
    let t = s.drop_last();
    if context_before(x, last) {
        assert(contexts_sorted(t)) by {
            assert forall|i: int, j: int| 0 <= i < j < t.len() implies !context_before(#[trigger] t[j], #[trigger] t[i]) by {
                assert(t[i] == s[i] && t[j] == s[j]);
            }
        }
        lemma_insert_sorted_sorted(t, x);
        lemma_insert_sorted_shape(t, x);
        let u = insert_sorted(t, x);
        let p = choose|p: int| 0 <= p <= t.len() && #[trigger] insert_sorted(t, x) == t.take(p) + seq![x] + t.skip(p);
        let r = u.push(last);
        assert forall|i: int, j: int| 0 <= i < j < r.len() implies !context_before(#[trigger] r[j], #[trigger] r[i]) by {
            if j == r.len() - 1 {
                assert(r[j] == last);
                if i < p {
                    assert(r[i] == s[i]);
                } else if i == p {
                    assert(r[i] == x);
                    lemma_before_order(x, last, x);
                } else {
                    assert(r[i] == s[i - 1]);
                }
            } else {
                assert(r[i] == u[i] && r[j] == u[j]);
            }
        }
    } else {
        let r = s.push(x);
        assert forall|i: int, j: int| 0 <= i < j < r.len() implies !context_before(#[trigger] r[j], #[trigger] r[i]) by {
            if j == s.len() {
                assert(r[i] == s[i]);
                if i < s.len() - 1 {
                    assert(!context_before(s[s.len() - 1], s[i]));
                    lemma_before_order(x, s[s.len() - 1], s[i]);
                }
            } else {
                assert(r[i] == s[i] && r[j] == s[j]);
            }
        }
    }
}

proof fn lemma_sort_contexts(s: Seq<RelayOperationContextView>)
    ensures
        contexts_sorted(sort_contexts(s)),
        op_keys(sort_contexts(s)) == op_keys(s),
        keys_distinct(s) ==> keys_distinct(sort_contexts(s)),
    decreases s.len(),
{
    if s.len() == 0 {
        return;
    }
    let t = s.drop_last();
    let x = s.last();
    lemma_sort_contexts(t);
    let st = sort_contexts(t);
    lemma_insert_sorted_sorted(st, x);
    lemma_insert_sorted_shape(st, x);
    let p = choose|p: int| 0 <= p <= st.len() && #[trigger] insert_sorted(st, x) == st.take(p) + seq![x] + st.skip(p);
    let r = insert_sorted(st, x);
    lemma_op_keys_push(t, x);
    assert(s == t.push(x));
    lemma_op_keys_insert(st, x, p);
    if keys_distinct(s) {
        assert(keys_distinct(t)) by {
            assert forall|i: int, j: int| 0 <= i < j < t.len() implies t[i].operation_key != t[j].operation_key by {
                assert(t[i] == s[i] && t[j] == s[j]);
            }
        }
        assert(!op_keys(t).contains(x.operation_key)) by {
            if op_keys(t).contains(x.operation_key) {
                let m = t.map_values(|c: RelayOperationContextView| c.operation_key);
                let k = choose|k: int| 0 <= k < m.len() && m[k] == x.operation_key;
                assert(s[k].operation_key == s[s.len() - 1].operation_key);
            }
        }
        assert forall|i: int, j: int| 0 <= i < j < r.len() implies r[i].operation_key != r[j].operation_key by {
            let m = st.map_values(|c: RelayOperationContextView| c.operation_key);
            if i < p && j < p {
                assert(r[i] == st[i] && r[j] == st[j]);
            } else if i < p && j == p {
                assert(r[i] == st[i] && m[i] == st[i].operation_key);
                assert(op_keys(st).contains(st[i].operation_key));
            } else if i < p {
                assert(r[i] == st[i] && r[j] == st[j - 1]);
            } else if i == p {
                assert(r[j] == st[j - 1] && m[j - 1] == st[j - 1].operation_key);
                assert(op_keys(st).contains(st[j - 1].operation_key));
            } else {
                assert(r[i] == st[i - 1] && r[j] == st[j - 1]);
            }
        }
    }
}

proof fn lemma_op_keys_push(t: Seq<RelayOperationContextView>, x: RelayOperationContextView)
    ensures
        op_keys(t.push(x)) == op_keys(t).insert(x.operation_key),
{
    let f = |c: RelayOperationContextView| c.operation_key;
    assert(t.push(x).map_values(f) =~= t.map_values(f).push(x.operation_key));
    crate::table::lemma_push_to_set(t.map_values(f), x.operation_key);
}

proof fn lemma_op_keys_insert(st: Seq<RelayOperationContextView>, x: RelayOperationContextView, p: int)
    requires
        0 <= p <= st.len(),
    ensures
        op_keys(st.take(p) + seq![x] + st.skip(p)) == op_keys(st).insert(x.operation_key),
{
    let f = |c: RelayOperationContextView| c.operation_key;
    let r = st.take(p) + seq![x] + st.skip(p);
    let mr = r.map_values(f);
    let ms = st.map_values(f);
    assert forall|k: Seq<char>| mr.contains(k) <==> (ms.contains(k) || k == x.operation_key) by {
        if mr.contains(k) {
            let i = choose|i: int| 0 <= i < mr.len() && mr[i] == k;
            if i < p {
                assert(ms[i] == k);
            } else if i > p {
                assert(ms[i - 1] == k);
            }
        }
        if ms.contains(k) {
            let i = choose|i: int| 0 <= i < ms.len() && ms[i] == k;
            if i < p {
                assert(mr[i] == k);
            } else {
                assert(mr[i + 1] == k);
            }
        }
        if k == x.operation_key {
            assert(mr[p] == k);
        }
    }
    assert(op_keys(r) =~= op_keys(st).insert(x.operation_key));
}

proof fn lemma_without_operation(s: Seq<RelayOperationContextView>, k: Seq<char>)
    ensures
        op_keys(without_operation(s, k)) == op_keys(s).remove(k),
        keys_distinct(s) ==> keys_distinct(without_operation(s, k)),
        forall|i: int| 0 <= i < without_operation(s, k).len() ==> #[trigger] without_operation(s, k)[i].operation_key != k,
    decreases s.len(),
{
    let f = |c: RelayOperationContextView| c.operation_key;
    if s.len() == 0 {
        assert(op_keys(s) =~= Set::<Seq<char>>::empty());
        assert(op_keys(without_operation(s, k)) =~= Set::<Seq<char>>::empty());
        return;
    }
    let t = s.drop_last();
    let x = s.last();
    lemma_without_operation(t, k);
    lemma_op_keys_push(t, x);
    assert(s == t.push(x));
    let w = without_operation(t, k);
    if keys_distinct(s) {
        assert(keys_distinct(t)) by {
            assert forall|i: int, j: int| 0 <= i < j < t.len() implies t[i].operation_key != t[j].operation_key by {
                assert(t[i] == s[i] && t[j] == s[j]);
            }
        }
    }
    if x.operation_key == k {
        assert(op_keys(t).insert(k).remove(k) =~= op_keys(t).remove(k));
    } else {
        lemma_op_keys_push(w, x);
        assert(op_keys(t).insert(x.operation_key).remove(k) =~= op_keys(t).remove(k).insert(x.operation_key));
        if keys_distinct(s) {
            assert(!op_keys(t).contains(x.operation_key)) by {
                if op_keys(t).contains(x.operation_key) {
                    let m = t.map_values(f);
                    let q = choose|q: int| 0 <= q < m.len() && m[q] == x.operation_key;
                    assert(s[q].operation_key == s[s.len() - 1].operation_key);
                }
            }
            let r = w.push(x);
            assert forall|i: int, j: int| 0 <= i < j < r.len() implies r[i].operation_key != r[j].operation_key by {
                if j == w.len() {
                    assert(r[i] == w[i]);
                    let mw = w.map_values(f);
                    assert(mw[i] == w[i].operation_key);
                    assert(op_keys(w).contains(w[i].operation_key));
                } else {
                    assert(r[i] == w[i] && r[j] == w[j]);
                }
            }
        }
    }
}

proof fn lemma_upsert_contexts(base: Seq<RelayOperationContextView>, incoming: Seq<RelayOperationContextView>)
    ensures
        op_keys(upsert_contexts(base, incoming)) == op_keys(base) + op_keys(incoming),
        keys_distinct(base) ==> keys_distinct(upsert_contexts(base, incoming)),
    decreases incoming.len(),
{
    if incoming.len() == 0 {
        assert(op_keys(incoming) =~= Set::<Seq<char>>::empty());
        assert(op_keys(base) + op_keys(incoming) =~= op_keys(base));
        return;
    }
    let rest = incoming.drop_last();
    let x = incoming.last();
    lemma_upsert_contexts(base, rest);
    let before = upsert_contexts(base, rest);
    lemma_without_operation(before, x.operation_key);
    let w = without_operation(before, x.operation_key);
    lemma_op_keys_push(w, x);
    lemma_op_keys_push(rest, x);
    assert(incoming == rest.push(x));
    assert(op_keys(before).remove(x.operation_key).insert(x.operation_key)
        =~= op_keys(base) + op_keys(rest).insert(x.operation_key));
    if keys_distinct(base) {
        let r = w.push(x);
        assert forall|i: int, j: int| 0 <= i < j < r.len() implies r[i].operation_key != r[j].operation_key by {
            if j == w.len() {
                assert(r[i] == w[i]);
            } else {
                assert(r[i] == w[i] && r[j] == w[j]);
            }
        }
    }
}

proof fn lemma_unexpired(s: Seq<RelayOperationContextView>, now: i64)
    ensures
        keys_distinct(s) ==> keys_distinct(unexpired_contexts(s, now)),
        op_keys(unexpired_contexts(s, now)).subset_of(op_keys(s)),
    decreases s.len(),
{
    let f = |c: RelayOperationContextView| c.operation_key;
    if s.len() == 0 {
        assert(op_keys(unexpired_contexts(s, now)) =~= Set::<Seq<char>>::empty());
        return;
    }
    let t = s.drop_last();
    let x = s.last();
    lemma_unexpired(t, now);
    lemma_op_keys_push(t, x);
    assert(s == t.push(x));
    let u = unexpired_contexts(t, now);
    if keys_distinct(s) {
        assert(keys_distinct(t)) by {
            assert forall|i: int, j: int| 0 <= i < j < t.len() implies t[i].operation_key != t[j].operation_key by {
                assert(t[i] == s[i] && t[j] == s[j]);
            }
        }
    }
    if !(now > x.expires_at) {
        lemma_op_keys_push(u, x);
        if keys_distinct(s) {
            assert(!op_keys(t).contains(x.operation_key)) by {
                if op_keys(t).contains(x.operation_key) {
                    let m = t.map_values(f);
                    let q = choose|q: int| 0 <= q < m.len() && m[q] == x.operation_key;
                    assert(s[q].operation_key == s[s.len() - 1].operation_key);
                }
            }
            let r = u.push(x);
            assert forall|i: int, j: int| 0 <= i < j < r.len() implies r[i].operation_key != r[j].operation_key by {
                if j == u.len() {
                    assert(r[i] == u[i]);
                    let mu = u.map_values(f);
                    assert(mu[i] == u[i].operation_key);
                    assert(op_keys(u).contains(u[i].operation_key));
                } else {
                    assert(r[i] == u[i] && r[j] == u[j]);
                }
            }
        }
    }
}

/// When a snapshot is merged into a subject's relay contexts (whose
/// operation keys are distinct), the result holds each operation key once,
/// is ordered by update time then operation key, and holds exactly the keys
/// of the unexpired contexts kept (same context type) and of the snapshot's
/// contexts.
pub proof fn law_merged_contexts_well_formed(
    existing: Option<RelaySubjectContextsView>,
    snapshot: RelayContextSnapshotView,
    subject: Seq<char>,
    now: i64,
)
    requires
        existing matches Some(e) ==> keys_distinct(e.contexts),
    ensures
        spec_merge_snapshot(existing, snapshot, subject, now) matches Some(n) ==> {
            let incoming = incoming_contexts(snapshot.contexts, subject, snapshot.context_type, now);
            let kept = match existing {
                Some(e) => if e.context_type == snapshot.context_type { unexpired_contexts(e.contexts, now) } else { Seq::empty() },
                None => Seq::empty(),
            };
            &&& keys_distinct(n.contexts)
            &&& contexts_sorted(n.contexts)
            &&& op_keys(n.contexts) == op_keys(kept) + op_keys(incoming)
        },
{
    let incoming = incoming_contexts(snapshot.contexts, subject, snapshot.context_type, now);
    let kept: Seq<RelayOperationContextView> = match existing {
        Some(e) => if e.context_type == snapshot.context_type { unexpired_contexts(e.contexts, now) } else { Seq::empty() },
        None => Seq::empty(),
    };
    match existing {
        Some(e) => { lemma_unexpired(e.contexts, now); },
        None => {},
    }
    lemma_upsert_contexts(kept, incoming);
    lemma_sort_contexts(upsert_contexts(kept, incoming));
}


/// A list that is not empty, holds no string twice and holds only
/// normalized strings (trimmed and lower-cased).
pub open spec fn normalized_list(v: Seq<Seq<char>>) -> bool {
    &&& v.len() > 0
    &&& v.no_duplicates()
    &&& forall|j: int| 0 <= j < v.len() ==> is_normalized(#[trigger] v[j])
}

/// A context stored for `subject` under context type `t`: it is authorized
/// for that subject, of that type, has a context id and an operation key,
/// and its command families and audience peers are normalized lists.
pub open spec fn context_keyed(c: RelayOperationContextView, subject: Seq<char>, t: RelayContextType) -> bool {
    &&& c.authorized_subject == subject
    &&& c.context_type == t
    &&& c.context_id.len() > 0
    &&& c.operation_key.len() > 0
    &&& normalized_list(c.allowed_command_families)
    &&& normalized_list(c.audience_scope.peers)
}

/// Every context of a list is keyed by `subject` and `t`.
pub open spec fn all_keyed(cs: Seq<RelayOperationContextView>, subject: Seq<char>, t: RelayContextType) -> bool {
    forall|i: int| 0 <= i < cs.len() ==> context_keyed(#[trigger] cs[i], subject, t)
}

proof fn lemma_keyed_sort(s: Seq<RelayOperationContextView>, subject: Seq<char>, t: RelayContextType)
    requires
        all_keyed(s, subject, t),
    ensures
        all_keyed(sort_contexts(s), subject, t),
    decreases s.len(),
{
    if s.len() > 0 {
        let r = s.drop_last();
        assert(all_keyed(r, subject, t)) by {
            assert forall|i: int| 0 <= i < r.len() implies context_keyed(#[trigger] r[i], subject, t) by {
                assert(r[i] == s[i]);
            }
        }
        lemma_keyed_sort(r, subject, t);
        let sr = sort_contexts(r);
        let x = s.last();
        assert(context_keyed(s[s.len() - 1], subject, t));
        lemma_insert_sorted_shape(sr, x);
        let p = choose|p: int| 0 <= p <= sr.len() && #[trigger] insert_sorted(sr, x) == sr.take(p) + seq![x] + sr.skip(p);
        let out = insert_sorted(sr, x);
        assert forall|i: int| 0 <= i < out.len() implies context_keyed(#[trigger] out[i], subject, t) by {
            if i < p {
                assert(out[i] == sr[i]);
            } else if i == p {
                assert(out[i] == x);
            } else {
                assert(out[i] == sr[i - 1]);
            }
        }
    }
}

proof fn lemma_keyed_without(s: Seq<RelayOperationContextView>, k: Seq<char>, subject: Seq<char>, t: RelayContextType)
    requires
        all_keyed(s, subject, t),
    ensures
        all_keyed(without_operation(s, k), subject, t),
    decreases s.len(),
{
    if s.len() > 0 {
        let r = s.drop_last();
        assert(all_keyed(r, subject, t)) by {
            assert forall|i: int| 0 <= i < r.len() implies context_keyed(#[trigger] r[i], subject, t) by {
                assert(r[i] == s[i]);
            }
        }
        lemma_keyed_without(r, k, subject, t);
        assert(context_keyed(s[s.len() - 1], subject, t));
    }
}

proof fn lemma_keyed_upsert(
    base: Seq<RelayOperationContextView>,
    incoming: Seq<RelayOperationContextView>,
    subject: Seq<char>,
    t: RelayContextType,
)
    requires
        all_keyed(base, subject, t),
        all_keyed(incoming, subject, t),
    ensures
        all_keyed(upsert_contexts(base, incoming), subject, t),
    decreases incoming.len(),
{
    if incoming.len() > 0 {
        let r = incoming.drop_last();
        assert(all_keyed(r, subject, t)) by {
            assert forall|i: int| 0 <= i < r.len() implies context_keyed(#[trigger] r[i], subject, t) by {
                assert(r[i] == incoming[i]);
            }
        }
        lemma_keyed_upsert(base, r, subject, t);
        lemma_keyed_without(upsert_contexts(base, r), incoming.last().operation_key, subject, t);
        assert(context_keyed(incoming[incoming.len() - 1], subject, t));
    }
}

proof fn lemma_keyed_unexpired(s: Seq<RelayOperationContextView>, now: i64, subject: Seq<char>, t: RelayContextType)
    requires
        all_keyed(s, subject, t),
    ensures
        all_keyed(unexpired_contexts(s, now), subject, t),
    decreases s.len(),
{
    if s.len() > 0 {
        let r = s.drop_last();
        assert(all_keyed(r, subject, t)) by {
            assert forall|i: int| 0 <= i < r.len() implies context_keyed(#[trigger] r[i], subject, t) by {
                assert(r[i] == s[i]);
            }
        }
        lemma_keyed_unexpired(r, now, subject, t);
        assert(context_keyed(s[s.len() - 1], subject, t));
    }
}

proof fn lemma_keyed_incoming(cs: Seq<RelayOperationContextView>, subject: Seq<char>, t: RelayContextType, now: i64)
    ensures
        all_keyed(incoming_contexts(cs, subject, t, now), subject, t),
    decreases cs.len(),
{
    if cs.len() > 0 {
        lemma_keyed_incoming(cs.drop_last(), subject, t, now);
        match spec_normalize_context(cs.last(), subject, t, now) {
            Some(n) => {
                lemma_normalized_unique(cs.last().allowed_command_families);
                lemma_normalized_unique(cs.last().audience_scope.peers);
                assert(context_keyed(n, subject, t));
            },
            None => {},
        }
    }
}

/// The relay contexts stored for every subject hold each operation key once,
/// are ordered by update time, then operation key, and are each keyed by
/// that subject and the entry's context type (see `context_keyed`).
pub open spec fn stored_contexts_well_formed(m: GatewayModel) -> bool {
    forall|s: Seq<char>| #[trigger] m.relay_contexts.contains_key(s) ==> {
        &&& keys_distinct(m.relay_contexts[s].contexts)
        &&& contexts_sorted(m.relay_contexts[s].contexts)
        &&& all_keyed(m.relay_contexts[s].contexts, s, m.relay_contexts[s].context_type)
    }
}

/// Applying a relay context snapshot keeps the contexts stored for every
/// subject well formed (see `stored_contexts_well_formed`).
pub proof fn law_snapshot_keeps_contexts_well_formed(m: GatewayModel, snapshot: RelayContextSnapshotView, now: i64)
    requires
        stored_contexts_well_formed(m),
    ensures
        stored_contexts_well_formed(spec_apply_snapshot(m, snapshot, now)),
{
    match spec_normalize(snapshot.subject_email) {
        None => {},
        Some(subject) => {
            let existing = if m.relay_contexts.contains_key(subject) { Some(m.relay_contexts[subject]) } else { None };
            law_merged_contexts_well_formed(existing, snapshot, subject, now);
            let t = snapshot.context_type;
            let incoming = incoming_contexts(snapshot.contexts, subject, t, now);
            lemma_keyed_incoming(snapshot.contexts, subject, t, now);
            let kept: Seq<RelayOperationContextView> = match existing {
                Some(e) => if e.context_type == t { unexpired_contexts(e.contexts, now) } else { Seq::empty() },
                None => Seq::empty(),
            };
            match existing {
                Some(e) => { if e.context_type == t { lemma_keyed_unexpired(e.contexts, now, subject, t); } },
                None => {},
            }
            lemma_keyed_upsert(kept, incoming, subject, t);
            lemma_keyed_sort(upsert_contexts(kept, incoming), subject, t);
            let after = spec_apply_snapshot(m, snapshot, now);
            assert forall|s: Seq<char>| #[trigger] after.relay_contexts.contains_key(s) implies {
                &&& keys_distinct(after.relay_contexts[s].contexts)
                &&& contexts_sorted(after.relay_contexts[s].contexts)
                &&& all_keyed(after.relay_contexts[s].contexts, s, after.relay_contexts[s].context_type)
            } by {
                if s != subject {
                    law_snapshot_keeps_other_subjects(m, snapshot, now, s);
                }
            }
        },
    }
}

proof fn lemma_take_all_removes(
    p: Map<Seq<char>, Seq<PendingView>>,
    subjects: Seq<Seq<char>>,
    now: i64,
)
    ensures
        forall|i: int| 0 <= i < subjects.len() ==> !take_all(p, subjects, now).0.contains_key(#[trigger] subjects[i]),
        forall|k: Seq<char>| !subjects.contains(k) ==> take_all(p, subjects, now).0.contains_key(k) == p.contains_key(k)
            && (p.contains_key(k) ==> take_all(p, subjects, now).0[k] == p[k]),
    decreases subjects.len(),
{
    if subjects.len() > 0 {
        let rest = subjects.drop_last();
        lemma_take_all_removes(p, rest, now);
        assert forall|i: int| 0 <= i < subjects.len() implies !take_all(p, subjects, now).0.contains_key(#[trigger] subjects[i]) by {
            if i < subjects.len() - 1 {
                assert(subjects[i] == rest[i]);
            }
        }
        assert forall|k: Seq<char>| !subjects.contains(k) implies take_all(p, subjects, now).0.contains_key(k) == p.contains_key(k)
            && (p.contains_key(k) ==> take_all(p, subjects, now).0[k] == p[k]) by {
            assert(k != subjects.last()) by {
                if k == subjects.last() {
                    assert(subjects[subjects.len() - 1] == k);
                }
            }
            assert(!rest.contains(k)) by {
                if rest.contains(k) {
                    let j = choose|j: int| 0 <= j < rest.len() && rest[j] == k;
                    assert(subjects[j] == k);
                }
            }
        }
    }
}

/// Messages queued for a subject are replayed once: after a connection
/// registers, no message is left queued for any of its subjects, and the
/// queues of other subjects are untouched.
pub proof fn law_register_takes_pending(
    m: GatewayModel,
    id: Seq<char>,
    user: Seq<char>,
    instance: Seq<char>,
    subjects: Seq<Seq<char>>,
    connected_at: i64,
    now: i64,
)
    ensures
        forall|i: int| 0 <= i < subjects.len()
            ==> !spec_register(m, id, user, instance, subjects, connected_at, now).pending.contains_key(#[trigger] subjects[i]),
        forall|k: Seq<char>| !subjects.contains(k) ==>
            spec_register(m, id, user, instance, subjects, connected_at, now).pending.contains_key(k) == m.pending.contains_key(k),
{
    let (first, second) = register_evictions(m, id, user, instance);
    let m1 = spec_unregister_all(m, ids_of(first));
    let m2 = spec_unregister_all(m1, ids_of(second));
    lemma_unregister_all_keeps_pending(m, ids_of(first));
    lemma_unregister_all_keeps_pending(m1, ids_of(second));
    lemma_take_all_removes(m2.pending, subjects, now);
}

proof fn lemma_unregister_all_keeps_pending(m: GatewayModel, ids: Seq<Seq<char>>)
    ensures
        spec_unregister_all(m, ids).pending == m.pending,
    decreases ids.len(),
{
    if ids.len() > 0 {
        lemma_unregister_all_keeps_pending(m, ids.drop_last());
    }
}


/// The context a relay command is matched to (see `spec_select_from`) is one
/// that applies to it, is active, unexpired, of the required scope mode,
/// and reaches every target.
pub proof fn lemma_selected_context(
    cs: Seq<RelayOperationContextView>,
    j: int,
    sender: Seq<char>,
    spec: RelayAuthorizationSpec,
    operation_key: Seq<char>,
    family: Seq<char>,
    targets: Seq<Seq<char>>,
    now: i64,
    i: int,
)
    requires
        0 <= j,
        spec_select_from(cs, j, sender, spec, operation_key, family, targets, now) == Ok::<int, RelayAuthError>(i),
    ensures
        j <= i < cs.len(),
        context_applies(cs[i], sender, spec, operation_key, family),
        cs[i].state == RelayContextState::Active,
        !(now > cs[i].expires_at),
        !(now > cs[i].grant.expires_at),
        cs[i].policy_version != 0 && cs[i].policy_version == cs[i].grant.policy_version,
        cs[i].audience_scope.mode == spec.audience_scope_mode,
        targets_in_scope(cs[i].audience_scope.peers, targets),
    decreases cs.len() - j,
{
    if j < cs.len() {
        let c = cs[j];
        let passes_grant_checks = spec_trim(c.grant.grant_id).len() != 0 && c.policy_version != 0
            && c.grant.policy_version != 0 && c.policy_version == c.grant.policy_version
            && !(now > c.expires_at || now > c.grant.expires_at);
        let passed_over = !context_applies(c, sender, spec, operation_key, family) || (passes_grant_checks
            && (c.audience_scope.mode != spec.audience_scope_mode || !targets_in_scope(c.audience_scope.peers, targets)));
        if passed_over {
            lemma_selected_context(cs, j + 1, sender, spec, operation_key, family, targets, now, i);
        }
    }
}

/// A relay command is authorized only by an active, unexpired context of its
/// sender for its operation key, whose scope reaches every target; the
/// decision names that context.
pub proof fn law_authorized_relay_has_active_context(
    m: GatewayModel,
    sender: Seq<char>,
    command: Seq<char>,
    spec: RelayAuthorizationSpec,
    operation_key: Seq<char>,
    targets: Seq<Seq<char>>,
    nonce: Option<Seq<char>>,
    payload_size: Option<usize>,
    now: i64,
)
    requires
        spec_authorize(m, sender, command, spec, operation_key, targets, nonce, payload_size, now).1 is Ok,
    ensures
        ({
            let subject = spec_normalize(sender).unwrap();
            let decision = spec_authorize(m, sender, command, spec, operation_key, targets, nonce, payload_size, now).1.unwrap();
            &&& spec_normalize(sender) is Some
            &&& m.relay_contexts.contains_key(subject)
            &&& exists|i: int| {
                let c = #[trigger] m.relay_contexts[subject].contexts[i];
                &&& 0 <= i < m.relay_contexts[subject].contexts.len()
                &&& c.state == RelayContextState::Active
                &&& c.authorized_subject == subject
                &&& c.operation_key == spec_trim(operation_key)
                &&& !(now > c.expires_at)
                &&& targets_in_scope(c.audience_scope.peers, targets)
                &&& decision == (c.context_id, c.policy_version)
            }
        }),
{
    let subject = spec_normalize(sender).unwrap();
    let cs = m.relay_contexts[subject].contexts;
    let key = spec_trim(operation_key);
    let r = spec_select_from(cs, 0, subject, spec, key, spec_family(spec), targets, now);
    let i = r.unwrap();
    lemma_selected_context(cs, 0, subject, spec, key, spec_family(spec), targets, now, i);
    assert(cs[i] == m.relay_contexts[subject].contexts[i]);
}


/// A relay command that needs a relay context is relayed only when its
/// sender holds an active, unexpired context for the command's operation key
/// whose scope reaches every target.
pub proof fn law_relayed_only_when_authorized(
    m: GatewayModel,
    connection_id: Seq<char>,
    user: Seq<char>,
    raw: Seq<char>,
    data: crate::json::JsonValue,
    now: i64,
)
    requires
        json_str(data, "type"@) is Some,
        relay_spec_of(json_str(data, "type"@).unwrap()) matches Some(rs) && rs.requires_relay_context,
        spec_ingress(m, connection_id, user, raw, data, now).1 matches IngressView::Accepted { relay: Some(_), .. },
    ensures
        ({
            let rs = relay_spec_of(json_str(data, "type"@).unwrap()).unwrap();
            let subject = spec_normalize(user).unwrap();
            let op = spec_trim(trimmed_or_empty(json_str(data, rs.operation_key_field@)));
            &&& spec_normalize(user) is Some
            &&& m.relay_contexts.contains_key(subject)
            &&& exists|i: int| {
                let c = #[trigger] m.relay_contexts[subject].contexts[i];
                &&& 0 <= i < m.relay_contexts[subject].contexts.len()
                &&& c.state == RelayContextState::Active
                &&& c.authorized_subject == subject
                &&& c.operation_key == op
                &&& !(now > c.expires_at)
                &&& targets_in_scope(c.audience_scope.peers, spec_relay_targets(data).0)
            }
        }),
{
    let t = json_str(data, "type"@).unwrap();
    let rs = relay_spec_of(t).unwrap();
    let m1 = spec_mark_alive(m, connection_id, now);
    assert(m1.relay_contexts == m.relay_contexts);
    let e = command_entry_of(t).unwrap();
    let class = e.1;
    let subjects_step = class == RoutingClass::RelayHotpath;
    let backend_step = class == RoutingClass::BackendControl || (subjects_step && e.3);
    let rid = trimmed_or_empty(json_str(data, "request_id"@));
    let m2 = if rid.len() > 0 && backend_step {
        crate::state::spec_bind_route(m1, rid, connection_id, user, now)
    } else {
        m1
    };
    assert(m2.relay_contexts == m.relay_contexts);
    let op = trimmed_or_empty(json_str(data, rs.operation_key_field@));
    let emails = spec_relay_targets(data).0;
    law_authorized_relay_has_active_context(m2, user, t, rs, op, emails, relay_nonce(data), ciphertext_size(data), now);
}


/// A backend response that carries a request id goes back to the connection
/// that bound the request, while the route has not expired and its
/// connection is live, belongs to the route's user and carries one of the
/// response's subjects.
pub proof fn law_response_routed_to_requester(
    m: GatewayModel,
    decoded: JsonValue,
    text: Seq<char>,
    now: i64,
    after: GatewayModel,
    r: OutboxOutcome,
    handed_before: Seq<Handoff>,
    handed_after: Seq<Handoff>,
)
    requires
        outbox_allows(m, decoded, text, now, after, r),
        outbox_handed(m, decoded, text, now, handed_before, handed_after),
        ({
            let subjects = json_strings(decoded, "subjects"@);
            let payload = or_else(json_get(decoded, "payload"@), JsonValue::Null);
            let rid = non_blank(json_str(payload, "request_id"@));
            let key = spec_trim(rid.unwrap());
            let route = m.routes[key];
            let owner = find_connection(m.connections, route.connection_id);
            &&& subjects.len() > 0
            &&& spec_parse_snapshot(payload, now) is None
            &&& rid is Some
            &&& key.len() > 0
            &&& m.routes.contains_key(key)
            &&& clamp_i64(now - route.updated_at) <= REQUEST_ROUTE_TTL_SECONDS
            &&& owner is Some
            &&& owner.unwrap().user_id == route.user_id
            &&& shares_subject(subjects, owner.unwrap().subjects)
        }),
    ensures
        ({
            let payload = or_else(json_get(decoded, "payload"@), JsonValue::Null);
            let key = spec_trim(non_blank(json_str(payload, "request_id"@)).unwrap());
            &&& r is Dispatched
            &&& r->mode == DeliveryMode::RequestResponse
            &&& r->route_found
            &&& r->routed_connection_id is Some
            &&& r->routed_connection_id.unwrap()@ == m.routes[key].connection_id
            &&& text.len() > 0 && m.routes[key].connection_id.len() > 0 ==> {
                &&& handed_after.len() > handed_before.len()
                &&& handed_after.take(handed_before.len() as int) == handed_before
                &&& handed_after[handed_before.len() as int]
                    == (Handoff { connection_id: m.routes[key].connection_id, message: HandedMessage::Text(text) })
            }
        }),
{
    let subjects = json_strings(decoded, "subjects"@);
    let payload = or_else(json_get(decoded, "payload"@), JsonValue::Null);
    let rid = non_blank(json_str(payload, "request_id"@)).unwrap();
    let cid = m.routes[spec_trim(rid)].connection_id;
    if text.len() > 0 && cid.len() > 0 {
        let h = Handoff { connection_id: cid, message: HandedMessage::Text(text) };
        let routed = handed_before.push(h);
        assert(has_connection(m.connections, cid));
        if handed_after != routed {
            let m1 = spec_clear_route(failed_send(m, cid, text), rid);
            assert(dispatch_handed(m1, subjects, text, routed, handed_after));
            let order = choose|order: Seq<Seq<char>>| {
                &&& #[trigger] order.no_duplicates()
                &&& order.to_set() == target_ids(m1.subjects, subjects)
                &&& handed_after == routed + dispatch_handoffs(m1.connections, order, text)
            };
            assert(handed_after[handed_before.len() as int] == routed[handed_before.len() as int]);
            assert(handed_after.take(handed_before.len() as int) =~= handed_before);
        } else {
            assert(handed_after.take(handed_before.len() as int) =~= handed_before);
        }
    }
}

/// Distinct relay errors are sent with distinct codes, and every code starts
/// with `relay_`.
pub proof fn law_relay_error_codes_distinct(e1: RelayAuthError, e2: RelayAuthError)
    ensures
        e1 != e2 ==> e1.spec_code() != e2.spec_code(),
        e1.spec_code().take(6) == "relay_"@,
{
    reveal_strlit("relay_");
    reveal_strlit("relay_context_missing");
    reveal_strlit("relay_sender_binding_invalid");
    reveal_strlit("relay_scope_violation");
    reveal_strlit("relay_context_revoked");
    reveal_strlit("relay_context_closed");
    reveal_strlit("relay_context_policy_version_bumped");
    reveal_strlit("relay_context_not_active");
    reveal_strlit("relay_context_invalid_state");
    reveal_strlit("relay_grant_expired");
    reveal_strlit("relay_grant_invalid");
    reveal_strlit("relay_policy_version_mismatch");
    reveal_strlit("relay_replay_detected");
    reveal_strlit("relay_rate_limited");
    reveal_strlit("relay_payload_too_large");
    assert(e1.spec_code().take(6) =~= "relay_"@);
    if e1.spec_code() == e2.spec_code() {
        let (a, b) = (e1.spec_code(), e2.spec_code());
        assert(a.len() == b.len());
        assert(a[6] == b[6]);
        assert(a.len() >= 18 ==> a[12] == b[12]);
        assert(a.len() >= 18 ==> a[14] == b[14]);
    }
}

/// A request route resolves only to a registered connection that carries
/// one of the caller's subjects (when the caller names any), and never to a
/// connection that was unregistered since.
pub proof fn law_route_resolves_to_live_subscriber(
    m: GatewayModel,
    request_id: Seq<char>,
    subjects: Seq<Seq<char>>,
    now: i64,
    gone: Seq<char>,
)
    requires
        connection_ids_unique(m.connections),
    ensures
        spec_resolve_route(m, request_id, subjects, now).1 matches Some(cid) ==> {
            &&& find_connection(m.connections, cid) is Some
            &&& (subjects.len() > 0 ==> shares_subject(subjects, find_connection(m.connections, cid).unwrap().subjects))
        },
        spec_resolve_route(spec_unregister(m, gone), request_id, subjects, now).1 != Some(gone),
{
    law_unregister_removes(m, gone);
    let m1 = spec_unregister(m, gone);
    let key = spec_trim(request_id);
    if key.len() > 0 && m1.routes.contains_key(key) {
        let r = m1.routes[key];
        if r.connection_id == gone {
            assert(!has_connection(m1.connections, gone));
            assert(find_connection(m1.connections, r.connection_id) is None);
        }
    }
}

/// The connections a registration evicts never include the connection being
/// registered, so every message its new channel is handed is one of the
/// replayed texts, in order.
pub proof fn law_register_hands_new_connection_only_replay(
    m: GatewayModel,
    id: Seq<char>,
    user: Seq<char>,
    instance: Seq<char>,
)
    ensures
        ({
            let ev = register_evictions(m, id, user, instance);
            &&& forall|i: int| 0 <= i < ids_of(ev.0).len() ==> #[trigger] ids_of(ev.0)[i] != id
            &&& forall|i: int| 0 <= i < ids_of(ev.1).len() ==> #[trigger] ids_of(ev.1)[i] != id
        }),
{
    let ev = register_evictions(m, id, user, instance);
    if instance.len() > 0 {
        lemma_same_instance_excludes(m.connections, user, instance, id);
    }
    let m1 = spec_unregister_all(m, ids_of(ev.0));
    let sorted = sort_by_connected(user_connections(m1.connections, user));
    let n = overflow_count(sorted.len(), m.max_connections_per_user);
    let taken = if n <= sorted.len() { sorted.take(n as int) } else { sorted };
    lemma_without_id_excludes(taken, id);
}

proof fn lemma_same_instance_excludes(cs: Seq<ConnectionInfoView>, user: Seq<char>, instance: Seq<char>, id: Seq<char>)
    ensures
        forall|i: int| 0 <= i < same_instance(cs, user, instance, id).len()
            ==> #[trigger] same_instance(cs, user, instance, id)[i].connection_id != id,
    decreases cs.len(),
{
    if cs.len() > 0 {
        lemma_same_instance_excludes(cs.drop_last(), user, instance, id);
        let rest = same_instance(cs.drop_last(), user, instance, id);
        let r = same_instance(cs, user, instance, id);
        assert forall|i: int| 0 <= i < r.len() implies #[trigger] r[i].connection_id != id by {
            if i < rest.len() {
                assert(r[i] == rest[i]);
            }
        }
    }
}

proof fn lemma_without_id_excludes(cs: Seq<ConnectionInfoView>, id: Seq<char>)
    ensures
        forall|i: int| 0 <= i < without_id(cs, id).len() ==> #[trigger] without_id(cs, id)[i].connection_id != id,
    decreases cs.len(),
{
    if cs.len() > 0 {
        lemma_without_id_excludes(cs.drop_last(), id);
        let rest = without_id(cs.drop_last(), id);
        let r = without_id(cs, id);
        assert forall|i: int| 0 <= i < r.len() implies #[trigger] r[i].connection_id != id by {
            if i < rest.len() {
                assert(r[i] == rest[i]);
            }
        }
    }
}

/// How many connections of `user` a list holds.
pub open spec fn user_count(cs: Seq<ConnectionInfoView>, user: Seq<char>) -> nat {
    user_connections(cs, user).len()
}

proof fn lemma_user_count_remove(cs: Seq<ConnectionInfoView>, i: int, user: Seq<char>)
    requires
        0 <= i < cs.len(),
    ensures
        user_count(cs.remove(i), user) + (if cs[i].user_id == user { 1int } else { 0int }) == user_count(cs, user),
    decreases cs.len(),
{
    if i == cs.len() - 1 {
        assert(cs.remove(i) =~= cs.drop_last());
    } else {
        let d = cs.drop_last();
        lemma_user_count_remove(d, i, user);
        assert(cs.remove(i).drop_last() =~= d.remove(i));
        assert(cs.remove(i).last() == cs.last());
        assert(d[i] == cs[i]);
    }
}

proof fn lemma_user_connections_of_user(cs: Seq<ConnectionInfoView>, user: Seq<char>)
    ensures
        forall|k: int| 0 <= k < user_connections(cs, user).len() ==> #[trigger] user_connections(cs, user)[k].user_id == user,
    decreases cs.len(),
{
    if cs.len() > 0 {
        lemma_user_connections_of_user(cs.drop_last(), user);
        let rest = user_connections(cs.drop_last(), user);
        let r = user_connections(cs, user);
        assert forall|k: int| 0 <= k < r.len() implies #[trigger] r[k].user_id == user by {
            if k < rest.len() {
                assert(r[k] == rest[k]);
            }
        }
    }
}

proof fn lemma_without_id_absent(cs: Seq<ConnectionInfoView>, id: Seq<char>)
    requires
        forall|k: int| 0 <= k < cs.len() ==> #[trigger] cs[k].connection_id != id,
    ensures
        without_id(cs, id) == cs,
    decreases cs.len(),
{
    if cs.len() > 0 {
        lemma_without_id_absent(cs.drop_last(), id);
        assert(cs.drop_last().push(cs.last()) =~= cs);
    }
}

/// Unregistering connections other than `x` leaves `x` as it was.
proof fn lemma_unregister_all_keeps(m: GatewayModel, ids: Seq<Seq<char>>, x: Seq<char>)
    requires
        connection_ids_unique(m.connections),
        !ids.contains(x),
    ensures
        find_connection(spec_unregister_all(m, ids).connections, x) == find_connection(m.connections, x),
    decreases ids.len(),
{
    if ids.len() > 0 {
        assert(!ids.drop_last().contains(x)) by {
            if ids.drop_last().contains(x) {
                let j = choose|j: int| 0 <= j < ids.drop_last().len() && ids.drop_last()[j] == x;
                assert(ids[j] == x);
            }
        }
        lemma_unregister_all_keeps(m, ids.drop_last(), x);
        lemma_unregister_all_unique(m, ids.drop_last());
        assert(ids.last() != x) by { assert(ids[ids.len() - 1] == ids.last()); }
        lemma_unregister_keeps(spec_unregister_all(m, ids.drop_last()), ids.last(), x);
    }
}

/// Unregistering distinct registered connections of `user` takes that many
/// from the user's count.
proof fn lemma_unregister_all_count(m: GatewayModel, vs: Seq<ConnectionInfoView>, user: Seq<char>)
    requires
        connection_ids_unique(m.connections),
        subset_distinct(vs, m.connections),
        forall|k: int| 0 <= k < vs.len() ==> #[trigger] vs[k].user_id == user,
    ensures
        user_count(spec_unregister_all(m, ids_of(vs)).connections, user) + vs.len() == user_count(m.connections, user),
    decreases vs.len(),
{
    if vs.len() > 0 {
        let w = vs.drop_last();
        let x = vs.last();
        assert(subset_distinct(w, m.connections)) by {
            assert forall|k: int| 0 <= k < w.len() implies m.connections.contains(#[trigger] w[k]) by {
                assert(w[k] == vs[k]);
            }
            assert forall|a: int, b: int| 0 <= a < w.len() && 0 <= b < w.len() && a != b
                implies w[a].connection_id != w[b].connection_id by {
                assert(w[a] == vs[a] && w[b] == vs[b]);
            }
        }
        assert forall|k: int| 0 <= k < w.len() implies #[trigger] w[k].user_id == user by {
            assert(w[k] == vs[k]);
        }
        lemma_unregister_all_count(m, w, user);
        assert(ids_of(vs).drop_last() =~= ids_of(w));
        assert(ids_of(vs).last() == x.connection_id);
        assert(!ids_of(w).contains(x.connection_id)) by {
            if ids_of(w).contains(x.connection_id) {
                let j = choose|j: int| 0 <= j < ids_of(w).len() && ids_of(w)[j] == x.connection_id;
                assert(vs[j].connection_id == vs[vs.len() - 1].connection_id);
            }
        }
        lemma_unregister_all_keeps(m, ids_of(w), x.connection_id);
        lemma_unregister_all_unique(m, ids_of(w));
        let mw = spec_unregister_all(m, ids_of(w));
        assert(m.connections.contains(vs[vs.len() - 1]));
        let q = choose|q: int| 0 <= q < m.connections.len() && m.connections[q] == x;
        assert(has_connection(m.connections, x.connection_id));
        assert(find_connection(m.connections, x.connection_id) == Some(x)) by {
            let i = connection_index(m.connections, x.connection_id);
            assert(m.connections[i].connection_id == m.connections[q].connection_id);
        }
        let i = connection_index(mw.connections, x.connection_id);
        assert(mw.connections[i] == x);
        lemma_user_count_remove(mw.connections, i, user);
        assert(spec_unregister_all(m, ids_of(vs)) == spec_unregister(mw, x.connection_id));
    }
}

/// Under a per-user cap of `mx` (at least one), registering a new connection
/// `id` for `user` leaves the user with its `n` connections (counted after
/// the same-instance eviction) plus the new one, or with `mx` connections
/// when that would be more: the oldest ones beyond the cap are evicted.
pub proof fn law_register_respects_cap(
    m: GatewayModel,
    id: Seq<char>,
    user: Seq<char>,
    instance: Seq<char>,
    subjects: Seq<Seq<char>>,
    connected_at: i64,
    now: i64,
)
    requires
        connection_ids_unique(m.connections),
        !has_connection(m.connections, id),
        m.max_connections_per_user matches Some(mx) && mx >= 1,
    ensures
        ({
            let ev = register_evictions(m, id, user, instance);
            let n = user_count(spec_unregister_all(m, ids_of(ev.0)).connections, user);
            let mx = m.max_connections_per_user.unwrap();
            user_count(spec_register(m, id, user, instance, subjects, connected_at, now).connections, user)
                == (if n + 1 > mx { mx as nat } else { n + 1 })
        }),
{
    let ev = register_evictions(m, id, user, instance);
    law_register_hands_new_connection_only_replay(m, id, user, instance);
    let m1 = spec_unregister_all(m, ids_of(ev.0));
    lemma_unregister_all_unique(m, ids_of(ev.0));
    assert(!ids_of(ev.0).contains(id)) by {
        if ids_of(ev.0).contains(id) {
            let j = choose|j: int| 0 <= j < ids_of(ev.0).len() && ids_of(ev.0)[j] == id;
        }
    }
    lemma_unregister_all_keeps(m, ids_of(ev.0), id);
    assert(!has_connection(m1.connections, id)) by {
        if has_connection(m1.connections, id) {
            assert(find_connection(m1.connections, id) is Some);
        }
    }
    let uc = user_connections(m1.connections, user);
    lemma_user_subset(m1.connections, user);
    lemma_sort_subset(uc, m1.connections);
    lemma_user_connections_of_user(m1.connections, user);
    let sorted = sort_by_connected(uc);
    let n = sorted.len();
    let k = overflow_count(n, m.max_connections_per_user);
    assert(k <= n);
    let taken = sorted.take(k as int);
    lemma_take_subset(sorted, m1.connections, k as int);
    assert forall|j: int| 0 <= j < taken.len() implies #[trigger] taken[j].connection_id != id by {
        assert(m1.connections.contains(taken[j]));
        let q = choose|q: int| 0 <= q < m1.connections.len() && m1.connections[q] == taken[j];
        if taken[j].connection_id == id {
            assert(m1.connections[q].connection_id == id);
        }
    }
    lemma_without_id_absent(taken, id);
    assert(ev.1 == taken);
    assert forall|j: int| 0 <= j < taken.len() implies #[trigger] taken[j].user_id == user by {
        assert(taken[j] == sorted[j]);
        assert(uc.contains(sorted[j]));
        let q = choose|q: int| 0 <= q < uc.len() && uc[q] == sorted[j];
        assert(uc[q].user_id == user);
    }
    lemma_unregister_all_count(m1, taken, user);
    let m2 = spec_unregister_all(m1, ids_of(taken));
    assert(!ids_of(taken).contains(id)) by {
        if ids_of(taken).contains(id) {
            let j = choose|j: int| 0 <= j < ids_of(taken).len() && ids_of(taken)[j] == id;
            assert(taken[j].connection_id == id);
        }
    }
    lemma_unregister_all_keeps(m1, ids_of(taken), id);
    assert(!has_connection(m2.connections, id)) by {
        if has_connection(m2.connections, id) {
            assert(find_connection(m2.connections, id) is Some);
        }
    }
    let info = new_connection_info(id, user, instance, subjects, connected_at);
    assert(upsert_connection(m2.connections, info) == m2.connections.push(info));
    assert(m2.connections.push(info).drop_last() =~= m2.connections);
}

} // verus!
