//! The gateway's shared state: live connections and their subjects, replay
//! queues for subjects without a live connection, request routes for
//! request/response traffic, and the relay contexts, replay cache and rate
//! counters that guard relay commands.

use vstd::prelude::*;
use std::collections::VecDeque;
use tokio::sync::mpsc::{UnboundedReceiver, UnboundedSender};
use crate::connection::{
    clone_strings, closes_to, info_views, outbound_channel, outbound_send, texts_for, texts_to, ConnectionInfo,
    ConnectionInfoView, DispatchResult, HandedMessage, Handoff, OutboundMessage,
};
use crate::pending::{
    drop_sticky, pending_views, prune_pending_queue, prune_queue, remove_sticky, PendingMessage,
    PendingView,
};
use crate::relay::{
    context_views, merge_snapshot, opt_subject_view, select_relay_context, spec_family,
    spec_merge_snapshot, spec_select_from, RelayAuthDecision, RelayAuthError,
    RelayContextSnapshot, RelayContextSnapshotView, RelayOperationContextView, RelaySubjectContexts,
    RelaySubjectContextsView,
};
use crate::routes::RelayAuthorizationSpec;
use crate::clock::unix_seconds_now;
use crate::table::{has_key, keys_unique, lemma_map_of_at, lemma_push_to_set, map_of, Table};
use crate::text::{
    append_decimal, clamp_i64, contains_text, decimal_text, lowercase_text, normalize_identity,
    saturating_sub_i64, spec_lowercase, spec_normalize, spec_trim, str_eq, strs, trim_text,
};

verus! {

/// Seconds a request route stays usable.
pub const REQUEST_ROUTE_TTL_SECONDS: i64 = 120;
/// Route count above which stale routes are swept.
pub const REQUEST_ROUTE_MAX: usize = 8192;
/// Seconds a relay nonce is remembered.
pub const RELAY_REPLAY_TTL_SECONDS: i64 = 600;
/// Replay cache size above which old nonces are swept.
pub const RELAY_REPLAY_CACHE_MAX: usize = 200000;
/// Length in seconds of a relay rate window.
pub const RELAY_RATE_WINDOW_SECONDS: i64 = 1;
/// Relay commands allowed per sender, command and context in one window.
pub const RELAY_RATE_LIMIT_DEFAULT: u32 = 240;
/// Largest relay ciphertext accepted, in bytes.
pub const RELAY_CHUNK_CIPHERTEXT_MAX_BYTES: usize = 2000000;

/// Which connection asked a request, so that its response can go back to it.
pub struct RequestRoute {
    pub connection_id: String,
    pub user_id: String,
    pub updated_at: i64,
}

/// A request route as plain values.
pub struct RouteView {
    pub connection_id: Seq<char>,
    pub user_id: Seq<char>,
    pub updated_at: i64,
}

impl View for RequestRoute {
    type V = RouteView;

    open spec fn view(&self) -> RouteView {
        RouteView { connection_id: self.connection_id@, user_id: self.user_id@, updated_at: self.updated_at }
    }
}

/// A relay rate counter: the window it counts and the commands counted.
#[derive(Clone, Copy, Debug)]
pub struct RelayRateCounter {
    pub window_start: i64,
    pub count: u32,
}

/// The gateway state as plain values.
pub struct GatewayModel {
    /// Live connections, in registration order.
    pub connections: Seq<ConnectionInfoView>,
    /// The connection ids subscribed to each subject.
    pub subjects: Map<Seq<char>, Set<Seq<char>>>,
    /// Messages waiting for each subject, oldest first.
    pub pending: Map<Seq<char>, Seq<PendingView>>,
    /// Request routes by request id.
    pub routes: Map<Seq<char>, RouteView>,
    /// Relay contexts by normalized subject.
    pub relay_contexts: Map<Seq<char>, RelaySubjectContextsView>,
    /// When each relay nonce key was last seen.
    pub replay_seen: Map<Seq<char>, i64>,
    /// Relay rate counters: window and count.
    pub rate_counters: Map<Seq<char>, (i64, u32)>,
    /// Optional cap on connections per user.
    pub max_connections_per_user: Option<usize>,
}

/// Some connection has id `id`.
pub open spec fn has_connection(cs: Seq<ConnectionInfoView>, id: Seq<char>) -> bool {
    exists|i: int| 0 <= i < cs.len() && #[trigger] cs[i].connection_id == id
}

/// The position of the connection with id `id`.
pub open spec fn connection_index(cs: Seq<ConnectionInfoView>, id: Seq<char>) -> int {
    choose|i: int| 0 <= i < cs.len() && #[trigger] cs[i].connection_id == id
}

/// No two connections share an id.
pub open spec fn connection_ids_unique(cs: Seq<ConnectionInfoView>) -> bool {
    forall|i: int, j: int| 0 <= i < cs.len() && 0 <= j < cs.len() && i != j
        ==> cs[i].connection_id != cs[j].connection_id
}

/// The connection with id `id`, if any.
pub open spec fn find_connection(cs: Seq<ConnectionInfoView>, id: Seq<char>) -> Option<ConnectionInfoView> {
    if has_connection(cs, id) {
        Some(cs[connection_index(cs, id)])
    } else {
        None
    }
}

/// A connection passes the optional subject and user filters.
pub open spec fn connection_matches(c: ConnectionInfoView, subject: Option<Seq<char>>, user_id: Option<Seq<char>>) -> bool {
    &&& (subject matches Some(s) ==> c.subjects.contains(s))
    &&& (user_id matches Some(u) ==> c.user_id == u)
}

/// The connections that pass the filters, in order.
pub open spec fn filter_connections(
    cs: Seq<ConnectionInfoView>,
    subject: Option<Seq<char>>,
    user_id: Option<Seq<char>>,
) -> Seq<ConnectionInfoView>
    decreases cs.len(),
{
    if cs.len() == 0 {
        Seq::empty()
    } else {
        let rest = filter_connections(cs.drop_last(), subject, user_id);
        if connection_matches(cs.last(), subject, user_id) { rest.push(cs.last()) } else { rest }
    }
}

/// The plain view of an optional string.
pub open spec fn opt_str(s: Option<&str>) -> Option<Seq<char>> {
    match s {
        Some(x) => Some(x@),
        None => None,
    }
}

/// A subject map without connection `id` in subject `subject`; a subject left
/// with no connection is dropped.
pub open spec fn remove_member(
    subjects: Map<Seq<char>, Set<Seq<char>>>,
    subject: Seq<char>,
    id: Seq<char>,
) -> Map<Seq<char>, Set<Seq<char>>> {
    if subjects.contains_key(subject) {
        let rest = subjects[subject].remove(id);
        if rest.len() == 0 { subjects.remove(subject) } else { subjects.insert(subject, rest) }
    } else {
        subjects
    }
}

/// `remove_member` applied for each subject of a list, in order.
pub open spec fn remove_member_all(
    subjects: Map<Seq<char>, Set<Seq<char>>>,
    list: Seq<Seq<char>>,
    id: Seq<char>,
) -> Map<Seq<char>, Set<Seq<char>>>
    decreases list.len(),
{
    if list.len() == 0 {
        subjects
    } else {
        remove_member(remove_member_all(subjects, list.drop_last(), id), list.last(), id)
    }
}

/// The routes that do not point at connection `id`.
pub open spec fn routes_without(routes: Map<Seq<char>, RouteView>, id: Seq<char>) -> Map<Seq<char>, RouteView> {
    Map::new(|k: Seq<char>| routes.contains_key(k) && routes[k].connection_id != id, |k: Seq<char>| routes[k])
}

/// The state after connection `id` is unregistered: the connection, its
/// subject memberships and the request routes that point at it are gone.
pub open spec fn spec_unregister(m: GatewayModel, id: Seq<char>) -> GatewayModel {
    if has_connection(m.connections, id) {
        let i = connection_index(m.connections, id);
        GatewayModel {
            connections: m.connections.remove(i),
            subjects: remove_member_all(m.subjects, m.connections[i].subjects, id),
            routes: routes_without(m.routes, id),
            ..m
        }
    } else {
        m
    }
}

/// The state after connection `id` is seen at `timestamp`.
pub open spec fn spec_mark_alive(m: GatewayModel, id: Seq<char>, timestamp: i64) -> GatewayModel {
    if has_connection(m.connections, id) {
        let i = connection_index(m.connections, id);
        GatewayModel {
            connections: m.connections.update(i, ConnectionInfoView { last_seen_at: timestamp, ..m.connections[i] }),
            ..m
        }
    } else {
        m
    }
}

/// The state after each connection of a list is unregistered, in order.
pub open spec fn spec_unregister_all(m: GatewayModel, ids: Seq<Seq<char>>) -> GatewayModel
    decreases ids.len(),
{
    if ids.len() == 0 {
        m
    } else {
        spec_unregister(spec_unregister_all(m, ids.drop_last()), ids.last())
    }
}

/// A connection has not been seen for more than `stale_after` seconds at `now`.
pub open spec fn is_stale(c: ConnectionInfoView, now: i64, stale_after: i64) -> bool {
    clamp_i64(now - c.last_seen_at) > stale_after
}

/// The stale connections, in order.
pub open spec fn stale_connections(cs: Seq<ConnectionInfoView>, now: i64, stale_after: i64) -> Seq<ConnectionInfoView>
    decreases cs.len(),
{
    if cs.len() == 0 {
        Seq::empty()
    } else {
        let rest = stale_connections(cs.drop_last(), now, stale_after);
        if is_stale(cs.last(), now, stale_after) { rest.push(cs.last()) } else { rest }
    }
}

/// The ids of a list of connections.
pub open spec fn ids_of(cs: Seq<ConnectionInfoView>) -> Seq<Seq<char>> {
    cs.map_values(|c: ConnectionInfoView| c.connection_id)
}

/// Unregistering one connection keeps the others as they were.
pub proof fn lemma_unregister_keeps(m: GatewayModel, a: Seq<char>, b: Seq<char>)
    requires
        connection_ids_unique(m.connections),
    ensures
        connection_ids_unique(spec_unregister(m, a).connections),
        a != b ==> find_connection(spec_unregister(m, a).connections, b) == find_connection(m.connections, b),
{
    let cs = m.connections;
    if has_connection(cs, a) {
        let i = connection_index(cs, a);
        let t = cs.remove(i);
        assert(t == spec_unregister(m, a).connections);
        assert forall|x: int, y: int| 0 <= x < t.len() && 0 <= y < t.len() && x != y
            implies t[x].connection_id != t[y].connection_id by {
            let x2 = if x < i { x } else { x + 1 };
            let y2 = if y < i { y } else { y + 1 };
            assert(t[x] == cs[x2] && t[y] == cs[y2]);
        }
        if has_connection(cs, b) && a != b {
            let j = connection_index(cs, b);
            assert(j != i);
            let j2 = if j < i { j } else { j - 1 };
            assert(t[j2] == cs[j]);
            assert(has_connection(t, b));
            let k = connection_index(t, b);
            assert(k == j2);
        }
        if has_connection(t, b) && a != b {
            let k = connection_index(t, b);
            let k2 = if k < i { k } else { k + 1 };
            assert(cs[k2] == t[k]);
            assert(has_connection(cs, b));
        }
    }
}

/// The queue of a subject (empty when it has none).
pub open spec fn queue_of(p: Map<Seq<char>, Seq<PendingView>>, s: Seq<char>) -> Seq<PendingView> {
    if p.contains_key(s) { p[s] } else { Seq::empty() }
}

/// The pending map after `item` is queued for subject `s`; with a sticky key,
/// earlier messages under that key are dropped first. The queue is then pruned.
pub open spec fn enqueue_one(
    p: Map<Seq<char>, Seq<PendingView>>,
    s: Seq<char>,
    item: PendingView,
    sticky: Option<Seq<char>>,
    now: i64,
) -> Map<Seq<char>, Seq<PendingView>> {
    let q = match sticky {
        Some(k) => drop_sticky(queue_of(p, s), k),
        None => queue_of(p, s),
    };
    p.insert(s, prune_queue(q.push(item), now))
}

/// `enqueue_one` for each subject of a list, in order.
pub open spec fn enqueue_all(
    p: Map<Seq<char>, Seq<PendingView>>,
    subjects: Seq<Seq<char>>,
    item: PendingView,
    sticky: Option<Seq<char>>,
    now: i64,
) -> Map<Seq<char>, Seq<PendingView>>
    decreases subjects.len(),
{
    if subjects.len() == 0 {
        p
    } else {
        enqueue_one(enqueue_all(p, subjects.drop_last(), item, sticky, now), subjects.last(), item, sticky, now)
    }
}

/// The state after `message` is queued at `now` for each subject, for replay
/// on the subjects' next connections. Nothing happens without subjects or
/// with an empty message.
pub open spec fn spec_requeue(m: GatewayModel, subjects: Seq<Seq<char>>, message: Seq<char>, now: i64) -> GatewayModel {
    if subjects.len() == 0 || message.len() == 0 {
        m
    } else {
        GatewayModel {
            pending: enqueue_all(
                m.pending,
                subjects,
                PendingView { text: message, enqueued_at: now, sticky_key: None },
                None,
                now,
            ),
            ..m
        }
    }
}

/// The state after `message` becomes, for each subject, the latest message
/// buffered under sticky key `key` (replacing earlier ones under that key).
/// Nothing happens without subjects, with an empty message or an empty key.
pub open spec fn spec_buffer_latest(
    m: GatewayModel,
    subjects: Seq<Seq<char>>,
    message: Seq<char>,
    key: Seq<char>,
    now: i64,
) -> GatewayModel {
    if subjects.len() == 0 || message.len() == 0 || key.len() == 0 {
        m
    } else {
        GatewayModel {
            pending: enqueue_all(
                m.pending,
                subjects,
                PendingView { text: message, enqueued_at: now, sticky_key: Some(key) },
                Some(key),
                now,
            ),
            ..m
        }
    }
}

/// `out` extended by each text not already in it, in order.
pub open spec fn append_new(out: Seq<Seq<char>>, texts: Seq<Seq<char>>) -> Seq<Seq<char>>
    decreases texts.len(),
{
    if texts.len() == 0 {
        out
    } else {
        let before = append_new(out, texts.drop_last());
        if before.contains(texts.last()) { before } else { before.push(texts.last()) }
    }
}

/// The texts of a queue, front first.
pub open spec fn texts_of(q: Seq<PendingView>) -> Seq<Seq<char>> {
    q.map_values(|p: PendingView| p.text)
}

/// Taking the pending messages of each subject in order: a subject's queue is
/// removed, pruned at `now`, and its texts not yet taken are appended.
pub open spec fn take_all(
    p: Map<Seq<char>, Seq<PendingView>>,
    subjects: Seq<Seq<char>>,
    now: i64,
) -> (Map<Seq<char>, Seq<PendingView>>, Seq<Seq<char>>)
    decreases subjects.len(),
{
    if subjects.len() == 0 {
        (p, Seq::empty())
    } else {
        let (p1, out) = take_all(p, subjects.drop_last(), now);
        let s = subjects.last();
        if p1.contains_key(s) {
            (p1.remove(s), append_new(out, texts_of(prune_queue(p1[s], now))))
        } else {
            (p1, out)
        }
    }
}

/// The connections of `user` with client instance `instance` other than `id`, in order.
pub open spec fn same_instance(
    cs: Seq<ConnectionInfoView>,
    user: Seq<char>,
    instance: Seq<char>,
    id: Seq<char>,
) -> Seq<ConnectionInfoView>
    decreases cs.len(),
{
    if cs.len() == 0 {
        Seq::empty()
    } else {
        let rest = same_instance(cs.drop_last(), user, instance, id);
        let c = cs.last();
        if c.user_id == user && c.client_instance_id == instance && c.connection_id != id {
            rest.push(c)
        } else {
            rest
        }
    }
}

/// The connections of `user`, in order.
pub open spec fn user_connections(cs: Seq<ConnectionInfoView>, user: Seq<char>) -> Seq<ConnectionInfoView>
    decreases cs.len(),
{
    if cs.len() == 0 {
        Seq::empty()
    } else {
        let rest = user_connections(cs.drop_last(), user);
        if cs.last().user_id == user { rest.push(cs.last()) } else { rest }
    }
}

/// Inserts `x` into a list sorted by connection time, after every connection
/// that is not newer.
pub open spec fn insert_by_connected(s: Seq<ConnectionInfoView>, x: ConnectionInfoView) -> Seq<ConnectionInfoView>
    decreases s.len(),
{
    if s.len() == 0 {
        seq![x]
    } else if x.connected_at < s.last().connected_at {
        insert_by_connected(s.drop_last(), x).push(s.last())
    } else {
        s.push(x)
    }
}

/// A stable sort of connections by connection time, oldest first.
pub open spec fn sort_by_connected(s: Seq<ConnectionInfoView>) -> Seq<ConnectionInfoView>
    decreases s.len(),
{
    if s.len() == 0 {
        s
    } else {
        insert_by_connected(sort_by_connected(s.drop_last()), s.last())
    }
}

/// How many of a user's `n` connections a new one pushes out under the cap.
pub open spec fn overflow_count(n: nat, max: Option<usize>) -> nat {
    match max {
        Some(mx) => if n >= mx { (n + 1 - mx) as nat } else { 0 },
        None => 0,
    }
}

/// The connections of a list other than `id`.
pub open spec fn without_id(cs: Seq<ConnectionInfoView>, id: Seq<char>) -> Seq<ConnectionInfoView>
    decreases cs.len(),
{
    if cs.len() == 0 {
        Seq::empty()
    } else {
        let rest = without_id(cs.drop_last(), id);
        if cs.last().connection_id != id { rest.push(cs.last()) } else { rest }
    }
}

/// The connections of `user` that a new connection `id` pushes out under the
/// per-user cap: the oldest ones (ties in registration order), except `id`.
pub open spec fn cap_victims(
    cs: Seq<ConnectionInfoView>,
    user: Seq<char>,
    id: Seq<char>,
    max: Option<usize>,
) -> Seq<ConnectionInfoView> {
    let sorted = sort_by_connected(user_connections(cs, user));
    let n = overflow_count(sorted.len(), max);
    let taken = if n <= sorted.len() { sorted.take(n as int) } else { sorted };
    without_id(taken, id)
}

/// The connections with a new connection stored: in place of one with the
/// same id, else at the end.
pub open spec fn upsert_connection(cs: Seq<ConnectionInfoView>, info: ConnectionInfoView) -> Seq<ConnectionInfoView> {
    if has_connection(cs, info.connection_id) {
        cs.update(connection_index(cs, info.connection_id), info)
    } else {
        cs.push(info)
    }
}

/// A subject map with connection `id` added to each subject of a list.
pub open spec fn add_member_all(
    subjects: Map<Seq<char>, Set<Seq<char>>>,
    list: Seq<Seq<char>>,
    id: Seq<char>,
) -> Map<Seq<char>, Set<Seq<char>>>
    decreases list.len(),
{
    if list.len() == 0 {
        subjects
    } else {
        let before = add_member_all(subjects, list.drop_last(), id);
        let s = list.last();
        let members = if before.contains_key(s) { before[s] } else { Set::empty() };
        before.insert(s, members.insert(id))
    }
}

/// The description of a newly registered connection.
pub open spec fn new_connection_info(
    id: Seq<char>,
    user: Seq<char>,
    instance: Seq<char>,
    subjects: Seq<Seq<char>>,
    connected_at: i64,
) -> ConnectionInfoView {
    ConnectionInfoView {
        connection_id: id,
        user_id: user,
        client_instance_id: instance,
        subjects,
        connected_at,
        last_seen_at: connected_at,
    }
}

/// The connections a registration evicts before adding the new one: first
/// the other connections of the same user and client instance (when the
/// instance is given), then the user's oldest connections beyond the cap.
pub open spec fn register_evictions(
    m: GatewayModel,
    id: Seq<char>,
    user: Seq<char>,
    instance: Seq<char>,
) -> (Seq<ConnectionInfoView>, Seq<ConnectionInfoView>) {
    let first = if instance.len() > 0 { same_instance(m.connections, user, instance, id) } else { Seq::empty() };
    let m1 = spec_unregister_all(m, ids_of(first));
    (first, cap_victims(m1.connections, user, id, m.max_connections_per_user))
}

/// The state after connection `id` registers for `user` with client instance
/// `instance` and `subjects` at `connected_at`: the evicted connections are
/// unregistered, the connection is stored and subscribed to its subjects, and
/// the messages pending for its subjects are taken (at `now`).
pub open spec fn spec_register(
    m: GatewayModel,
    id: Seq<char>,
    user: Seq<char>,
    instance: Seq<char>,
    subjects: Seq<Seq<char>>,
    connected_at: i64,
    now: i64,
) -> GatewayModel {
    let (first, second) = register_evictions(m, id, user, instance);
    let m2 = spec_unregister_all(spec_unregister_all(m, ids_of(first)), ids_of(second));
    let info = new_connection_info(id, user, instance, subjects, connected_at);
    GatewayModel {
        connections: upsert_connection(m2.connections, info),
        subjects: add_member_all(m2.subjects, subjects, id),
        pending: take_all(m2.pending, subjects, now).0,
        ..m2
    }
}

/// The messages a registration replays to the new connection.
pub open spec fn register_replay(
    m: GatewayModel,
    id: Seq<char>,
    user: Seq<char>,
    instance: Seq<char>,
    subjects: Seq<Seq<char>>,
    now: i64,
) -> Seq<Seq<char>> {
    let (first, second) = register_evictions(m, id, user, instance);
    let m2 = spec_unregister_all(spec_unregister_all(m, ids_of(first)), ids_of(second));
    take_all(m2.pending, subjects, now).1
}

/// A route is stale at `now`: older than its time to live, or pointing at a
/// connection that is gone.
pub open spec fn route_is_stale(cs: Seq<ConnectionInfoView>, r: RouteView, now: i64) -> bool {
    clamp_i64(now - r.updated_at) > REQUEST_ROUTE_TTL_SECONDS || !has_connection(cs, r.connection_id)
}

/// The routes after a sweep at `now`: when there are more than
/// `REQUEST_ROUTE_MAX`, the stale ones are dropped.
pub open spec fn prune_routes(
    routes: Map<Seq<char>, RouteView>,
    cs: Seq<ConnectionInfoView>,
    now: i64,
) -> Map<Seq<char>, RouteView> {
    if routes.dom().len() <= REQUEST_ROUTE_MAX {
        routes
    } else {
        Map::new(|k: Seq<char>| routes.contains_key(k) && !route_is_stale(cs, routes[k], now), |k: Seq<char>| routes[k])
    }
}

/// The state after request `request_id` (trimmed) is bound to connection
/// `connection_id` of `user_id` at `now`; nothing changes when any of the
/// three is empty.
pub open spec fn spec_bind_route(
    m: GatewayModel,
    request_id: Seq<char>,
    connection_id: Seq<char>,
    user_id: Seq<char>,
    now: i64,
) -> GatewayModel {
    let key = spec_trim(request_id);
    if key.len() == 0 || connection_id.len() == 0 || user_id.len() == 0 {
        m
    } else {
        let routes = m.routes.insert(key, RouteView { connection_id, user_id, updated_at: now });
        GatewayModel { routes: prune_routes(routes, m.connections, now), ..m }
    }
}

/// The state after the route of request `request_id` (trimmed) is cleared.
pub open spec fn spec_clear_route(m: GatewayModel, request_id: Seq<char>) -> GatewayModel {
    let key = spec_trim(request_id);
    if key.len() == 0 {
        m
    } else {
        GatewayModel { routes: m.routes.remove(key), ..m }
    }
}

/// Two subject lists share a subject.
pub open spec fn shares_subject(a: Seq<Seq<char>>, b: Seq<Seq<char>>) -> bool {
    exists|i: int| 0 <= i < a.len() && b.contains(#[trigger] a[i])
}

/// Resolving the route of request `request_id` (trimmed) at `now`: the state
/// after it (a route that expired, whose connection is gone or belongs to
/// another user is dropped) and the connection to answer, if the route is
/// live and the connection carries one of `subjects` (any, when none are given).
pub open spec fn spec_resolve_route(
    m: GatewayModel,
    request_id: Seq<char>,
    subjects: Seq<Seq<char>>,
    now: i64,
) -> (GatewayModel, Option<Seq<char>>) {
    let key = spec_trim(request_id);
    if key.len() == 0 || !m.routes.contains_key(key) {
        (m, None)
    } else {
        let r = m.routes[key];
        let dropped = GatewayModel { routes: m.routes.remove(key), ..m };
        if clamp_i64(now - r.updated_at) > REQUEST_ROUTE_TTL_SECONDS {
            (dropped, None)
        } else {
            match find_connection(m.connections, r.connection_id) {
                None => (dropped, None),
                Some(c) => {
                    if c.user_id != r.user_id {
                        (dropped, None)
                    } else if subjects.len() > 0 && !shares_subject(subjects, c.subjects) {
                        (m, None)
                    } else {
                        (m, Some(r.connection_id))
                    }
                },
            }
        }
    }
}

/// The state after a relay context snapshot arrives at `now`: it is merged
/// into the contexts of its subject (see `spec_merge_snapshot`); nothing
/// changes when its subject is empty or it is stale.
pub open spec fn spec_apply_snapshot(m: GatewayModel, snapshot: RelayContextSnapshotView, now: i64) -> GatewayModel {
    match spec_normalize(snapshot.subject_email) {
        None => m,
        Some(subject) => {
            let existing = if m.relay_contexts.contains_key(subject) { Some(m.relay_contexts[subject]) } else { None };
            match spec_merge_snapshot(existing, snapshot, subject, now) {
                None => m,
                Some(n) => GatewayModel { relay_contexts: m.relay_contexts.insert(subject, n), ..m },
            }
        },
    }
}

/// The nonce cache after a sweep at `now`: when it holds more than
/// `RELAY_REPLAY_CACHE_MAX` keys, those older than the replay window are dropped.
pub open spec fn prune_replay(seen: Map<Seq<char>, i64>, now: i64) -> Map<Seq<char>, i64> {
    if seen.dom().len() <= RELAY_REPLAY_CACHE_MAX {
        seen
    } else {
        Map::new(
            |k: Seq<char>| seen.contains_key(k) && clamp_i64(now - seen[k]) <= RELAY_REPLAY_TTL_SECONDS,
            |k: Seq<char>| seen[k],
        )
    }
}

/// Checking replay key `key` at `now`: whether the key is fresh (not seen
/// within the replay window; a blank key always is), and the state after
/// it, in which a fresh non-blank key is recorded as seen at `now`.
pub open spec fn spec_check_replay(m: GatewayModel, key: Seq<char>, now: i64) -> (GatewayModel, bool) {
    if spec_trim(key).len() == 0 {
        (m, true)
    } else if m.replay_seen.contains_key(key) && clamp_i64(now - m.replay_seen[key]) <= RELAY_REPLAY_TTL_SECONDS {
        (m, false)
    } else {
        (GatewayModel { replay_seen: prune_replay(m.replay_seen.insert(key, now), now), ..m }, true)
    }
}

/// The replay key of a relay command: sender, command, context and nonce,
/// separated by `|`.
pub open spec fn replay_key(sender: Seq<char>, command: Seq<char>, context_id: Seq<char>, nonce: Seq<char>) -> Seq<char> {
    sender + seq!['|'] + command + seq!['|'] + context_id + seq!['|'] + nonce
}

/// The rate window that `now` falls in.
pub open spec fn rate_window(now: i64) -> i64 {
    (now / RELAY_RATE_WINDOW_SECONDS) as i64
}

/// The rate counter key of a relay command: sender, command and context
/// (each trimmed and lower-cased) and the window, separated by `|`.
pub open spec fn rate_key(sender: Seq<char>, command: Seq<char>, context_id: Seq<char>, window: i64) -> Seq<char> {
    spec_lowercase(spec_trim(sender)) + seq!['|'] + spec_lowercase(spec_trim(command)) + seq!['|']
        + spec_lowercase(spec_trim(context_id)) + seq!['|'] + decimal_text(window as int)
}

/// Counting a relay command against its rate limit at `now`: whether it is
/// under the limit, and the state after it (the counter of its key is set to
/// the current window and, when under the limit, incremented).
pub open spec fn spec_check_rate(
    m: GatewayModel,
    sender: Seq<char>,
    command: Seq<char>,
    context_id: Seq<char>,
    now: i64,
) -> (GatewayModel, bool) {
    let window = rate_window(now);
    let key = rate_key(sender, command, context_id, window);
    let count: u32 = if m.rate_counters.contains_key(key) && m.rate_counters[key].0 == window {
        m.rate_counters[key].1
    } else {
        0
    };
    if count >= RELAY_RATE_LIMIT_DEFAULT {
        (GatewayModel { rate_counters: m.rate_counters.insert(key, (window, count)), ..m }, false)
    } else {
        (GatewayModel { rate_counters: m.rate_counters.insert(key, (window, (count + 1) as u32)), ..m }, true)
    }
}

/// Authorizing a relay command: the state after it and either the context
/// id and policy version that authorize it, or the refusal. The sender must
/// normalize to a subject, the operation key must not be blank, there must be
/// targets and the payload must fit; the sender's contexts must be of the
/// spec's type; `spec_select_from` picks the context; then a non-blank nonce
/// must not be replayed and the rate limit must allow the command.
pub open spec fn spec_authorize(
    m: GatewayModel,
    sender: Seq<char>,
    command: Seq<char>,
    spec: RelayAuthorizationSpec,
    operation_key: Seq<char>,
    targets: Seq<Seq<char>>,
    nonce: Option<Seq<char>>,
    payload_size: Option<usize>,
    now: i64,
) -> (GatewayModel, Result<(Seq<char>, u64), RelayAuthError>) {
    match spec_normalize(sender) {
        None => (m, Err(RelayAuthError::SenderBindingInvalid)),
        Some(subject) => {
            let key = spec_trim(operation_key);
            if key.len() == 0 {
                (m, Err(RelayAuthError::MissingContext))
            } else if targets.len() == 0 {
                (m, Err(RelayAuthError::ScopeViolation))
            } else if payload_size is Some && payload_size.unwrap() > RELAY_CHUNK_CIPHERTEXT_MAX_BYTES {
                (m, Err(RelayAuthError::PayloadTooLarge))
            } else if !m.relay_contexts.contains_key(subject)
                || m.relay_contexts[subject].context_type != spec.relay_context_type {
                (m, Err(RelayAuthError::MissingContext))
            } else {
                let cs = m.relay_contexts[subject].contexts;
                match spec_select_from(cs, 0, subject, spec, key, spec_family(spec), targets, now) {
                    Err(e) => (m, Err(e)),
                    Ok(i) => {
                        let c = cs[i];
                        let checked = if nonce is Some && spec_trim(nonce.unwrap()).len() > 0 {
                            spec_check_replay(m, replay_key(subject, command, c.context_id, spec_trim(nonce.unwrap())), now)
                        } else {
                            (m, true)
                        };
                        if !checked.1 {
                            (checked.0, Err(RelayAuthError::ReplayDetected))
                        } else {
                            let counted = spec_check_rate(checked.0, subject, command, c.context_id, now);
                            if !counted.1 {
                                (counted.0, Err(RelayAuthError::RateLimited))
                            } else {
                                (counted.0, Ok((c.context_id, c.policy_version)))
                            }
                        }
                    },
                }
            }
        },
    }
}

/// The connection ids subscribed to any subject of a list.
pub open spec fn target_ids(subjects: Map<Seq<char>, Set<Seq<char>>>, list: Seq<Seq<char>>) -> Set<Seq<char>>
    decreases list.len(),
{
    if list.len() == 0 {
        Set::empty()
    } else {
        let rest = target_ids(subjects, list.drop_last());
        if subjects.contains_key(list.last()) { rest.union(subjects[list.last()]) } else { rest }
    }
}

/// The state after a dispatch to `subjects` buffered `message` under the
/// sticky key, when one is given (see `spec_buffer_latest`).
pub open spec fn dispatch_buffered(
    m: GatewayModel,
    subjects: Seq<Seq<char>>,
    message: Seq<char>,
    sticky: Option<Seq<char>>,
    now: i64,
) -> GatewayModel {
    match sticky {
        Some(k) => spec_buffer_latest(m, subjects, message, k, now),
        None => m,
    }
}

/// What a dispatch of `message` to `subjects` may leave behind when the
/// connections in `failed` did not take it (and those that took it count
/// `enqueued`): the failed connections are unregistered, and when none took
/// it and buffering was asked for, the message is queued for the subjects.
pub open spec fn dispatch_outcome(
    m1: GatewayModel,
    subjects: Seq<Seq<char>>,
    message: Seq<char>,
    buffer_if_undelivered: bool,
    failed: Seq<Seq<char>>,
    enqueued: nat,
    now: i64,
) -> GatewayModel {
    let m2 = spec_unregister_all(m1, failed);
    if enqueued == 0 && buffer_if_undelivered { spec_requeue(m2, subjects, message, now) } else { m2 }
}

/// A dispatch of `message` to `subjects` at `now` from state `m0` may end in
/// state `after`, having tried `attempted` connections of which `enqueued`
/// took the message: after the sticky buffering, every connection subscribed
/// to a subject is tried once; some set of them (among them every one that is
/// not registered) did not take it, and `dispatch_outcome` gives the state.
pub open spec fn dispatch_allows(
    m0: GatewayModel,
    subjects: Seq<Seq<char>>,
    message: Seq<char>,
    buffer_if_undelivered: bool,
    sticky: Option<Seq<char>>,
    now: i64,
    after: GatewayModel,
    attempted: nat,
    enqueued: nat,
) -> bool {
    let m1 = dispatch_buffered(m0, subjects, message, sticky, now);
    let targets = target_ids(m1.subjects, subjects);
    &&& attempted == targets.len()
    &&& exists|failed: Seq<Seq<char>>| {
        &&& #[trigger] failed.no_duplicates()
        &&& failed.to_set().subset_of(targets)
        &&& (forall|id: Seq<char>| #[trigger] targets.contains(id) && !has_connection(m1.connections, id)
            ==> failed.contains(id))
        &&& enqueued + failed.len() == attempted
        &&& after == dispatch_outcome(m1, subjects, message, buffer_if_undelivered, failed, enqueued, now)
    }
}

/// The close requests an eviction of `ids` hands out: one to each, in
/// order, when a close is asked for; none otherwise.
pub open spec fn closes_for(ids: Seq<Seq<char>>, close: Option<(u16, Seq<char>)>) -> Seq<Handoff> {
    match close {
        Some((code, reason)) => closes_to(ids, code, reason),
        None => Seq::empty(),
    }
}

/// The plain view of an optional close request.
pub open spec fn close_view(close: Option<(u16, &str)>) -> Option<(u16, Seq<char>)> {
    match close {
        Some((code, reason)) => Some((code, reason@)),
        None => None,
    }
}

/// The texts a dispatch of `text` hands out when it tries the connections
/// of `order` in turn: one to each that is registered in `cs`.
pub open spec fn dispatch_handoffs(cs: Seq<ConnectionInfoView>, order: Seq<Seq<char>>, text: Seq<char>) -> Seq<Handoff>
    decreases order.len(),
{
    if order.len() == 0 {
        Seq::empty()
    } else {
        dispatch_handoffs(cs, order.drop_last(), text) + (if has_connection(cs, order.last()) {
            texts_to(seq![order.last()], text)
        } else {
            Seq::empty()
        })
    }
}

/// A dispatch of `message` to `subjects` from state `m` took the handoff
/// record from `before` to `after`: in some order that lists each
/// connection subscribed to a subject once, the message was handed as text
/// to each of them that is registered, and nothing else was handed out.
pub open spec fn dispatch_handed(
    m: GatewayModel,
    subjects: Seq<Seq<char>>,
    message: Seq<char>,
    before: Seq<Handoff>,
    after: Seq<Handoff>,
) -> bool {
    exists|order: Seq<Seq<char>>| {
        &&& #[trigger] order.no_duplicates()
        &&& order.to_set() == target_ids(m.subjects, subjects)
        &&& after == before + dispatch_handoffs(m.connections, order, message)
    }
}

/// The shared state of the gateway. Its tables are association lists
/// (`Table`) rather than concurrent maps: the state is changed through
/// `&mut self`, and the program around the library shares it behind a lock.
/// `handed` records every message handed to a connection's channel.
pub struct GatewayState {
    connections: Table<ConnectionInfo>,
    senders: Table<UnboundedSender<OutboundMessage>>,
    subjects: Table<Vec<String>>,
    pending_by_subject: Table<VecDeque<PendingMessage>>,
    request_routes: Table<RequestRoute>,
    relay_contexts_by_subject: Table<RelaySubjectContexts>,
    relay_replay_cache: Table<i64>,
    relay_rate_counters: Table<RelayRateCounter>,
    max_connections_per_user: Option<usize>,
    handed: Ghost<Seq<Handoff>>,
}

impl View for GatewayState {
    type V = GatewayModel;

    closed spec fn view(&self) -> GatewayModel {
        GatewayModel {
            connections: self.connections.seq().map_values(|e: (String, ConnectionInfo)| e.1@),
            subjects: self.subjects.view().map_values(|v: Vec<String>| strs(v@).to_set()),
            pending: self.pending_by_subject.view().map_values(|q: VecDeque<PendingMessage>| pending_views(q@)),
            routes: self.request_routes.view().map_values(|r: RequestRoute| r@),
            relay_contexts: self.relay_contexts_by_subject.view().map_values(|c: RelaySubjectContexts| c@),
            replay_seen: self.relay_replay_cache.view(),
            rate_counters: self.relay_rate_counters.view().map_values(|c: RelayRateCounter| (c.window_start, c.count)),
            max_connections_per_user: self.max_connections_per_user,
        }
    }
}

impl GatewayState {
    /// Every message handed to a connection's channel so far, in order.
    pub closed spec fn handoffs(&self) -> Seq<Handoff> {
        self.handed@
    }

    /// The state's tables are consistent: keys are unique, each connection is
    /// stored under its own id and has a sender, and subject member lists hold
    /// no id twice.
    pub closed spec fn wf(&self) -> bool {
        &&& self.connections.wf()
        &&& self.senders.wf()
        &&& self.subjects.wf()
        &&& self.pending_by_subject.wf()
        &&& self.request_routes.wf()
        &&& self.relay_contexts_by_subject.wf()
        &&& self.relay_replay_cache.wf()
        &&& self.relay_rate_counters.wf()
        &&& forall|i: int| 0 <= i < self.connections.seq().len()
            ==> #[trigger] self.connections.seq()[i].0@ == self.connections.seq()[i].1.connection_id@
        &&& self.senders.view().dom() =~= self.connections.view().dom()
        &&& forall|k: Seq<char>| #[trigger] self.subjects.view().contains_key(k)
            ==> strs(self.subjects.view()[k]@).no_duplicates()
    }

    /// An empty state with an optional per-user connection cap.
    pub fn new(max_connections_per_user: Option<usize>) -> (s: Self)
        ensures
            s.wf(),
            s@.connections == Seq::<ConnectionInfoView>::empty(),
            s@.subjects == Map::<Seq<char>, Set<Seq<char>>>::empty(),
            s@.pending == Map::<Seq<char>, Seq<PendingView>>::empty(),
            s@.routes == Map::<Seq<char>, RouteView>::empty(),
            s@.relay_contexts == Map::<Seq<char>, RelaySubjectContextsView>::empty(),
            s@.replay_seen == Map::<Seq<char>, i64>::empty(),
            s@.rate_counters == Map::<Seq<char>, (i64, u32)>::empty(),
            s@.max_connections_per_user == max_connections_per_user,
            s.handoffs() == Seq::<Handoff>::empty(),
    {
        let s = GatewayState {
            connections: Table::new(),
            senders: Table::new(),
            subjects: Table::new(),
            pending_by_subject: Table::new(),
            request_routes: Table::new(),
            relay_contexts_by_subject: Table::new(),
            relay_replay_cache: Table::new(),
            relay_rate_counters: Table::new(),
            max_connections_per_user,
            handed: Ghost(Seq::empty()),
        };
        assert(s@.connections =~= Seq::<ConnectionInfoView>::empty());
        assert(s@.subjects =~= Map::<Seq<char>, Set<Seq<char>>>::empty());
        assert(s@.pending =~= Map::<Seq<char>, Seq<PendingView>>::empty());
        assert(s@.routes =~= Map::<Seq<char>, RouteView>::empty());
        assert(s@.relay_contexts =~= Map::<Seq<char>, RelaySubjectContextsView>::empty());
        assert(s@.rate_counters =~= Map::<Seq<char>, (i64, u32)>::empty());
        s
    }

    /// Ids of the state's connections are unique.
    pub proof fn lemma_connection_ids_unique(&self)
        requires
            self.wf(),
        ensures
            connection_ids_unique(self@.connections),
    {
        assert forall|i: int, j: int| 0 <= i < self@.connections.len() && 0 <= j < self@.connections.len() && i != j
            implies self@.connections[i].connection_id != self@.connections[j].connection_id by {
            assert(self.connections.seq()[i].0@ == self.connections.seq()[i].1.connection_id@);
            assert(self.connections.seq()[j].0@ == self.connections.seq()[j].1.connection_id@);
        }
    }

    /// The connections that carry `subject` (when given) and belong to
    /// `user_id` (when given), in registration order.
    pub fn list_connections(&self, subject: Option<&str>, user_id: Option<&str>) -> (r: Vec<ConnectionInfo>)
        requires
            self.wf(),
        ensures
            info_views(r@) == filter_connections(self@.connections, opt_str(subject), opt_str(user_id)),
    {
        let ghost cs = self@.connections;
        let mut results: Vec<ConnectionInfo> = Vec::new();
        let mut i: usize = 0;
        proof { assert(cs.take(0) =~= Seq::<ConnectionInfoView>::empty()); }
        while i < self.connections.len()
            invariant
                i <= cs.len(),
                cs == self@.connections,
                cs.len() == self.connections.seq().len(),
                info_views(results@) == filter_connections(cs.take(i as int), opt_str(subject), opt_str(user_id)),
            decreases cs.len() - i,
        {
            let info = self.connections.value_at(i);
            proof {
                assert(cs[i as int] == info@);
                assert(cs.take(i + 1).drop_last() =~= cs.take(i as int));
                assert(cs.take(i + 1).last() == cs[i as int]);
            }
            let keep_subject = match subject {
                Some(expected) => contains_text(&info.subjects, expected),
                None => true,
            };
            let keep_user = match user_id {
                Some(expected) => str_eq(info.user_id.as_str(), expected),
                None => true,
            };
            if keep_subject && keep_user {
                let ghost before = results@;
                results.push(info.duplicate());
                proof { assert(info_views(results@) =~= info_views(before).push(cs[i as int])); }
            }
            i = i + 1;
        }
        proof { assert(cs.take(cs.len() as int) =~= cs); }
        results
    }

    proof fn lemma_connection_index(&self, i: int)
        requires
            self.wf(),
            0 <= i < self.connections.seq().len(),
        ensures
            has_connection(self@.connections, self.connections.seq()[i].0@),
            connection_index(self@.connections, self.connections.seq()[i].0@) == i,
            self@.connections[i] == self.connections.seq()[i].1@,
            self.connections.view().contains_key(self.connections.seq()[i].0@),
    {
        self.lemma_connection_ids_unique();
        let id = self.connections.seq()[i].0@;
        assert(self@.connections[i].connection_id == id);
        assert(has_connection(self@.connections, id));
        let j = connection_index(self@.connections, id);
        assert(j == i);
        lemma_map_of_at(self.connections.seq(), i);
    }

    proof fn lemma_no_connection(&self, id: Seq<char>)
        requires
            self.wf(),
            !has_key(self.connections.seq(), id),
        ensures
            !has_connection(self@.connections, id),
            !self.senders.view().contains_key(id),
    {
        if has_connection(self@.connections, id) {
            let i = connection_index(self@.connections, id);
            assert(self.connections.seq()[i].0@ == self.connections.seq()[i].1.connection_id@);
            assert(self.connections.seq()[i].0@ == id);
        }
        assert(!self.connections.view().contains_key(id));
    }

    /// Records that connection `connection_id` was seen at `timestamp`.
    pub fn mark_connection_alive(&mut self, connection_id: &str, timestamp: i64)
        requires
            old(self).wf(),
        ensures
            final(self).wf(),
            final(self)@ == spec_mark_alive(old(self)@, connection_id@, timestamp),
    {
        match self.connections.find(connection_id) {
            Some(i) => {
                proof { self.lemma_connection_index(i as int); }
                let mut info = self.connections.value_at(i).duplicate();
                info.last_seen_at = timestamp;
                let ghost before = self.connections.seq();
                self.connections.set_value_at(i, info);
                proof {
                    assert(self.connections.view().dom() =~= old(self).connections.view().dom());
                    assert(self@.connections =~= old(self)@.connections.update(i as int, info@));
                }
            }
            None => {
                proof { self.lemma_no_connection(connection_id@); }
            }
        }
    }

    fn remove_subject_member(&mut self, subject: &str, id: &str)
        requires
            old(self).wf(),
        ensures
            final(self).wf(),
            final(self)@ == (GatewayModel { subjects: remove_member(old(self)@.subjects, subject@, id@), ..old(self)@ }),
            final(self).connections == old(self).connections,
            final(self).senders == old(self).senders,
            final(self).handed == old(self).handed,
    {
        match self.subjects.find(subject) {
            Some(j) => {
                proof { lemma_map_of_at(self.subjects.seq(), j as int); }
                let (key, members) = self.subjects.remove_at(j);
                let rest = remove_id(members, id);
                let ghost old_set = strs(old(self).subjects.view()[subject@]@).to_set();
                if rest.len() > 0 {
                    let ghost rest_seq = strs(rest@);
                    self.subjects.insert(key, rest);
                    proof {
                        assert(rest_seq.contains(rest_seq[0]));
                        assert(old_set.remove(id@).contains(rest_seq[0]));
                        assert(self@.subjects =~= old(self)@.subjects.insert(subject@, old_set.remove(id@)));
                    }
                } else {
                    proof {
                        assert(old_set.remove(id@) =~= Set::<Seq<char>>::empty());
                        assert(self@.subjects =~= old(self)@.subjects.remove(subject@));
                    }
                }
            }
            None => {
                assert(!old(self).subjects.view().contains_key(subject@));
                assert(self@.subjects =~= old(self)@.subjects);
            }
        }
    }

    fn remove_routes_to(&mut self, id: &str)
        requires
            old(self).wf(),
        ensures
            final(self).wf(),
            final(self)@ == (GatewayModel { routes: routes_without(old(self)@.routes, id@), ..old(self)@ }),
            final(self).connections == old(self).connections,
            final(self).senders == old(self).senders,
            final(self).subjects == old(self).subjects,
            final(self).handed == old(self).handed,
    {
        let ghost seq = self.request_routes.seq();
        let mut stale: Vec<String> = Vec::new();
        let mut i: usize = 0;
        while i < self.request_routes.len()
            invariant
                i <= seq.len(),
                seq == self.request_routes.seq(),
                self.request_routes.wf(),
                forall|k: Seq<char>| #[trigger] strs(stale@).to_set().contains(k) <==>
                    (exists|j: int| 0 <= j < i && seq[j].0@ == k && #[trigger] seq[j].1.connection_id@ == id@),
            decreases seq.len() - i,
        {
            if str_eq(self.request_routes.value_at(i).connection_id.as_str(), id) {
                let ghost before = strs(stale@);
                stale.push(self.request_routes.key_at(i).clone());
                proof {
                    assert(strs(stale@) =~= before.push(seq[i as int].0@));
                    lemma_push_to_set(before, seq[i as int].0@);
                }
            }
            i = i + 1;
        }
        self.request_routes.remove_keys(&stale);
        proof {
            let removed = strs(stale@).to_set();
            assert forall|k: Seq<char>| old(self).request_routes.view().contains_key(k) implies
                (removed.contains(k) <==> old(self).request_routes.view()[k].connection_id@ == id@) by {
                let j = choose|j: int| 0 <= j < seq.len() && #[trigger] seq[j].0@ == k;
                lemma_map_of_at(seq, j);
                if removed.contains(k) {
                    let j2 = choose|j2: int| 0 <= j2 < seq.len() && seq[j2].0@ == k && #[trigger] seq[j2].1.connection_id@ == id@;
                    assert(j2 == j);
                }
            }
            assert(self@.routes =~= routes_without(old(self)@.routes, id@));
        }
    }


    /// Unregisters connection `connection_id`: drops it, its subject
    /// memberships and the request routes that point at it, and returns its
    /// description.
    pub fn unregister_connection(&mut self, connection_id: &str) -> (r: Option<ConnectionInfo>)
        requires
            old(self).wf(),
        ensures
            final(self).wf(),
            final(self)@ == spec_unregister(old(self)@, connection_id@),
            match r {
                Some(info) => find_connection(old(self)@.connections, connection_id@) == Some(info@),
                None => !has_connection(old(self)@.connections, connection_id@),
            },
            final(self).handoffs() == old(self).handoffs(),
    {
        match self.connections.find(connection_id) {
            None => {
                proof { self.lemma_no_connection(connection_id@); }
                None
            }
            Some(i) => {
                proof { self.lemma_connection_index(i as int); }
                let ghost m0 = self@;
                let (_key, info) = self.connections.remove_at(i);
                let _ = self.senders.remove(connection_id);
                proof {
                    assert(self.connections.view().dom() =~= self.senders.view().dom());
                    assert forall|k: int| 0 <= k < self.connections.seq().len() implies
                        #[trigger] self.connections.seq()[k].0@ == self.connections.seq()[k].1.connection_id@ by {
                        let k2 = if k < i { k } else { k + 1 };
                        assert(self.connections.seq()[k] == old(self).connections.seq()[k2]);
                    }
                    assert(self@.connections =~= m0.connections.remove(i as int));
                    assert(info@ == m0.connections[i as int]);
                }
                let ghost m1 = self@;
                let mut j: usize = 0;
                while j < info.subjects.len()
                    invariant
                        j <= info.subjects@.len(),
                        self.wf(),
                        self@ == (GatewayModel {
                            subjects: remove_member_all(m1.subjects, strs(info.subjects@).take(j as int), connection_id@),
                            ..m1
                        }),
                        self.handed == old(self).handed,
                    decreases info.subjects@.len() - j,
                {
                    proof {
                        let l = strs(info.subjects@);
                        assert(l.take(j + 1).drop_last() =~= l.take(j as int));
                        assert(l.take(j + 1).last() == info.subjects@[j as int]@);
                    }
                    self.remove_subject_member(info.subjects[j].as_str(), connection_id);
                    j = j + 1;
                }
                proof { assert(strs(info.subjects@).take(info.subjects@.len() as int) =~= strs(info.subjects@)); }
                self.remove_routes_to(connection_id);
                Some(info)
            }
        }
    }


    /// Hands `message` to the channel of connection `connection_id`, when it
    /// is registered, and records the handoff; reports whether the channel
    /// took it.
    fn hand_to(&mut self, connection_id: &str, message: OutboundMessage) -> (r: bool)
        requires
            old(self).wf(),
        ensures
            final(self).wf(),
            final(self)@ == old(self)@,
            final(self).connections == old(self).connections,
            final(self).senders == old(self).senders,
            final(self).subjects == old(self).subjects,
            has_connection(old(self)@.connections, connection_id@) ==> final(self).handoffs()
                == old(self).handoffs().push(Handoff { connection_id: connection_id@, message: message@ }),
            !has_connection(old(self)@.connections, connection_id@)
                ==> final(self).handoffs() == old(self).handoffs() && !r,
            old(self).senders.view().contains_key(connection_id@) ==> final(self).handoffs()
                == old(self).handoffs().push(Handoff { connection_id: connection_id@, message: message@ }),
    {
        let ghost h = Handoff { connection_id: connection_id@, message: message@ };
        let mut found = false;
        let mut sent = false;
        match self.senders.get(connection_id) {
            Some(sender) => {
                proof {
                    assert(self.connections.view().contains_key(connection_id@));
                    let i = choose|i: int| 0 <= i < self.connections.seq().len()
                        && #[trigger] self.connections.seq()[i].0@ == connection_id@;
                    self.lemma_connection_index(i);
                }
                found = true;
                sent = outbound_send(sender, message);
            },
            None => {
                proof {
                    assert(!self.connections.view().contains_key(connection_id@));
                    self.lemma_no_connection(connection_id@);
                }
            },
        }
        if found {
            self.handed = Ghost(self.handed@.push(h));
        }
        sent
    }

    /// Asks connection `connection_id` to close with `close` (when given),
    /// then unregisters it.
    fn evict_connection(&mut self, connection_id: &str, close: Option<(u16, &str)>) -> (r: Option<ConnectionInfo>)
        requires
            old(self).wf(),
        ensures
            final(self).wf(),
            final(self)@ == spec_unregister(old(self)@, connection_id@),
            match r {
                Some(info) => find_connection(old(self)@.connections, connection_id@) == Some(info@),
                None => !has_connection(old(self)@.connections, connection_id@),
            },
            final(self).handoffs() == old(self).handoffs() + (match close {
                Some((code, reason)) => if has_connection(old(self)@.connections, connection_id@) {
                    closes_to(seq![connection_id@], code, reason@)
                } else {
                    Seq::empty()
                },
                None => Seq::empty(),
            }),
    {
        let ghost h0 = self.handoffs();
        if let Some((code, reason)) = close {
            let _ = self.hand_to(connection_id, OutboundMessage::Close { code, reason: String::from_str(reason) });
            proof {
                if has_connection(old(self)@.connections, connection_id@) {
                    assert(self.handoffs() =~= h0 + closes_to(seq![connection_id@], code, reason@));
                } else {
                    assert(self.handoffs() =~= h0 + Seq::<Handoff>::empty());
                }
            }
        } else {
            assert(self.handoffs() =~= h0 + Seq::<Handoff>::empty());
        }
        self.unregister_connection(connection_id)
    }

    /// Queues `message` for connection `connection_id`. A connection whose
    /// channel no longer accepts messages is unregistered.
    pub fn send_to_connection(&mut self, connection_id: &str, message: String) -> (r: bool)
        requires
            old(self).wf(),
        ensures
            final(self).wf(),
            r ==> final(self)@ == old(self)@ && has_connection(old(self)@.connections, connection_id@),
            !r && (connection_id@.len() == 0 || message@.len() == 0) ==> final(self)@ == old(self)@,
            !r && connection_id@.len() > 0 && message@.len() > 0
                ==> final(self)@ == spec_unregister(old(self)@, connection_id@),
            !has_connection(old(self)@.connections, connection_id@) ==> !r,
            connection_id@.len() > 0 && message@.len() > 0 && has_connection(old(self)@.connections, connection_id@)
                ==> final(self).handoffs() == old(self).handoffs().push(
                    Handoff { connection_id: connection_id@, message: HandedMessage::Text(message@) }),
            !(connection_id@.len() > 0 && message@.len() > 0 && has_connection(old(self)@.connections, connection_id@))
                ==> final(self).handoffs() == old(self).handoffs(),
    {
        if connection_id.is_empty() || message.as_str().is_empty() {
            return false;
        }
        if self.hand_to(connection_id, OutboundMessage::Text(message)) {
            return true;
        }
        let _ = self.unregister_connection(connection_id);
        false
    }

    /// Unregisters the connections not seen for more than
    /// `stale_after_seconds` at `now_ts` and returns their descriptions.
    pub fn prune_stale_connections(&mut self, now_ts: i64, stale_after_seconds: i64) -> (r: Vec<ConnectionInfo>)
        requires
            old(self).wf(),
        ensures
            final(self).wf(),
            stale_after_seconds <= 0 ==> final(self)@ == old(self)@ && r@.len() == 0,
            stale_after_seconds > 0 ==> info_views(r@) == stale_connections(old(self)@.connections, now_ts, stale_after_seconds),
            stale_after_seconds > 0 ==> final(self)@ == spec_unregister_all(old(self)@,
                ids_of(stale_connections(old(self)@.connections, now_ts, stale_after_seconds))),
    {
        if stale_after_seconds <= 0 {
            return Vec::new();
        }
        let ghost cs = self@.connections;
        let ghost stale_spec = stale_connections(cs, now_ts, stale_after_seconds);
        let mut stale_ids: Vec<String> = Vec::new();
        let mut i: usize = 0;
        proof { assert(cs.take(0) =~= Seq::<ConnectionInfoView>::empty()); }
        while i < self.connections.len()
            invariant
                i <= cs.len(),
                cs == self@.connections,
                cs.len() == self.connections.seq().len(),
                strs(stale_ids@) == ids_of(stale_connections(cs.take(i as int), now_ts, stale_after_seconds)),
            decreases cs.len() - i,
        {
            let info = self.connections.value_at(i);
            proof {
                assert(cs[i as int] == info@);
                assert(cs.take(i + 1).drop_last() =~= cs.take(i as int));
                assert(cs.take(i + 1).last() == cs[i as int]);
            }
            if saturating_sub_i64(now_ts, info.last_seen_at) > stale_after_seconds {
                let ghost before = strs(stale_ids@);
                stale_ids.push(info.connection_id.clone());
                proof {
                    let prev = stale_connections(cs.take(i as int), now_ts, stale_after_seconds);
                    assert(strs(stale_ids@) =~= before.push(info.connection_id@));
                    assert(ids_of(prev.push(cs[i as int])) =~= ids_of(prev).push(cs[i as int].connection_id));
                }
            } else {
            }
            i = i + 1;
        }
        proof { assert(cs.take(cs.len() as int) =~= cs); }
        proof {
            self.lemma_connection_ids_unique();
            lemma_stale_subset(cs, now_ts, stale_after_seconds);
        }
        self.evict_all(&stale_ids, Ghost(stale_spec), None)
    }

    /// Evicts the listed connections in order and returns their descriptions.
    fn evict_all(
        &mut self,
        ids: &Vec<String>,
        Ghost(expected): Ghost<Seq<ConnectionInfoView>>,
        close: Option<(u16, &str)>,
    ) -> (r: Vec<ConnectionInfo>)
        requires
            old(self).wf(),
            strs(ids@) == ids_of(expected),
            subset_distinct(expected, old(self)@.connections),
        ensures
            final(self).wf(),
            final(self)@ == spec_unregister_all(old(self)@, ids_of(expected)),
            info_views(r@) == expected,
            final(self).handoffs() == old(self).handoffs() + closes_for(ids_of(expected), close_view(close)),
    {
        proof {
            self.lemma_connection_ids_unique();
            lemma_subset_find(expected, self@.connections);
        }
        let ghost m0 = self@;
        let mut evicted: Vec<ConnectionInfo> = Vec::new();
        let mut j: usize = 0;
        proof {
            assert(ids_of(expected).take(0) =~= Seq::<Seq<char>>::empty());
            assert(expected.take(0) =~= Seq::<ConnectionInfoView>::empty());
            assert(closes_for(ids_of(expected).take(0), close_view(close)) =~= Seq::<Handoff>::empty());
            assert(self.handoffs() =~= old(self).handoffs() + Seq::<Handoff>::empty());
        }
        while j < ids.len()
            invariant
                j <= ids@.len(),
                self.wf(),
                strs(ids@) == ids_of(expected),
                expected.len() == ids@.len(),
                self@ == spec_unregister_all(m0, ids_of(expected).take(j as int)),
                info_views(evicted@) == expected.take(j as int),
                self.handoffs() == old(self).handoffs() + closes_for(ids_of(expected).take(j as int), close_view(close)),
                forall|k: int| j <= k < expected.len() ==>
                    #[trigger] find_connection(self@.connections, expected[k].connection_id) == Some(expected[k]),
                connection_ids_unique(expected),
                connection_ids_unique(self@.connections),
            decreases ids@.len() - j,
        {
            let ghost id = expected[j as int].connection_id;
            assert(strs(ids@)[j as int] == ids@[j as int]@);
            assert(ids_of(expected)[j as int] == id);
            let ghost before = self@;
            let ghost hb = self.handoffs();
            let r = self.evict_connection(ids[j].as_str(), close);
            proof {
                assert(has_connection(before.connections, id));
                assert(ids_of(expected).take(j + 1) =~= ids_of(expected).take(j as int).push(id));
                match close_view(close) {
                    Some((code, reason)) => {
                        assert(closes_to(ids_of(expected).take(j + 1), code, reason)
                            =~= closes_to(ids_of(expected).take(j as int), code, reason) + closes_to(seq![id], code, reason));
                    },
                    None => {},
                }
                assert(self.handoffs() =~= old(self).handoffs() + closes_for(ids_of(expected).take(j + 1), close_view(close)));
            }
            proof {
                assert forall|k: int| j + 1 <= k < expected.len() implies
                    #[trigger] find_connection(self@.connections, expected[k].connection_id) == Some(expected[k]) by {
                    lemma_unregister_keeps(before, id, expected[k].connection_id);
                }
                lemma_unregister_keeps(before, id, id);
                assert(ids_of(expected).take(j + 1).drop_last() =~= ids_of(expected).take(j as int));
                assert(ids_of(expected).take(j + 1).last() == id);
            }
            match r {
                Some(info) => {
                    let ghost eb = evicted@;
                    evicted.push(info);
                    proof {
                        assert(info_views(evicted@) =~= info_views(eb).push(expected[j as int]));
                        assert(expected.take(j + 1) =~= expected.take(j as int).push(expected[j as int]));
                    }
                }
                None => {
                    assert(false);
                }
            }
            j = j + 1;
        }
        proof {
            assert(ids_of(expected).take(expected.len() as int) =~= ids_of(expected));
            assert(expected.take(expected.len() as int) =~= expected);
        }
        evicted
    }


    fn enqueue_pending(&mut self, subject: &String, item: PendingMessage, sticky: Option<&str>, now_ts: i64)
        requires
            old(self).wf(),
        ensures
            final(self).wf(),
            final(self)@ == (GatewayModel {
                pending: enqueue_one(old(self)@.pending, subject@, item@, opt_str(sticky), now_ts),
                ..old(self)@
            }),
            final(self).connections == old(self).connections,
            final(self).senders == old(self).senders,
            final(self).subjects == old(self).subjects,
            final(self).handoffs() == old(self).handoffs(),
    {
        let mut queue = match self.pending_by_subject.remove(subject.as_str()) {
            Some(q) => q,
            None => VecDeque::new(),
        };
        let ghost p0 = old(self)@.pending;
        assert(pending_views(queue@) == queue_of(p0, subject@));
        if let Some(key) = sticky {
            remove_sticky(&mut queue, key);
        }
        let ghost before = queue@;
        queue.push_back(item);
        proof {
            let q = match sticky {
                Some(k) => drop_sticky(queue_of(p0, subject@), k@),
                None => queue_of(p0, subject@),
            };
            assert(pending_views(queue@) =~= q.push(item@));
        }
        prune_pending_queue(&mut queue, now_ts);
        self.pending_by_subject.insert(subject.clone(), queue);
        proof {
            assert(self@.pending =~= enqueue_one(p0, subject@, item@, opt_str(sticky), now_ts));
        }
    }

    fn enqueue_for_subjects(&mut self, subjects: &Vec<String>, message: &String, sticky: Option<&str>, now_ts: i64)
        requires
            old(self).wf(),
        ensures
            final(self).wf(),
            final(self)@ == (GatewayModel {
                pending: enqueue_all(
                    old(self)@.pending,
                    strs(subjects@),
                    PendingView { text: message@, enqueued_at: now_ts, sticky_key: opt_str(sticky) },
                    opt_str(sticky),
                    now_ts,
                ),
                ..old(self)@
            }),
            final(self).handoffs() == old(self).handoffs(),
    {
        let ghost item = PendingView { text: message@, enqueued_at: now_ts, sticky_key: opt_str(sticky) };
        let ghost l = strs(subjects@);
        let mut i: usize = 0;
        proof { assert(l.take(0) =~= Seq::<Seq<char>>::empty()); }
        while i < subjects.len()
            invariant
                i <= subjects@.len(),
                l == strs(subjects@),
                item == (PendingView { text: message@, enqueued_at: now_ts, sticky_key: opt_str(sticky) }),
                self.wf(),
                self@ == (GatewayModel {
                    pending: enqueue_all(old(self)@.pending, l.take(i as int), item, opt_str(sticky), now_ts),
                    ..old(self)@
                }),
                self.handed == old(self).handed,
            decreases subjects@.len() - i,
        {
            let sticky_key = match sticky {
                Some(k) => Some(String::from_str(k)),
                None => None,
            };
            let pm = PendingMessage { text: message.clone(), enqueued_at: now_ts, sticky_key };
            assert(pm@ == item);
            self.enqueue_pending(&subjects[i], pm, sticky, now_ts);
            proof {
                assert(l.take(i + 1).drop_last() =~= l.take(i as int));
                assert(l.take(i + 1).last() == subjects@[i as int]@);
            }
            i = i + 1;
        }
        proof { assert(l.take(subjects@.len() as int) =~= l); }
    }

    /// Queues `message` at `now_ts` for each subject, for replay on the
    /// subjects' next connections (see `spec_requeue`).
    pub fn requeue_for_subjects_at(&mut self, subjects: &Vec<String>, message: String, now_ts: i64)
        requires
            old(self).wf(),
        ensures
            final(self).wf(),
            final(self)@ == spec_requeue(old(self)@, strs(subjects@), message@, now_ts),
            final(self).handoffs() == old(self).handoffs(),
    {
        if subjects.len() == 0 || message.as_str().is_empty() {
            return;
        }
        self.enqueue_for_subjects(subjects, &message, None, now_ts);
    }

    /// Queues `message` for each subject, stamped with the current time.
    pub fn requeue_for_subjects(&mut self, subjects: &Vec<String>, message: String)
        requires
            old(self).wf(),
        ensures
            final(self).wf(),
            exists|now: i64| final(self)@ == spec_requeue(old(self)@, strs(subjects@), message@, now),
            final(self).handoffs() == old(self).handoffs(),
    {
        let now_ts = now_unix_seconds();
        self.requeue_for_subjects_at(subjects, message, now_ts);
    }

    /// Makes `message` the latest message buffered under `sticky_key` for
    /// each subject (see `spec_buffer_latest`).
    pub fn buffer_latest_for_subjects_at(&mut self, subjects: &Vec<String>, message: String, sticky_key: &str, now_ts: i64)
        requires
            old(self).wf(),
        ensures
            final(self).wf(),
            final(self)@ == spec_buffer_latest(old(self)@, strs(subjects@), message@, sticky_key@, now_ts),
            final(self).handoffs() == old(self).handoffs(),
    {
        if subjects.len() == 0 || message.as_str().is_empty() || sticky_key.is_empty() {
            return;
        }
        self.enqueue_for_subjects(subjects, &message, Some(sticky_key), now_ts);
    }

    /// Makes `message` the latest message under `sticky_key` for each
    /// subject, stamped with the current time.
    pub fn buffer_latest_for_subjects(&mut self, subjects: &Vec<String>, message: String, sticky_key: &str)
        requires
            old(self).wf(),
        ensures
            final(self).wf(),
            exists|now: i64| final(self)@ == spec_buffer_latest(old(self)@, strs(subjects@), message@, sticky_key@, now),
            final(self).handoffs() == old(self).handoffs(),
    {
        let now_ts = now_unix_seconds();
        self.buffer_latest_for_subjects_at(subjects, message, sticky_key, now_ts);
    }


    fn take_pending_for_subjects_at(&mut self, subjects: &Vec<String>, now_ts: i64) -> (r: Vec<String>)
        requires
            old(self).wf(),
        ensures
            final(self).wf(),
            final(self)@ == (GatewayModel { pending: take_all(old(self)@.pending, strs(subjects@), now_ts).0, ..old(self)@ }),
            strs(r@) == take_all(old(self)@.pending, strs(subjects@), now_ts).1,
            final(self).handoffs() == old(self).handoffs(),
            final(self).senders == old(self).senders,
    {
        let ghost l = strs(subjects@);
        let mut snapshot: Vec<String> = Vec::new();
        let mut i: usize = 0;
        proof { assert(l.take(0) =~= Seq::<Seq<char>>::empty()); }
        while i < subjects.len()
            invariant
                i <= subjects@.len(),
                l == strs(subjects@),
                self.wf(),
                self@ == (GatewayModel { pending: take_all(old(self)@.pending, l.take(i as int), now_ts).0, ..old(self)@ }),
                strs(snapshot@) == take_all(old(self)@.pending, l.take(i as int), now_ts).1,
                self.handed == old(self).handed,
                self.senders == old(self).senders,
            decreases subjects@.len() - i,
        {
            proof {
                assert(l.take(i + 1).drop_last() =~= l.take(i as int));
                assert(l.take(i + 1).last() == subjects@[i as int]@);
            }
            let ghost p1 = self@.pending;
            match self.pending_by_subject.remove(subjects[i].as_str()) {
                Some(mut queue) => {
                    prune_pending_queue(&mut queue, now_ts);
                    let ghost pq = pending_views(queue@);
                    let ghost out0 = strs(snapshot@);
                    proof { assert(texts_of(pq).take(0) =~= Seq::<Seq<char>>::empty()); }
                    let n = queue.len();
                    let mut k: usize = 0;
                    proof { assert(pq.skip(0) =~= pq); }
                    while k < n
                        invariant
                            k <= n,
                            n == pq.len(),
                            pending_views(queue@) == pq.skip(k as int),
                            queue@.len() == n - k,
                            strs(snapshot@) == append_new(out0, texts_of(pq).take(k as int)),
                        decreases n - k,
                    {
                        let ghost qb = queue@;
                        assert(pending_views(qb)[0] == qb[0]@);
                        assert(pq.skip(k as int)[0] == pq[k as int]);
                        let item = match queue.pop_front() {
                            Some(item) => item,
                            None => { return snapshot; }
                        };
                        proof {
                            assert(item@ == pq[k as int]);
                            assert(pending_views(queue@) =~= pending_views(qb).drop_first());
                            assert(pending_views(queue@) =~= pq.skip(k + 1));
                            assert(texts_of(pq).take(k + 1).drop_last() =~= texts_of(pq).take(k as int));
                            assert(texts_of(pq).take(k + 1).last() == item.text@);
                        }
                        if !contains_text(&snapshot, item.text.as_str()) {
                            let ghost sb = strs(snapshot@);
                            snapshot.push(item.text);
                            proof { assert(strs(snapshot@) =~= sb.push(pq[k as int].text)); }
                        }
                        k = k + 1;
                    }
                    proof {
                        assert(texts_of(pq).take(n as int) =~= texts_of(pq));
                        assert(self@.pending =~= p1.remove(subjects@[i as int]@));
                    }
                }
                None => {
                    assert(self@.pending =~= p1);
                }
            }
            i = i + 1;
        }
        proof { assert(l.take(subjects@.len() as int) =~= l); }
        snapshot
    }


    fn same_instance_ids(&self, user: &str, instance: &str, id: &str) -> (r: Vec<String>)
        requires
            self.wf(),
        ensures
            strs(r@) == ids_of(same_instance(self@.connections, user@, instance@, id@)),
    {
        let ghost cs = self@.connections;
        let mut out: Vec<String> = Vec::new();
        let mut i: usize = 0;
        proof { assert(cs.take(0) =~= Seq::<ConnectionInfoView>::empty()); }
        while i < self.connections.len()
            invariant
                i <= cs.len(),
                cs == self@.connections,
                cs.len() == self.connections.seq().len(),
                strs(out@) == ids_of(same_instance(cs.take(i as int), user@, instance@, id@)),
            decreases cs.len() - i,
        {
            let info = self.connections.value_at(i);
            proof {
                assert(cs[i as int] == info@);
                assert(cs.take(i + 1).drop_last() =~= cs.take(i as int));
                assert(cs.take(i + 1).last() == cs[i as int]);
            }
            if str_eq(info.user_id.as_str(), user) && str_eq(info.client_instance_id.as_str(), instance)
                && !str_eq(info.connection_id.as_str(), id) {
                let ghost before = strs(out@);
                out.push(info.connection_id.clone());
                proof {
                    let prev = same_instance(cs.take(i as int), user@, instance@, id@);
                    assert(strs(out@) =~= before.push(info.connection_id@));
                    assert(ids_of(prev.push(cs[i as int])) =~= ids_of(prev).push(cs[i as int].connection_id));
                }
            }
            i = i + 1;
        }
        proof { assert(cs.take(cs.len() as int) =~= cs); }
        out
    }

    fn user_connections_sorted(&self, user: &str) -> (r: Vec<ConnectionInfo>)
        requires
            self.wf(),
        ensures
            info_views(r@) == sort_by_connected(user_connections(self@.connections, user@)),
    {
        let ghost cs = self@.connections;
        let mut sorted: Vec<ConnectionInfo> = Vec::new();
        let mut i: usize = 0;
        proof { assert(cs.take(0) =~= Seq::<ConnectionInfoView>::empty()); }
        while i < self.connections.len()
            invariant
                i <= cs.len(),
                cs == self@.connections,
                cs.len() == self.connections.seq().len(),
                info_views(sorted@) == sort_by_connected(user_connections(cs.take(i as int), user@)),
            decreases cs.len() - i,
        {
            let info = self.connections.value_at(i);
            proof {
                assert(cs[i as int] == info@);
                assert(cs.take(i + 1).drop_last() =~= cs.take(i as int));
                assert(cs.take(i + 1).last() == cs[i as int]);
            }
            if str_eq(info.user_id.as_str(), user) {
                let ghost prev = user_connections(cs.take(i as int), user@);
                insert_by_connected_exec(&mut sorted, info.duplicate());
                proof {
                    assert(prev.push(cs[i as int]).drop_last() =~= prev);
                    assert(sort_by_connected(prev.push(cs[i as int])) == insert_by_connected(sort_by_connected(prev), cs[i as int]));
                }
            }
            i = i + 1;
        }
        proof { assert(cs.take(cs.len() as int) =~= cs); }
        sorted
    }

    fn add_subject_member(&mut self, subject: &String, id: &String)
        requires
            old(self).wf(),
        ensures
            final(self).wf(),
            final(self)@ == (GatewayModel {
                subjects: old(self)@.subjects.insert(
                    subject@,
                    (if old(self)@.subjects.contains_key(subject@) { old(self)@.subjects[subject@] } else { Set::empty() }).insert(id@),
                ),
                ..old(self)@
            }),
            final(self).connections == old(self).connections,
            final(self).senders == old(self).senders,
            final(self).handoffs() == old(self).handoffs(),
    {
        let mut members = match self.subjects.remove(subject.as_str()) {
            Some(m) => m,
            None => Vec::new(),
        };
        let ghost ms = strs(members@);
        let ghost old_set = if old(self)@.subjects.contains_key(subject@) { old(self)@.subjects[subject@] } else { Set::empty() };
        proof {
            if !old(self)@.subjects.contains_key(subject@) {
                assert(ms.to_set() =~= Set::<Seq<char>>::empty());
            }
            assert(ms.to_set() == old_set);
            assert(ms.no_duplicates());
        }
        if !contains_text(&members, id.as_str()) {
            members.push(id.clone());
            proof {
                assert(strs(members@) =~= ms.push(id@));
                lemma_push_to_set(ms, id@);
                assert forall|a: int, b: int| 0 <= a < strs(members@).len() && 0 <= b < strs(members@).len() && a != b
                    implies strs(members@)[a] != strs(members@)[b] by {
                    if a == ms.len() {
                        assert(ms[b] == strs(members@)[b]);
                    } else if b == ms.len() {
                        assert(ms[a] == strs(members@)[a]);
                    }
                }
            }
        } else {
            proof {
                assert(old_set.contains(id@));
                assert(old_set.insert(id@) =~= old_set);
            }
        }
        self.subjects.insert(subject.clone(), members);
        proof {
            assert(self@.subjects =~= old(self)@.subjects.insert(subject@, old_set.insert(id@)));
        }
    }


    /// Registers connection `connection_id` for `user_id` (see `spec_register`):
    /// evicts other connections of the same client instance (asking them to
    /// close with code 1000, "reconnect") and the user's oldest connections
    /// beyond the per-user cap (code 4409, "session_replaced"), stores the
    /// connection, subscribes it to `subjects`, and replays the messages
    /// pending for those subjects into its channel. Returns the connection's
    /// description, the receiving half of its channel and the evicted
    /// connections.
    pub fn register_connection_at(
        &mut self,
        connection_id: String,
        user_id: String,
        client_instance_id: String,
        subjects: Vec<String>,
        connected_at: i64,
        now_ts: i64,
    ) -> (r: (ConnectionInfo, UnboundedReceiver<OutboundMessage>, Vec<ConnectionInfo>))
        requires
            old(self).wf(),
        ensures
            final(self).wf(),
            final(self)@ == spec_register(old(self)@, connection_id@, user_id@, client_instance_id@,
                strs(subjects@), connected_at, now_ts),
            r.0@ == new_connection_info(connection_id@, user_id@, client_instance_id@, strs(subjects@), connected_at),
            info_views(r.2@) == register_evictions(old(self)@, connection_id@, user_id@, client_instance_id@).0
                + register_evictions(old(self)@, connection_id@, user_id@, client_instance_id@).1,
            final(self).handoffs() == old(self).handoffs()
                + closes_to(ids_of(register_evictions(old(self)@, connection_id@, user_id@, client_instance_id@).0),
                    1000, "reconnect"@)
                + closes_to(ids_of(register_evictions(old(self)@, connection_id@, user_id@, client_instance_id@).1),
                    4409, "session_replaced"@)
                + texts_for(connection_id@, register_replay(old(self)@, connection_id@, user_id@,
                    client_instance_id@, strs(subjects@), now_ts)),
    {
        let ghost m0 = self@;
        let ghost h0 = self.handoffs();
        let ghost ev = register_evictions(m0, connection_id@, user_id@, client_instance_id@);
        proof { self.lemma_connection_ids_unique(); }
        let mut evicted: Vec<ConnectionInfo> = Vec::new();
        if !client_instance_id.as_str().is_empty() {
            let ids = self.same_instance_ids(user_id.as_str(), client_instance_id.as_str(), connection_id.as_str());
            proof {
                lemma_same_instance_subset(m0.connections, user_id@, client_instance_id@, connection_id@);
            }
            evicted = self.evict_all(&ids, Ghost(ev.0), Some((1000u16, "reconnect")));
        } else {
            proof {
                assert(ids_of(ev.0) =~= Seq::<Seq<char>>::empty());
                assert(info_views(evicted@) =~= ev.0);
                assert(self.handoffs() =~= h0 + closes_to(ids_of(ev.0), 1000, "reconnect"@));
            }
        }
        let ghost h1 = self.handoffs();
        assert(h1 == h0 + closes_to(ids_of(ev.0), 1000, "reconnect"@));
        let ghost m1 = self@;
        assert(m1 == spec_unregister_all(m0, ids_of(ev.0)));
        assert(info_views(evicted@) == ev.0);
        let sorted = self.user_connections_sorted(user_id.as_str());
        let n = sorted.len();
        let overflow: usize = match self.max_connections_per_user {
            Some(mx) => {
                if n >= mx {
                    if mx == 0 { n } else { n - mx + 1 }
                } else {
                    0
                }
            }
            None => 0,
        };
        let ghost srt = info_views(sorted@);
        let ghost taken = if overflow_count(srt.len(), m0.max_connections_per_user) <= srt.len() {
            srt.take(overflow_count(srt.len(), m0.max_connections_per_user) as int)
        } else {
            srt
        };
        proof {
            assert(m1.max_connections_per_user == m0.max_connections_per_user) by {
                lemma_unregister_all_keeps_cap(m0, ids_of(ev.0));
            }
            assert(taken =~= srt.take(overflow as int));
            assert(srt.take(0) =~= Seq::<ConnectionInfoView>::empty());
        }
        let mut victims: Vec<String> = Vec::new();
        let mut k: usize = 0;
        while k < overflow
            invariant
                k <= overflow <= n,
                n == sorted@.len(),
                srt == info_views(sorted@),
                strs(victims@) == ids_of(without_id(srt.take(k as int), connection_id@)),
            decreases overflow - k,
        {
            let c = &sorted[k];
            proof {
                assert(srt[k as int] == c@);
                assert(srt.take(k + 1).drop_last() =~= srt.take(k as int));
                assert(srt.take(k + 1).last() == srt[k as int]);
            }
            if !str_eq(c.connection_id.as_str(), connection_id.as_str()) {
                let ghost before = strs(victims@);
                victims.push(c.connection_id.clone());
                proof {
                    let prev = without_id(srt.take(k as int), connection_id@);
                    assert(strs(victims@) =~= before.push(c.connection_id@));
                    assert(ids_of(prev.push(c@)) =~= ids_of(prev).push(c.connection_id@));
                }
            }
            k = k + 1;
        }
        proof {
            assert(without_id(taken, connection_id@) == ev.1);
            self.lemma_connection_ids_unique();
            lemma_user_subset(m1.connections, user_id@);
            lemma_sort_subset(user_connections(m1.connections, user_id@), m1.connections);
            lemma_take_subset(srt, m1.connections, overflow as int);
            lemma_without_id_subset(taken, m1.connections, connection_id@);
        }
        let mut second = self.evict_all(&victims, Ghost(ev.1), Some((4409u16, "session_replaced")));
        let ghost h2 = self.handoffs();
        assert(h2 == h1 + closes_to(ids_of(ev.1), 4409, "session_replaced"@));
        let ghost e1 = evicted@;
        let ghost e2 = second@;
        evicted.append(&mut second);
        proof { assert(info_views(evicted@) =~= info_views(e1) + info_views(e2)); }
        let ghost m2 = self@;
        let (tx, rx) = outbound_channel();
        let info = ConnectionInfo {
            connection_id: connection_id.clone(),
            user_id,
            client_instance_id,
            subjects: clone_strings(&subjects),
            connected_at,
            last_seen_at: connected_at,
        };
        let ghost had = has_key(self.connections.seq(), connection_id@);
        proof {
            if had {
                let i = choose|i: int| 0 <= i < self.connections.seq().len() && #[trigger] self.connections.seq()[i].0@ == connection_id@;
                self.lemma_connection_index(i);
            } else {
                self.lemma_no_connection(connection_id@);
            }
        }
        let ghost c0 = self.connections.seq();
        proof {
            assert(forall|k: int| 0 <= k < c0.len() ==> #[trigger] c0[k].0@ == c0[k].1.connection_id@);
            assert(m2.connections == c0.map_values(|e: (String, ConnectionInfo)| e.1@));
        }
        let stored = info.duplicate();
        let ghost sv = stored;
        self.connections.insert(connection_id.clone(), stored);
        self.senders.insert(connection_id.clone(), tx);
        proof {
            assert(self.senders.view().dom() =~= self.connections.view().dom());
            if had {
                let i = choose|i: int| 0 <= i < c0.len() && #[trigger] c0[i].0@ == connection_id@
                    && self.connections.seq() == c0.update(i, (c0[i].0, sv));
                assert(connection_index(m2.connections, connection_id@) == i) by {
                    assert(m2.connections[i].connection_id == connection_id@) by {
                        assert(c0[i].0@ == c0[i].1.connection_id@);
                    }
                    assert(has_connection(m2.connections, connection_id@));
                    let j = connection_index(m2.connections, connection_id@);
                    assert(j == i) by {
                        assert(c0[j].0@ == c0[j].1.connection_id@);
                        assert(keys_unique(c0));
                    }
                }
                assert(self@.connections =~= m2.connections.update(i, info@));
                assert forall|k: int| 0 <= k < self.connections.seq().len() implies
                    #[trigger] self.connections.seq()[k].0@ == self.connections.seq()[k].1.connection_id@ by {
                    if k != i {
                        assert(self.connections.seq()[k] == c0[k]);
                    }
                }
            } else {
                assert(self@.connections =~= m2.connections.push(info@));
                assert forall|k: int| 0 <= k < self.connections.seq().len() implies
                    #[trigger] self.connections.seq()[k].0@ == self.connections.seq()[k].1.connection_id@ by {
                    if k < c0.len() {
                        assert(self.connections.seq()[k] == c0[k]);
                    }
                }
            }
        }
        let ghost m3 = self@;
        let ghost l = strs(subjects@);
        let mut j: usize = 0;
        proof { assert(l.take(0) =~= Seq::<Seq<char>>::empty()); }
        while j < subjects.len()
            invariant
                j <= subjects@.len(),
                l == strs(subjects@),
                self.wf(),
                self@ == (GatewayModel { subjects: add_member_all(m3.subjects, l.take(j as int), connection_id@), ..m3 }),
                self.senders.view().contains_key(connection_id@),
                self.handed@ == h2,
            decreases subjects@.len() - j,
        {
            proof {
                assert(l.take(j + 1).drop_last() =~= l.take(j as int));
                assert(l.take(j + 1).last() == subjects@[j as int]@);
            }
            self.add_subject_member(&subjects[j], &connection_id);
            j = j + 1;
        }
        proof { assert(l.take(subjects@.len() as int) =~= l); }
        let texts = self.take_pending_for_subjects_at(&info.subjects, now_ts);
        let ghost m4 = self@;
        let ghost tl = strs(texts@);
        proof { assert(texts_for(connection_id@, tl.take(0)) =~= Seq::<Handoff>::empty()); }
        let mut t: usize = 0;
        while t < texts.len()
            invariant
                t <= texts@.len(),
                tl == strs(texts@),
                self.wf(),
                self@ == m4,
                self.senders.view().contains_key(connection_id@),
                self.handoffs() == h2 + texts_for(connection_id@, tl.take(t as int)),
            decreases texts@.len() - t,
        {
            let _ = self.hand_to(connection_id.as_str(), OutboundMessage::Text(texts[t].clone()));
            proof {
                assert(tl[t as int] == texts@[t as int]@);
                assert(texts_for(connection_id@, tl.take(t + 1))
                    =~= texts_for(connection_id@, tl.take(t as int)).push(
                        Handoff { connection_id: connection_id@, message: HandedMessage::Text(tl[t as int]) }));
            }
            t = t + 1;
        }
        proof {
            assert(tl.take(texts@.len() as int) =~= tl);
            assert(strs(info.subjects@) == strs(subjects@));
            assert(tl == register_replay(m0, connection_id@, user_id@, client_instance_id@, strs(subjects@), now_ts));
        }
        (info, rx, evicted)
    }

    /// Registers a connection (see `register_connection_at`), taking pending
    /// messages at the current time.
    pub fn register_connection(
        &mut self,
        connection_id: String,
        user_id: String,
        client_instance_id: String,
        subjects: Vec<String>,
        connected_at: i64,
    ) -> (r: (ConnectionInfo, UnboundedReceiver<OutboundMessage>, Vec<ConnectionInfo>))
        requires
            old(self).wf(),
        ensures
            final(self).wf(),
            exists|now: i64| {
                &&& #[trigger] spec_register(old(self)@, connection_id@, user_id@, client_instance_id@,
                    strs(subjects@), connected_at, now) == final(self)@
                &&& final(self).handoffs() == old(self).handoffs()
                    + closes_to(ids_of(register_evictions(old(self)@, connection_id@, user_id@, client_instance_id@).0),
                        1000, "reconnect"@)
                    + closes_to(ids_of(register_evictions(old(self)@, connection_id@, user_id@, client_instance_id@).1),
                        4409, "session_replaced"@)
                    + texts_for(connection_id@, register_replay(old(self)@, connection_id@, user_id@,
                        client_instance_id@, strs(subjects@), now))
            },
            r.0@ == new_connection_info(connection_id@, user_id@, client_instance_id@, strs(subjects@), connected_at),
            info_views(r.2@) == register_evictions(old(self)@, connection_id@, user_id@, client_instance_id@).0
                + register_evictions(old(self)@, connection_id@, user_id@, client_instance_id@).1,
    {
        let now_ts = now_unix_seconds();
        self.register_connection_at(connection_id, user_id, client_instance_id, subjects, connected_at, now_ts)
    }


    /// The description of connection `id`, if it is registered.
    fn connection_info(&self, id: &str) -> (r: Option<&ConnectionInfo>)
        requires
            self.wf(),
        ensures
            match r {
                Some(c) => find_connection(self@.connections, id@) == Some(c@),
                None => !has_connection(self@.connections, id@),
            },
    {
        match self.connections.find(id) {
            Some(i) => {
                proof { self.lemma_connection_index(i as int); }
                Some(self.connections.value_at(i))
            }
            None => {
                proof { self.lemma_no_connection(id@); }
                None
            }
        }
    }

    /// Sweeps stale request routes when there are more than `REQUEST_ROUTE_MAX`.
    fn prune_request_routes(&mut self, now_ts: i64)
        requires
            old(self).wf(),
        ensures
            final(self).wf(),
            final(self)@ == (GatewayModel {
                routes: prune_routes(old(self)@.routes, old(self)@.connections, now_ts),
                ..old(self)@
            }),
            final(self).handoffs() == old(self).handoffs(),
    {
        let count = self.request_routes.len();
        proof { assert(self@.routes.dom() =~= self.request_routes.view().dom()); }
        if count <= REQUEST_ROUTE_MAX {
            return;
        }
        let ghost seq = self.request_routes.seq();
        let ghost cs = self@.connections;
        let mut stale: Vec<String> = Vec::new();
        let mut i: usize = 0;
        while i < self.request_routes.len()
            invariant
                i <= seq.len(),
                seq == self.request_routes.seq(),
                cs == self@.connections,
                self.wf(),
                forall|k: Seq<char>| #[trigger] strs(stale@).to_set().contains(k) <==>
                    (exists|j: int| 0 <= j < i && seq[j].0@ == k && #[trigger] route_is_stale(cs, seq[j].1@, now_ts)),
            decreases seq.len() - i,
        {
            let route = self.request_routes.value_at(i);
            let age = saturating_sub_i64(now_ts, route.updated_at);
            let gone = self.connection_info(route.connection_id.as_str()).is_none();
            if age > REQUEST_ROUTE_TTL_SECONDS || gone {
                let ghost before = strs(stale@);
                stale.push(self.request_routes.key_at(i).clone());
                proof {
                    assert(route_is_stale(cs, seq[i as int].1@, now_ts));
                    assert(strs(stale@) =~= before.push(seq[i as int].0@));
                    lemma_push_to_set(before, seq[i as int].0@);
                }
            } else {
                proof { assert(!route_is_stale(cs, seq[i as int].1@, now_ts)); }
            }
            i = i + 1;
        }
        self.request_routes.remove_keys(&stale);
        proof {
            let removed = strs(stale@).to_set();
            let routes = old(self)@.routes;
            assert(routes.dom().len() > REQUEST_ROUTE_MAX);
            assert forall|k: Seq<char>| routes.contains_key(k) implies
                (removed.contains(k) <==> route_is_stale(cs, routes[k], now_ts)) by {
                let j = choose|j: int| 0 <= j < seq.len() && #[trigger] seq[j].0@ == k;
                lemma_map_of_at(seq, j);
                if removed.contains(k) {
                    let j2 = choose|j2: int| 0 <= j2 < seq.len() && seq[j2].0@ == k && #[trigger] route_is_stale(cs, seq[j2].1@, now_ts);
                    assert(j2 == j);
                }
            }
            assert(self@.routes =~= prune_routes(routes, cs, now_ts));
        }
    }

    /// Binds request `request_id` to connection `connection_id` of `user_id`
    /// at `now_ts`, so that the response can be routed back (see `spec_bind_route`).
    pub fn bind_request_route_at(&mut self, request_id: &str, connection_id: &str, user_id: &str, now_ts: i64)
        requires
            old(self).wf(),
        ensures
            final(self).wf(),
            final(self)@ == spec_bind_route(old(self)@, request_id@, connection_id@, user_id@, now_ts),
    {
        let key = trim_text(request_id);
        if key.is_empty() || connection_id.is_empty() || user_id.is_empty() {
            return;
        }
        let route = RequestRoute {
            connection_id: String::from_str(connection_id),
            user_id: String::from_str(user_id),
            updated_at: now_ts,
        };
        self.request_routes.insert(String::from_str(key), route);
        proof {
            assert(self@.routes =~= old(self)@.routes.insert(key@,
                RouteView { connection_id: connection_id@, user_id: user_id@, updated_at: now_ts }));
        }
        self.prune_request_routes(now_ts);
    }

    /// Binds a request route at the current time (see `bind_request_route_at`).
    pub fn bind_request_route(&mut self, request_id: &str, connection_id: &str, user_id: &str)
        requires
            old(self).wf(),
        ensures
            final(self).wf(),
            exists|now: i64| final(self)@ == spec_bind_route(old(self)@, request_id@, connection_id@, user_id@, now),
    {
        let now_ts = now_unix_seconds();
        self.bind_request_route_at(request_id, connection_id, user_id, now_ts);
    }

    /// Forgets the route of request `request_id` (trimmed).
    pub fn clear_request_route(&mut self, request_id: &str)
        requires
            old(self).wf(),
        ensures
            final(self).wf(),
            final(self)@ == spec_clear_route(old(self)@, request_id@),
            final(self).handoffs() == old(self).handoffs(),
    {
        let key = trim_text(request_id);
        if key.is_empty() {
            return;
        }
        let _ = self.request_routes.remove(key);
        proof { assert(self@.routes =~= old(self)@.routes.remove(key@)); }
    }

    /// The connection that request `request_id` should be answered on, at
    /// `now_ts` (see `spec_resolve_route`).
    pub fn resolve_request_route_at(&mut self, request_id: &str, subjects: &[String], now_ts: i64) -> (r: Option<String>)
        requires
            old(self).wf(),
        ensures
            final(self).wf(),
            final(self)@ == spec_resolve_route(old(self)@, request_id@, strs(subjects@), now_ts).0,
            opt_string(r) == spec_resolve_route(old(self)@, request_id@, strs(subjects@), now_ts).1,
            final(self).handoffs() == old(self).handoffs(),
    {
        let key = trim_text(request_id);
        if key.is_empty() {
            return None;
        }
        let (connection_id, user_id, updated_at) = match self.request_routes.get(key) {
            Some(route) => (route.connection_id.clone(), route.user_id.clone(), route.updated_at),
            None => { return None; }
        };
        if saturating_sub_i64(now_ts, updated_at) > REQUEST_ROUTE_TTL_SECONDS {
            let _ = self.request_routes.remove(key);
            proof { assert(self@.routes =~= old(self)@.routes.remove(key@)); }
            return None;
        }
        let matches = match self.connection_info(connection_id.as_str()) {
            None => None,
            Some(info) => {
                if !str_eq(info.user_id.as_str(), user_id.as_str()) {
                    None
                } else {
                    Some(subjects.len() == 0 || any_subject_in(subjects, &info.subjects))
                }
            }
        };
        match matches {
            None => {
                let _ = self.request_routes.remove(key);
                proof { assert(self@.routes =~= old(self)@.routes.remove(key@)); }
                None
            }
            Some(false) => None,
            Some(true) => Some(connection_id),
        }
    }

    /// Resolves a request route at the current time (see `resolve_request_route_at`).
    pub fn resolve_request_route(&mut self, request_id: &str, subjects: &[String]) -> (r: Option<String>)
        requires
            old(self).wf(),
        ensures
            final(self).wf(),
            exists|now: i64| final(self)@ == spec_resolve_route(old(self)@, request_id@, strs(subjects@), now).0
                && opt_string(r) == spec_resolve_route(old(self)@, request_id@, strs(subjects@), now).1,
    {
        let now_ts = now_unix_seconds();
        self.resolve_request_route_at(request_id, subjects, now_ts)
    }


    /// Merges a relay context snapshot into the contexts of its subject, at
    /// `now_ts` (see `spec_apply_snapshot`).
    pub fn apply_relay_context_snapshot_at(&mut self, snapshot: RelayContextSnapshot, now_ts: i64)
        requires
            old(self).wf(),
        ensures
            final(self).wf(),
            final(self)@ == spec_apply_snapshot(old(self)@, snapshot@, now_ts),
            final(self).handoffs() == old(self).handoffs(),
    {
        let subject = match normalize_identity(snapshot.subject_email.as_str()) {
            Some(s) => s,
            None => { return; }
        };
        let existing = self.relay_contexts_by_subject.get(subject.as_str());
        proof {
            let m = old(self)@;
            assert(opt_subject_view(existing) == (if m.relay_contexts.contains_key(subject@) {
                Some(m.relay_contexts[subject@]) } else { None }));
        }
        let merged = merge_snapshot(existing, &snapshot, subject.as_str(), now_ts);
        match merged {
            Some(next) => {
                let ghost nv = next@;
                self.relay_contexts_by_subject.insert(subject, next);
                proof { assert(self@.relay_contexts =~= old(self)@.relay_contexts.insert(subject@, nv)); }
            }
            None => {}
        }
    }

    /// Merges a relay context snapshot at the current time (see
    /// `apply_relay_context_snapshot_at`).
    pub fn apply_relay_context_snapshot(&mut self, snapshot: RelayContextSnapshot)
        requires
            old(self).wf(),
        ensures
            final(self).wf(),
            exists|now: i64| final(self)@ == spec_apply_snapshot(old(self)@, snapshot@, now),
    {
        let now_ts = now_unix_seconds();
        self.apply_relay_context_snapshot_at(snapshot, now_ts);
    }

    /// The relay contexts held for `subject_email` (trimmed and lower-cased).
    pub fn list_relay_contexts_for_subject(&self, subject_email: &str) -> (r: Option<RelaySubjectContexts>)
        requires
            self.wf(),
        ensures
            match r {
                Some(c) => spec_normalize(subject_email@) is Some
                    && self@.relay_contexts.contains_key(spec_normalize(subject_email@).unwrap())
                    && self@.relay_contexts[spec_normalize(subject_email@).unwrap()] == c@,
                None => spec_normalize(subject_email@) is None
                    || !self@.relay_contexts.contains_key(spec_normalize(subject_email@).unwrap()),
            },
    {
        let subject = match normalize_identity(subject_email) {
            Some(s) => s,
            None => { return None; }
        };
        match self.relay_contexts_by_subject.get(subject.as_str()) {
            Some(c) => Some(c.duplicate()),
            None => None,
        }
    }

    /// Sweeps nonces older than the replay window when the cache holds more
    /// than `RELAY_REPLAY_CACHE_MAX` keys.
    fn prune_relay_replay_cache(&mut self, now_ts: i64)
        requires
            old(self).wf(),
        ensures
            final(self).wf(),
            final(self)@ == (GatewayModel { replay_seen: prune_replay(old(self)@.replay_seen, now_ts), ..old(self)@ }),
    {
        let count = self.relay_replay_cache.len();
        if count <= RELAY_REPLAY_CACHE_MAX {
            return;
        }
        let ghost seq = self.relay_replay_cache.seq();
        let mut stale: Vec<String> = Vec::new();
        let mut i: usize = 0;
        while i < self.relay_replay_cache.len()
            invariant
                i <= seq.len(),
                seq == self.relay_replay_cache.seq(),
                self.wf(),
                self@ == old(self)@,
                forall|k: Seq<char>| #[trigger] strs(stale@).to_set().contains(k) <==>
                    (exists|j: int| 0 <= j < i && seq[j].0@ == k && #[trigger] clamp_i64(now_ts - seq[j].1) > RELAY_REPLAY_TTL_SECONDS),
            decreases seq.len() - i,
        {
            let seen_at = *self.relay_replay_cache.value_at(i);
            if saturating_sub_i64(now_ts, seen_at) > RELAY_REPLAY_TTL_SECONDS {
                let ghost before = strs(stale@);
                stale.push(self.relay_replay_cache.key_at(i).clone());
                proof {
                    assert(strs(stale@) =~= before.push(seq[i as int].0@));
                    lemma_push_to_set(before, seq[i as int].0@);
                }
            }
            i = i + 1;
        }
        self.relay_replay_cache.remove_keys(&stale);
        proof {
            let removed = strs(stale@).to_set();
            let seen = old(self)@.replay_seen;
            assert forall|k: Seq<char>| seen.contains_key(k) implies
                (removed.contains(k) <==> clamp_i64(now_ts - seen[k]) > RELAY_REPLAY_TTL_SECONDS) by {
                let j = choose|j: int| 0 <= j < seq.len() && #[trigger] seq[j].0@ == k;
                lemma_map_of_at(seq, j);
                if removed.contains(k) {
                    let j2 = choose|j2: int| 0 <= j2 < seq.len() && seq[j2].0@ == k
                        && #[trigger] clamp_i64(now_ts - seq[j2].1) > RELAY_REPLAY_TTL_SECONDS;
                    assert(j2 == j);
                }
            }
            assert(self@.replay_seen =~= prune_replay(seen, now_ts));
        }
    }

    /// Refuses replay key `replay_key` if it was seen within the replay
    /// window; otherwise records it (see `spec_check_replay`).
    fn ensure_relay_replay_fresh(&mut self, replay_key: &str, now_ts: i64) -> (r: Result<(), RelayAuthError>)
        requires
            old(self).wf(),
        ensures
            final(self).wf(),
            final(self)@ == spec_check_replay(old(self)@, replay_key@, now_ts).0,
            r is Ok == spec_check_replay(old(self)@, replay_key@, now_ts).1,
            r matches Err(e) ==> e == RelayAuthError::ReplayDetected,
    {
        if trim_text(replay_key).is_empty() {
            return Ok(());
        }
        match self.relay_replay_cache.get(replay_key) {
            Some(seen_at) => {
                if saturating_sub_i64(now_ts, *seen_at) <= RELAY_REPLAY_TTL_SECONDS {
                    return Err(RelayAuthError::ReplayDetected);
                }
            }
            None => {}
        }
        self.relay_replay_cache.insert(String::from_str(replay_key), now_ts);
        proof { assert(self@.replay_seen =~= old(self)@.replay_seen.insert(replay_key@, now_ts)); }
        self.prune_relay_replay_cache(now_ts);
        Ok(())
    }

    /// Counts a relay command against the limit of its sender, command,
    /// context and window; refuses it past the limit (see `spec_check_rate`).
    fn ensure_relay_rate_limit(&mut self, sender_email: &str, command_name: &str, context_id: &str, now_ts: i64)
        -> (r: Result<(), RelayAuthError>)
        requires
            old(self).wf(),
        ensures
            final(self).wf(),
            final(self)@ == spec_check_rate(old(self)@, sender_email@, command_name@, context_id@, now_ts).0,
            r is Ok == spec_check_rate(old(self)@, sender_email@, command_name@, context_id@, now_ts).1,
            r matches Err(e) ==> e == RelayAuthError::RateLimited,
    {
        let window = now_ts / RELAY_RATE_WINDOW_SECONDS;
        let mut key = lowercase_text(trim_text(sender_email));
        proof { reveal_strlit("|"); }
        key.append("|");
        key.append(lowercase_text(trim_text(command_name)).as_str());
        key.append("|");
        key.append(lowercase_text(trim_text(context_id)).as_str());
        key.append("|");
        append_decimal(&mut key, window);
        proof {
            assert(window == rate_window(now_ts));
            assert(key@ =~= rate_key(sender_email@, command_name@, context_id@, window));
        }
        let count: u32 = match self.relay_rate_counters.get(key.as_str()) {
            Some(c) => if c.window_start == window { c.count } else { 0 },
            None => 0,
        };
        if count >= RELAY_RATE_LIMIT_DEFAULT {
            self.relay_rate_counters.insert(key, RelayRateCounter { window_start: window, count });
            proof { assert(self@.rate_counters =~= old(self)@.rate_counters.insert(key@, (window, count))); }
            return Err(RelayAuthError::RateLimited);
        }
        self.relay_rate_counters.insert(key, RelayRateCounter { window_start: window, count: count + 1 });
        proof { assert(self@.rate_counters =~= old(self)@.rate_counters.insert(key@, (window, (count + 1) as u32))); }
        Ok(())
    }

    /// Authorizes a relay command from `sender_email` at `now_ts` (see
    /// `spec_authorize`): on success, returns the context that authorizes it.
    pub fn authorize_relay_hotpath(
        &mut self,
        sender_email: &str,
        command_name: &str,
        auth_spec: RelayAuthorizationSpec,
        operation_key: &str,
        target_emails: &[String],
        replay_nonce: Option<&str>,
        payload_size_hint: Option<usize>,
        now_ts: i64,
    ) -> (r: Result<RelayAuthDecision, RelayAuthError>)
        requires
            old(self).wf(),
        ensures
            final(self).wf(),
            final(self)@ == spec_authorize(old(self)@, sender_email@, command_name@, auth_spec, operation_key@,
                strs(target_emails@), opt_str(replay_nonce), payload_size_hint, now_ts).0,
            match r {
                Ok(d) => spec_authorize(old(self)@, sender_email@, command_name@, auth_spec, operation_key@,
                    strs(target_emails@), opt_str(replay_nonce), payload_size_hint, now_ts).1
                    == Ok::<(Seq<char>, u64), RelayAuthError>((d.context_id@, d.policy_version)),
                Err(e) => spec_authorize(old(self)@, sender_email@, command_name@, auth_spec, operation_key@,
                    strs(target_emails@), opt_str(replay_nonce), payload_size_hint, now_ts).1
                    == Err::<(Seq<char>, u64), RelayAuthError>(e),
            },
    {
        let sender = match normalize_identity(sender_email) {
            Some(s) => s,
            None => { return Err(RelayAuthError::SenderBindingInvalid); }
        };
        let op = trim_text(operation_key);
        if op.is_empty() {
            return Err(RelayAuthError::MissingContext);
        }
        if target_emails.len() == 0 {
            return Err(RelayAuthError::ScopeViolation);
        }
        if let Some(size) = payload_size_hint {
            if size > RELAY_CHUNK_CIPHERTEXT_MAX_BYTES {
                return Err(RelayAuthError::PayloadTooLarge);
            }
        }
        let ghost m0 = self@;
        let (context_id, policy_version) = match self.relay_contexts_by_subject.get(sender.as_str()) {
            None => { return Err(RelayAuthError::MissingContext); }
            Some(subject_contexts) => {
                if subject_contexts.context_type != auth_spec.relay_context_type {
                    return Err(RelayAuthError::MissingContext);
                }
                let i = match select_relay_context(&subject_contexts.contexts, sender.as_str(), auth_spec, op,
                    target_emails, now_ts) {
                    Ok(i) => i,
                    Err(e) => { return Err(e); }
                };
                let c = &subject_contexts.contexts[i];
                proof { assert(context_views(subject_contexts.contexts@)[i as int] == c@); }
                (c.context_id.clone(), c.policy_version)
            }
        };
        let ghost checked = if opt_str(replay_nonce) is Some && spec_trim(opt_str(replay_nonce).unwrap()).len() > 0 {
            spec_check_replay(m0, replay_key(sender@, command_name@, context_id@, spec_trim(opt_str(replay_nonce).unwrap())), now_ts)
        } else {
            (m0, true)
        };
        if let Some(nonce) = replay_nonce {
            let nonce_trimmed = trim_text(nonce);
            if !nonce_trimmed.is_empty() {
                let mut key = String::from_str(sender.as_str());
                proof { reveal_strlit("|"); }
                key.append("|");
                key.append(command_name);
                key.append("|");
                key.append(context_id.as_str());
                key.append("|");
                key.append(nonce_trimmed);
                proof { assert(key@ =~= replay_key(sender@, command_name@, context_id@, nonce_trimmed@)); }
                if self.ensure_relay_replay_fresh(key.as_str(), now_ts).is_err() {
                    return Err(RelayAuthError::ReplayDetected);
                }
            }
        }
        assert(self@ == checked.0 && checked.1);
        if self.ensure_relay_rate_limit(sender.as_str(), command_name, context_id.as_str(), now_ts).is_err() {
            return Err(RelayAuthError::RateLimited);
        }
        Ok(RelayAuthDecision { context_id, policy_version })
    }


    /// The connection ids subscribed to any of `subjects`, each once.
    fn subject_targets(&self, subjects: &Vec<String>) -> (r: Vec<String>)
        requires
            self.wf(),
        ensures
            strs(r@).no_duplicates(),
            strs(r@).to_set() == target_ids(self@.subjects, strs(subjects@)),
    {
        let ghost l = strs(subjects@);
        let ghost map = self@.subjects;
        let mut ids: Vec<String> = Vec::new();
        let mut i: usize = 0;
        proof { assert(strs(ids@).to_set() =~= Set::<Seq<char>>::empty()); }
        while i < subjects.len()
            invariant
                i <= subjects@.len(),
                l == strs(subjects@),
                map == self@.subjects,
                self.wf(),
                strs(ids@).no_duplicates(),
                strs(ids@).to_set() == target_ids(map, l.take(i as int)),
            decreases subjects@.len() - i,
        {
            proof {
                assert(l.take(i + 1).drop_last() =~= l.take(i as int));
                assert(l.take(i + 1).last() == subjects@[i as int]@);
            }
            let ghost before = strs(ids@).to_set();
            match self.subjects.get(subjects[i].as_str()) {
                Some(members) => {
                    let ghost ms = strs(members@);
                    proof {
                        assert(map.contains_key(subjects@[i as int]@));
                        assert(map[subjects@[i as int]@] == ms.to_set());
                        assert(ms.take(0).to_set() =~= Set::<Seq<char>>::empty());
                        assert(before.union(Set::<Seq<char>>::empty()) =~= before);
                    }
                    let mut j: usize = 0;
                    while j < members.len()
                        invariant
                            j <= members@.len(),
                            ms == strs(members@),
                            strs(ids@).no_duplicates(),
                            strs(ids@).to_set() == before.union(ms.take(j as int).to_set()),
                        decreases members@.len() - j,
                    {
                        proof {
                            assert(ms.take(j + 1) =~= ms.take(j as int).push(ms[j as int]));
                            lemma_push_to_set(ms.take(j as int), ms[j as int]);
                            assert(ms[j as int] == members@[j as int]@);
                        }
                        if !contains_text(&ids, members[j].as_str()) {
                            let ghost prev = strs(ids@);
                            ids.push(members[j].clone());
                            proof {
                                assert(strs(ids@) =~= prev.push(ms[j as int]));
                                lemma_push_to_set(prev, ms[j as int]);
                                assert forall|a: int, b: int| 0 <= a < strs(ids@).len() && 0 <= b < strs(ids@).len() && a != b
                                    implies strs(ids@)[a] != strs(ids@)[b] by {
                                    if a == prev.len() {
                                        assert(prev[b] == strs(ids@)[b]);
                                    } else if b == prev.len() {
                                        assert(prev[a] == strs(ids@)[a]);
                                    }
                                }
                                assert(strs(ids@).to_set() =~= before.union(ms.take(j + 1).to_set()));
                            }
                        } else {
                            proof { assert(strs(ids@).to_set() =~= before.union(ms.take(j + 1).to_set())); }
                        }
                        j = j + 1;
                    }
                    proof {
                        assert(ms.take(members@.len() as int) =~= ms);
                    }
                }
                None => {
                    proof { assert(!map.contains_key(subjects@[i as int]@)); }
                }
            }
            i = i + 1;
        }
        proof { assert(l.take(subjects@.len() as int) =~= l); }
        ids
    }

    /// Unregisters each connection of a list, in order.
    fn unregister_each(&mut self, ids: &Vec<String>)
        requires
            old(self).wf(),
        ensures
            final(self).wf(),
            final(self)@ == spec_unregister_all(old(self)@, strs(ids@)),
            final(self).handoffs() == old(self).handoffs(),
    {
        let ghost l = strs(ids@);
        let mut t: usize = 0;
        proof { assert(l.take(0) =~= Seq::<Seq<char>>::empty()); }
        while t < ids.len()
            invariant
                t <= ids@.len(),
                l == strs(ids@),
                self.wf(),
                self@ == spec_unregister_all(old(self)@, l.take(t as int)),
                self.handed == old(self).handed,
            decreases ids@.len() - t,
        {
            proof {
                assert(l.take(t + 1).drop_last() =~= l.take(t as int));
                assert(l.take(t + 1).last() == ids@[t as int]@);
            }
            let _ = self.unregister_connection(ids[t].as_str());
            t = t + 1;
        }
        proof { assert(l.take(ids@.len() as int) =~= l); }
    }

    /// Sends `message` to every connection subscribed to any of `subjects`,
    /// at `now_ts`. With a sticky key, the message is first buffered as the
    /// latest under that key. Connections whose channel no longer takes
    /// messages are unregistered; when no connection took it and
    /// `buffer_if_undelivered` is set, the message is queued for the
    /// subjects. Returns how many connections were tried and how many took it.
    pub fn send_to_subjects_at(
        &mut self,
        subjects: &Vec<String>,
        message: String,
        buffer_if_undelivered: bool,
        sticky_key: Option<&str>,
        now_ts: i64,
    ) -> (r: DispatchResult)
        requires
            old(self).wf(),
        ensures
            final(self).wf(),
            subjects@.len() == 0 || message@.len() == 0 ==> final(self)@ == old(self)@
                && r.attempted_count == 0 && r.enqueued_count == 0 && final(self).handoffs() == old(self).handoffs(),
            subjects@.len() > 0 && message@.len() > 0 ==> dispatch_allows(old(self)@, strs(subjects@), message@,
                buffer_if_undelivered, opt_str(sticky_key), now_ts, final(self)@, r.attempted_count as nat,
                r.enqueued_count as nat),
            subjects@.len() > 0 && message@.len() > 0 ==> dispatch_handed(old(self)@, strs(subjects@), message@,
                old(self).handoffs(), final(self).handoffs()),
    {
        if subjects.len() == 0 || message.as_str().is_empty() {
            return DispatchResult { attempted_count: 0, enqueued_count: 0 };
        }
        if let Some(key) = sticky_key {
            self.buffer_latest_for_subjects_at(subjects, message.clone(), key, now_ts);
        }
        let ghost m1 = self@;
        let ghost h1 = self.handoffs();
        let ids = self.subject_targets(subjects);
        let ghost l = strs(ids@);
        proof { assert(dispatch_handoffs(m1.connections, l.take(0), message@) =~= Seq::<Handoff>::empty()); }
        let attempted = ids.len();
        let mut enqueued: usize = 0;
        let mut stale: Vec<String> = Vec::new();
        let mut k: usize = 0;
        while k < ids.len()
            invariant
                k <= ids@.len(),
                l == strs(ids@),
                l.no_duplicates(),
                self.wf(),
                self@ == m1,
                enqueued + stale@.len() == k,
                strs(stale@).no_duplicates(),
                forall|x: Seq<char>| #[trigger] strs(stale@).contains(x) ==> l.take(k as int).contains(x),
                forall|j: int| 0 <= j < k && !has_connection(m1.connections, #[trigger] l[j]) ==> strs(stale@).contains(l[j]),
                self.handoffs() == h1 + dispatch_handoffs(m1.connections, l.take(k as int), message@),
            decreases ids@.len() - k,
        {
            let ghost hb = self.handoffs();
            let delivered = self.hand_to(ids[k].as_str(), OutboundMessage::Text(message.clone()));
            proof {
                assert(l[k as int] == ids@[k as int]@);
                assert(l.take(k + 1).drop_last() =~= l.take(k as int));
                assert(l.take(k + 1).last() == l[k as int]);
                if has_connection(m1.connections, l[k as int]) {
                    assert(self.handoffs() =~= hb + texts_to(seq![l[k as int]], message@));
                } else {
                    assert(self.handoffs() =~= hb + Seq::<Handoff>::empty());
                }
                assert(self.handoffs() =~= h1 + dispatch_handoffs(m1.connections, l.take(k + 1), message@));
            }
            proof {
                assert forall|x: Seq<char>| l.take(k as int).contains(x) implies l.take(k + 1).contains(x) by {
                    let j = choose|j: int| 0 <= j < k && l.take(k as int)[j] == x;
                    assert(l.take(k + 1)[j] == x);
                }
            }
            if delivered {
                enqueued = enqueued + 1;
            } else {
                let ghost prev = strs(stale@);
                proof {
                    assert(!prev.contains(l[k as int])) by {
                        if prev.contains(l[k as int]) {
                            assert(l.take(k as int).contains(l[k as int]));
                            let j = choose|j: int| 0 <= j < k && l.take(k as int)[j] == l[k as int];
                            assert(l[j] == l[k as int]);
                        }
                    }
                }
                stale.push(ids[k].clone());
                proof {
                    assert(strs(stale@) =~= prev.push(l[k as int]));
                    assert(l.take(k + 1)[k as int] == l[k as int]);
                    assert forall|a: int, b: int| 0 <= a < strs(stale@).len() && 0 <= b < strs(stale@).len() && a != b
                        implies strs(stale@)[a] != strs(stale@)[b] by {
                        if a == prev.len() {
                            assert(prev.contains(prev[b]));
                        } else if b == prev.len() {
                            assert(prev.contains(prev[a]));
                        }
                    }
                    assert forall|x: Seq<char>| #[trigger] strs(stale@).contains(x) implies l.take(k + 1).contains(x) by {
                        if x != l[k as int] {
                            let j = choose|j: int| 0 <= j < strs(stale@).len() && strs(stale@)[j] == x;
                            assert(prev[j] == x);
                            assert(prev.contains(x));
                        }
                    }
                    assert forall|j: int| 0 <= j < k + 1 && !has_connection(m1.connections, #[trigger] l[j])
                        implies strs(stale@).contains(l[j]) by {
                        if j < k {
                            let q = choose|q: int| 0 <= q < prev.len() && prev[q] == l[j];
                            assert(strs(stale@)[q] == l[j]);
                        } else {
                            assert(strs(stale@)[prev.len() as int] == l[j]);
                        }
                    }
                }
            }
            k = k + 1;
        }
        let ghost failed = strs(stale@);
        proof {
            assert(l.take(ids@.len() as int) =~= l);
            l.unique_seq_to_set();
            assert(failed.to_set().subset_of(l.to_set()));
            assert forall|id: Seq<char>| #[trigger] l.to_set().contains(id) && !has_connection(m1.connections, id)
                implies failed.contains(id) by {
                let j = choose|j: int| 0 <= j < l.len() && l[j] == id;
                assert(!has_connection(m1.connections, l[j]));
            }
        }
        self.unregister_each(&stale);
        if enqueued == 0 && buffer_if_undelivered {
            self.requeue_for_subjects_at(subjects, message, now_ts);
        }
        proof {
            assert(failed.no_duplicates());
            assert(m1.subjects == old(self)@.subjects && m1.connections == old(self)@.connections);
            assert(dispatch_handoffs(m1.connections, l, message@) == dispatch_handoffs(m1.connections, l.take(ids@.len() as int), message@));
            assert(l.to_set() == target_ids(old(self)@.subjects, strs(subjects@)));
            assert(dispatch_handed(old(self)@, strs(subjects@), message@, old(self).handoffs(), self.handoffs()));
        }
        DispatchResult { attempted_count: attempted, enqueued_count: enqueued }
    }

    /// Sends to subjects at the current time (see `send_to_subjects_at`).
    pub fn send_to_subjects(
        &mut self,
        subjects: &Vec<String>,
        message: String,
        buffer_if_undelivered: bool,
        sticky_key: Option<&str>,
    ) -> (r: DispatchResult)
        requires
            old(self).wf(),
        ensures
            final(self).wf(),
            subjects@.len() == 0 || message@.len() == 0 ==> final(self)@ == old(self)@
                && r.attempted_count == 0 && r.enqueued_count == 0 && final(self).handoffs() == old(self).handoffs(),
            subjects@.len() > 0 && message@.len() > 0 ==> exists|now: i64| #[trigger] dispatch_allows(old(self)@,
                strs(subjects@), message@, buffer_if_undelivered, opt_str(sticky_key), now, final(self)@,
                r.attempted_count as nat, r.enqueued_count as nat),
            subjects@.len() > 0 && message@.len() > 0 ==> dispatch_handed(old(self)@, strs(subjects@), message@,
                old(self).handoffs(), final(self).handoffs()),
    {
        let now_ts = now_unix_seconds();
        self.send_to_subjects_at(subjects, message, buffer_if_undelivered, sticky_key, now_ts)
    }

}

impl Default for GatewayState {
    /// An empty state without a per-user connection cap.
    fn default() -> (s: Self)
        ensures
            s.wf(),
            s@.connections == Seq::<ConnectionInfoView>::empty(),
            s@.max_connections_per_user is None,
            s.handoffs() == Seq::<Handoff>::empty(),
    {
        GatewayState::new(None)
    }
}

/// The plain view of an optional string.
pub open spec fn opt_string(s: Option<String>) -> Option<Seq<char>> {
    match s {
        Some(x) => Some(x@),
        None => None,
    }
}

/// Whether some subject of `subjects` is in `carried`.
fn any_subject_in(subjects: &[String], carried: &Vec<String>) -> (r: bool)
    ensures
        r == shares_subject(strs(subjects@), strs(carried@)),
{
    let mut i: usize = 0;
    while i < subjects.len()
        invariant
            i <= subjects@.len(),
            forall|j: int| 0 <= j < i ==> !strs(carried@).contains(#[trigger] strs(subjects@)[j]),
        decreases subjects@.len() - i,
    {
        if contains_text(carried, subjects[i].as_str()) {
            assert(strs(carried@).contains(strs(subjects@)[i as int]));
            return true;
        }
        i = i + 1;
    }
    false
}

/// A list of ids without `id`.
fn remove_id(members: Vec<String>, id: &str) -> (r: Vec<String>)
    requires
        strs(members@).no_duplicates(),
    ensures
        strs(r@).no_duplicates(),
        strs(r@).to_set() =~= strs(members@).to_set().remove(id@),
{
    let ghost ms = strs(members@);
    let mut out: Vec<String> = Vec::new();
    let mut i: usize = 0;
    proof { assert(ms.take(0).to_set() =~= Set::<Seq<char>>::empty()); }
    while i < members.len()
        invariant
            i <= members@.len(),
            ms == strs(members@),
            ms.no_duplicates(),
            strs(out@).no_duplicates(),
            strs(out@).to_set() =~= ms.take(i as int).to_set().remove(id@),
        decreases members@.len() - i,
    {
        let x = &members[i];
        proof {
            assert(ms.take(i + 1) =~= ms.take(i as int).push(ms[i as int]));
            lemma_push_to_set(ms.take(i as int), ms[i as int]);
            assert(ms[i as int] == x@);
            assert(!ms.take(i as int).contains(x@)) by {
                if ms.take(i as int).contains(x@) {
                    let k = choose|k: int| 0 <= k < i && ms.take(i as int)[k] == x@;
                    assert(ms[k] == ms[i as int]);
                }
            }
        }
        if !str_eq(x.as_str(), id) {
            let ghost before = strs(out@);
            out.push(x.clone());
            proof {
                assert(strs(out@) =~= before.push(x@));
                lemma_push_to_set(before, x@);
                assert(!before.contains(x@)) by {
                    if before.contains(x@) {
                        assert(before.to_set().contains(x@));
                    }
                }
                assert forall|a: int, b: int| 0 <= a < strs(out@).len() && 0 <= b < strs(out@).len() && a != b
                    implies strs(out@)[a] != strs(out@)[b] by {
                    if a == before.len() {
                        assert(before[b] == strs(out@)[b]);
                    } else if b == before.len() {
                        assert(before[a] == strs(out@)[a]);
                    }
                }
            }
        }
        i = i + 1;
    }
    proof { assert(ms.take(members@.len() as int) =~= ms); }
    out
}


/// Every connection of `sub` is one of `src`, and no two share an id.
pub open spec fn subset_distinct(sub: Seq<ConnectionInfoView>, src: Seq<ConnectionInfoView>) -> bool {
    &&& forall|k: int| 0 <= k < sub.len() ==> src.contains(#[trigger] sub[k])
    &&& connection_ids_unique(sub)
}

proof fn lemma_subset_find(sub: Seq<ConnectionInfoView>, src: Seq<ConnectionInfoView>)
    requires
        subset_distinct(sub, src),
        connection_ids_unique(src),
    ensures
        forall|k: int| 0 <= k < sub.len() ==> #[trigger] find_connection(src, sub[k].connection_id) == Some(sub[k]),
{
    assert forall|k: int| 0 <= k < sub.len() implies #[trigger] find_connection(src, sub[k].connection_id) == Some(sub[k]) by {
        assert(src.contains(sub[k]));
        let p = choose|p: int| 0 <= p < src.len() && src[p] == sub[k];
        assert(src[p].connection_id == sub[k].connection_id);
        assert(has_connection(src, sub[k].connection_id));
        let q = connection_index(src, sub[k].connection_id);
        assert(q == p);
    }
}

proof fn lemma_push_subset(rest: Seq<ConnectionInfoView>, x: ConnectionInfoView, cs: Seq<ConnectionInfoView>)
    requires
        connection_ids_unique(cs),
        cs.len() > 0,
        x == cs.last(),
        subset_distinct(rest, cs.drop_last()),
    ensures
        subset_distinct(rest.push(x), cs),
        subset_distinct(rest, cs),
{
    let init = cs.drop_last();
    assert forall|k: int| 0 <= k < rest.len() implies cs.contains(#[trigger] rest[k]) by {
        assert(init.contains(rest[k]));
        let p = choose|p: int| 0 <= p < init.len() && init[p] == rest[k];
        assert(cs[p] == rest[k]);
    }
    let t = rest.push(x);
    assert forall|k: int| 0 <= k < t.len() implies cs.contains(#[trigger] t[k]) by {
        if k == rest.len() {
            assert(cs[cs.len() - 1] == x);
        } else {
            assert(t[k] == rest[k]);
        }
    }
    assert forall|a: int, b: int| 0 <= a < t.len() && 0 <= b < t.len() && a != b
        implies t[a].connection_id != t[b].connection_id by {
        if a == rest.len() || b == rest.len() {
            let o = if a == rest.len() { b } else { a };
            assert(init.contains(rest[o]));
            let p = choose|p: int| 0 <= p < init.len() && init[p] == rest[o];
            assert(cs[p] == rest[o]);
            assert(p != cs.len() - 1);
        } else {
            assert(t[a] == rest[a] && t[b] == rest[b]);
        }
    }
}

proof fn lemma_drop_last_unique(cs: Seq<ConnectionInfoView>)
    requires
        connection_ids_unique(cs),
        cs.len() > 0,
    ensures
        connection_ids_unique(cs.drop_last()),
{
    let init = cs.drop_last();
    assert forall|x: int, y: int| 0 <= x < init.len() && 0 <= y < init.len() && x != y
        implies init[x].connection_id != init[y].connection_id by {
        assert(init[x] == cs[x] && init[y] == cs[y]);
    }
}

proof fn lemma_stale_subset(cs: Seq<ConnectionInfoView>, now: i64, stale_after: i64)
    requires
        connection_ids_unique(cs),
    ensures
        subset_distinct(stale_connections(cs, now, stale_after), cs),
    decreases cs.len(),
{
    if cs.len() > 0 {
        lemma_drop_last_unique(cs);
        lemma_stale_subset(cs.drop_last(), now, stale_after);
        lemma_push_subset(stale_connections(cs.drop_last(), now, stale_after), cs.last(), cs);
    }
}

proof fn lemma_same_instance_subset(cs: Seq<ConnectionInfoView>, user: Seq<char>, instance: Seq<char>, id: Seq<char>)
    requires
        connection_ids_unique(cs),
    ensures
        subset_distinct(same_instance(cs, user, instance, id), cs),
    decreases cs.len(),
{
    if cs.len() > 0 {
        lemma_drop_last_unique(cs);
        lemma_same_instance_subset(cs.drop_last(), user, instance, id);
        lemma_push_subset(same_instance(cs.drop_last(), user, instance, id), cs.last(), cs);
    }
}

pub proof fn lemma_user_subset(cs: Seq<ConnectionInfoView>, user: Seq<char>)
    requires
        connection_ids_unique(cs),
    ensures
        subset_distinct(user_connections(cs, user), cs),
    decreases cs.len(),
{
    if cs.len() > 0 {
        lemma_drop_last_unique(cs);
        lemma_user_subset(cs.drop_last(), user);
        lemma_push_subset(user_connections(cs.drop_last(), user), cs.last(), cs);
    }
}

proof fn lemma_without_id_subset(sub: Seq<ConnectionInfoView>, src: Seq<ConnectionInfoView>, id: Seq<char>)
    requires
        subset_distinct(sub, src),
    ensures
        subset_distinct(without_id(sub, id), src),
        forall|k: int| 0 <= k < without_id(sub, id).len() ==> sub.contains(#[trigger] without_id(sub, id)[k]),
    decreases sub.len(),
{
    if sub.len() > 0 {
        let init = sub.drop_last();
        lemma_drop_last_unique(sub);
        assert(subset_distinct(init, src)) by {
            assert forall|k: int| 0 <= k < init.len() implies src.contains(#[trigger] init[k]) by {
                assert(init[k] == sub[k]);
            }
        }
        lemma_without_id_subset(init, src, id);
        let rest = without_id(init, id);
        assert forall|k: int| 0 <= k < rest.len() implies sub.contains(#[trigger] rest[k]) by {
            assert(init.contains(rest[k]));
            let p = choose|p: int| 0 <= p < init.len() && init[p] == rest[k];
            assert(sub[p] == rest[k]);
        }
        if sub.last().connection_id != id {
            let t = rest.push(sub.last());
            assert(t == without_id(sub, id));
            assert forall|k: int| 0 <= k < t.len() implies sub.contains(#[trigger] t[k]) && src.contains(t[k]) by {
                if k == rest.len() {
                    assert(sub[sub.len() - 1] == t[k]);
                } else {
                    assert(t[k] == rest[k]);
                }
            }
            assert forall|a: int, b: int| 0 <= a < t.len() && 0 <= b < t.len() && a != b
                implies t[a].connection_id != t[b].connection_id by {
                if a == rest.len() || b == rest.len() {
                    let o = if a == rest.len() { b } else { a };
                    assert(init.contains(rest[o]));
                    let p = choose|p: int| 0 <= p < init.len() && init[p] == rest[o];
                    assert(sub[p] == rest[o]);
                    assert(p != sub.len() - 1);
                } else {
                    assert(t[a] == rest[a] && t[b] == rest[b]);
                }
            }
        }
    }
}

proof fn lemma_insert_by_connected_shape(s: Seq<ConnectionInfoView>, x: ConnectionInfoView)
    ensures
        exists|p: int| 0 <= p <= s.len() && #[trigger] insert_by_connected(s, x) == s.take(p).push(x) + s.skip(p),
    decreases s.len(),
{
    if s.len() == 0 {
        assert(insert_by_connected(s, x) =~= s.take(0).push(x) + s.skip(0));
    } else if x.connected_at < s.last().connected_at {
        let d = s.drop_last();
        lemma_insert_by_connected_shape(d, x);
        let p = choose|p: int| 0 <= p <= d.len() && #[trigger] insert_by_connected(d, x) == d.take(p).push(x) + d.skip(p);
        assert(insert_by_connected(s, x) =~= s.take(p).push(x) + s.skip(p));
    } else {
        assert(insert_by_connected(s, x) =~= s.take(s.len() as int).push(x) + s.skip(s.len() as int));
    }
}

pub proof fn lemma_sort_subset(s: Seq<ConnectionInfoView>, src: Seq<ConnectionInfoView>)
    requires
        subset_distinct(s, src),
    ensures
        subset_distinct(sort_by_connected(s), src),
        sort_by_connected(s).len() == s.len(),
        forall|k: int| 0 <= k < sort_by_connected(s).len() ==> s.contains(#[trigger] sort_by_connected(s)[k]),
    decreases s.len(),
{
    if s.len() > 0 {
        let d = s.drop_last();
        let x = s.last();
        lemma_drop_last_unique(s);
        assert(subset_distinct(d, src)) by {
            assert forall|k: int| 0 <= k < d.len() implies src.contains(#[trigger] d[k]) by {
                assert(d[k] == s[k]);
            }
        }
        lemma_sort_subset(d, src);
        let sd = sort_by_connected(d);
        lemma_insert_by_connected_shape(sd, x);
        let p = choose|p: int| 0 <= p <= sd.len() && #[trigger] insert_by_connected(sd, x) == sd.take(p).push(x) + sd.skip(p);
        let t = insert_by_connected(sd, x);
        assert(t.len() == s.len());
        assert forall|k: int| 0 <= k < t.len() implies s.contains(#[trigger] t[k]) && src.contains(t[k]) by {
            if k < p {
                assert(t[k] == sd[k]);
                assert(d.contains(sd[k]));
                let q = choose|q: int| 0 <= q < d.len() && d[q] == sd[k];
                assert(s[q] == sd[k]);
            } else if k == p {
                assert(t[k] == x);
                assert(s[s.len() - 1] == x);
            } else {
                assert(t[k] == sd[k - 1]);
                assert(d.contains(sd[k - 1]));
                let q = choose|q: int| 0 <= q < d.len() && d[q] == sd[k - 1];
                assert(s[q] == sd[k - 1]);
            }
        }
        assert forall|a: int, b: int| 0 <= a < t.len() && 0 <= b < t.len() && a != b
            implies t[a].connection_id != t[b].connection_id by {
            let a2 = if a < p { a } else { a - 1 };
            let b2 = if b < p { b } else { b - 1 };
            if a == p || b == p {
                let o = if a == p { b2 } else { a2 };
                assert(d.contains(sd[o]));
                let q = choose|q: int| 0 <= q < d.len() && d[q] == sd[o];
                assert(s[q] == sd[o]);
                assert(q != s.len() - 1);
                assert(s[s.len() - 1] == x);
            } else {
                assert(t[a] == sd[a2] && t[b] == sd[b2]);
            }
        }
    }
}


/// The current time in whole seconds since the Unix epoch; a clock set
/// before the epoch reads as 0.
pub(crate) fn now_unix_seconds() -> (r: i64)
    ensures
        r >= 0,
{
    unix_seconds_now()
}


fn insert_by_connected_exec(sorted: &mut Vec<ConnectionInfo>, x: ConnectionInfo)
    ensures
        info_views(final(sorted)@) == insert_by_connected(info_views(old(sorted)@), x@),
{
    let ghost s = info_views(sorted@);
    let mut j: usize = sorted.len();
    proof {
        assert(s.take(j as int) =~= s);
        assert(s.skip(j as int) =~= Seq::<ConnectionInfoView>::empty());
        assert(insert_by_connected(s, x@) =~= insert_by_connected(s.take(j as int), x@) + s.skip(j as int));
    }
    while j > 0 && x.connected_at < sorted[j - 1].connected_at
        invariant
            j <= sorted@.len(),
            s == info_views(sorted@),
            insert_by_connected(s, x@) == insert_by_connected(s.take(j as int), x@) + s.skip(j as int),
        decreases j,
    {
        proof {
            let t = s.take(j as int);
            assert(t.last() == s[j - 1]);
            assert(s[j - 1] == sorted@[j - 1]@);
            assert(t.drop_last() =~= s.take(j - 1));
            assert(insert_by_connected(t, x@) == insert_by_connected(s.take(j - 1), x@).push(s[j - 1]));
            assert(s.skip(j - 1) =~= seq![s[j - 1]] + s.skip(j as int));
            assert(insert_by_connected(s.take(j - 1), x@).push(s[j - 1]) + s.skip(j as int)
                =~= insert_by_connected(s.take(j - 1), x@) + s.skip(j - 1));
        }
        j = j - 1;
    }
    proof {
        let t = s.take(j as int);
        if j > 0 {
            assert(s[j - 1] == sorted@[j - 1]@);
            assert(insert_by_connected(t, x@) == t.push(x@));
        } else {
            assert(insert_by_connected(t, x@) == seq![x@]);
        }
    }
    sorted.insert(j, x);
    proof {
        assert(info_views(sorted@) =~= s.take(j as int).push(x@) + s.skip(j as int));
        if j == 0 {
            assert(s.take(0).push(x@) =~= seq![x@]);
        }
    }
}


proof fn lemma_unregister_all_keeps_cap(m: GatewayModel, ids: Seq<Seq<char>>)
    ensures
        spec_unregister_all(m, ids).max_connections_per_user == m.max_connections_per_user,
        spec_unregister_all(m, ids).pending == m.pending,
        spec_unregister_all(m, ids).relay_contexts == m.relay_contexts,
        spec_unregister_all(m, ids).replay_seen == m.replay_seen,
        spec_unregister_all(m, ids).rate_counters == m.rate_counters,
    decreases ids.len(),
{
    if ids.len() > 0 {
        lemma_unregister_all_keeps_cap(m, ids.drop_last());
    }
}

pub proof fn lemma_take_subset(s: Seq<ConnectionInfoView>, src: Seq<ConnectionInfoView>, n: int)
    requires
        subset_distinct(s, src),
        0 <= n <= s.len(),
    ensures
        subset_distinct(s.take(n), src),
{
    let t = s.take(n);
    assert forall|k: int| 0 <= k < t.len() implies src.contains(#[trigger] t[k]) by {
        assert(t[k] == s[k]);
    }
    assert forall|a: int, b: int| 0 <= a < t.len() && 0 <= b < t.len() && a != b
        implies t[a].connection_id != t[b].connection_id by {
        assert(t[a] == s[a] && t[b] == s[b]);
    }
}

} // verus!
