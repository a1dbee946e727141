//! What listing, pruning, dispatch, replay and rate limiting guarantee,
//! stated over their inputs and results.

use vstd::prelude::*;
use crate::connection::ConnectionInfoView;
use crate::pending::{leading_expired, prune_queue, PendingView, PENDING_MAX_PER_SUBJECT, PENDING_TTL_SECONDS};
use crate::state::{
    connection_ids_unique, connection_index, dispatch_allows, filter_connections, has_connection, ids_of,
    rate_key, rate_window, register_evictions, register_replay, spec_check_rate, spec_mark_alive, spec_unregister,
    spec_unregister_all, stale_connections, take_all, append_new, texts_of, GatewayModel,
};
use crate::text::{spec_lowercase, spec_trim};

verus! {

/// Every connection `list_connections` returns is a registered one that
/// carries the subject asked for (when one is) and belongs to the user asked
/// for (when one is); every registered connection that does so is returned.
pub proof fn law_listed_connections_pass_filters(
    cs: Seq<ConnectionInfoView>,
    subject: Option<Seq<char>>,
    user: Option<Seq<char>>,
)
    ensures
        forall|i: int| 0 <= i < filter_connections(cs, subject, user).len() ==> {
            let c = #[trigger] filter_connections(cs, subject, user)[i];
            &&& cs.contains(c)
            &&& (match subject { Some(s) => c.subjects.contains(s), None => true })
            &&& (match user { Some(u) => c.user_id == u, None => true })
        },
        forall|i: int| 0 <= i < cs.len()
            && (match subject { Some(s) => cs[i].subjects.contains(s), None => true })
            && (match user { Some(u) => cs[i].user_id == u, None => true })
            ==> filter_connections(cs, subject, user).contains(#[trigger] cs[i]),
    decreases cs.len(),
{
    if cs.len() > 0 {
        let d = cs.drop_last();
        law_listed_connections_pass_filters(d, subject, user);
        let rest = filter_connections(d, subject, user);
        let r = filter_connections(cs, subject, user);
        assert forall|i: int| 0 <= i < r.len() implies {
            let c = #[trigger] r[i];
            &&& cs.contains(c)
            &&& (match subject { Some(s) => c.subjects.contains(s), None => true })
            &&& (match user { Some(u) => c.user_id == u, None => true })
        } by {
            if i < rest.len() {
                assert(r[i] == rest[i]);
                let c = rest[i];
                assert(d.contains(c));
                let k = choose|k: int| 0 <= k < d.len() && d[k] == c;
                assert(cs[k] == c);
            } else {
                assert(r[i] == cs[cs.len() - 1]);
            }
        }
        assert forall|i: int| 0 <= i < cs.len()
            && (match subject { Some(s) => cs[i].subjects.contains(s), None => true })
            && (match user { Some(u) => cs[i].user_id == u, None => true })
            implies r.contains(#[trigger] cs[i]) by {
            if i < d.len() {
                assert(d[i] == cs[i]);
                assert(rest.contains(d[i]));
                let k = choose|k: int| 0 <= k < rest.len() && rest[k] == d[i];
                assert(r[k] == rest[k]);
            } else {
                assert(r[r.len() - 1] == cs[i]);
            }
        }
    }
}

/// A connection is pruned only when it has not been seen for more than
/// `stale_after` seconds at `now`: every pruned connection is a registered
/// one last seen before `now - stale_after`, so one seen within that time
/// is never pruned.
pub proof fn law_pruned_only_when_unseen(cs: Seq<ConnectionInfoView>, now: i64, stale_after: i64)
    ensures
        forall|i: int| 0 <= i < stale_connections(cs, now, stale_after).len() ==> {
            let c = #[trigger] stale_connections(cs, now, stale_after)[i];
            &&& cs.contains(c)
            &&& now - c.last_seen_at > stale_after
        },
        forall|i: int| 0 <= i < cs.len() && now - cs[i].last_seen_at <= stale_after
            ==> !stale_connections(cs, now, stale_after).contains(#[trigger] cs[i]),
    decreases cs.len(),
{
    if cs.len() > 0 {
        let d = cs.drop_last();
        law_pruned_only_when_unseen(d, now, stale_after);
        let rest = stale_connections(d, now, stale_after);
        let r = stale_connections(cs, now, stale_after);
        assert forall|i: int| 0 <= i < r.len() implies {
            let c = #[trigger] r[i];
            &&& cs.contains(c)
            &&& now - c.last_seen_at > stale_after
        } by {
            if i < rest.len() {
                assert(r[i] == rest[i]);
                let c = rest[i];
                let k = choose|k: int| 0 <= k < d.len() && d[k] == c;
                assert(cs[k] == c);
            } else {
                assert(r[i] == cs[cs.len() - 1]);
            }
        }
        assert forall|i: int| 0 <= i < cs.len() && now - cs[i].last_seen_at <= stale_after
            implies !r.contains(#[trigger] cs[i]) by {
            if r.contains(cs[i]) {
                let k = choose|k: int| 0 <= k < r.len() && r[k] == cs[i];
                assert(now - r[k].last_seen_at > stale_after);
            }
        }
    }
}

/// Staleness is measured from the last time a connection was marked alive:
/// a connection marked alive at `seen` is not pruned at any `now` within
/// `stale_after` seconds of it.
pub proof fn law_marked_alive_not_pruned(m: GatewayModel, id: Seq<char>, seen: i64, now: i64, stale_after: i64)
    requires
        connection_ids_unique(m.connections),
        has_connection(m.connections, id),
        now - seen <= stale_after,
    ensures
        !ids_of(stale_connections(spec_mark_alive(m, id, seen).connections, now, stale_after)).contains(id),
{
    let i = connection_index(m.connections, id);
    let cs = spec_mark_alive(m, id, seen).connections;
    assert(cs[i].connection_id == id && cs[i].last_seen_at == seen);
    law_pruned_only_when_unseen(cs, now, stale_after);
    let st = stale_connections(cs, now, stale_after);
    if ids_of(st).contains(id) {
        let k = choose|k: int| 0 <= k < ids_of(st).len() && ids_of(st)[k] == id;
        let c = st[k];
        assert(cs.contains(c));
        let j = choose|j: int| 0 <= j < cs.len() && cs[j] == c;
        if j != i {
            assert(cs[j] == m.connections[j]);
            assert(m.connections[i].connection_id == id);
        }
        assert(now - c.last_seen_at > stale_after);
    }
}

proof fn lemma_unregister_all_keeps_pending(m: GatewayModel, ids: Seq<Seq<char>>)
    ensures
        spec_unregister_all(m, ids).pending == m.pending,
    decreases ids.len(),
{
    if ids.len() > 0 {
        lemma_unregister_all_keeps_pending(m, ids.drop_last());
    }
}

/// A message that some connection took is never queued for replay: when a
/// dispatch (without a sticky key) enqueues it to at least one connection,
/// the replay queues are as they were, whatever the buffering flag.
pub proof fn law_delivered_message_not_queued(
    m: GatewayModel,
    subjects: Seq<Seq<char>>,
    message: Seq<char>,
    buffer_if_undelivered: bool,
    now: i64,
    after: GatewayModel,
    attempted: nat,
    enqueued: nat,
)
    requires
        dispatch_allows(m, subjects, message, buffer_if_undelivered, None, now, after, attempted, enqueued),
        enqueued > 0,
    ensures
        after.pending == m.pending,
{
    let failed = choose|failed: Seq<Seq<char>>| {
        &&& #[trigger] failed.no_duplicates()
        &&& failed.to_set().subset_of(target_ids_of(m, subjects))
        &&& (forall|id: Seq<char>| #[trigger] target_ids_of(m, subjects).contains(id) && !has_connection(m.connections, id)
            ==> failed.contains(id))
        &&& enqueued + failed.len() == attempted
        &&& after == crate::state::dispatch_outcome(m, subjects, message, buffer_if_undelivered, failed, enqueued, now)
    };
    lemma_unregister_all_keeps_pending(m, failed);
}

/// The connections subscribed to any of `subjects`.
pub open spec fn target_ids_of(m: GatewayModel, subjects: Seq<Seq<char>>) -> Set<Seq<char>> {
    crate::state::target_ids(m.subjects, subjects)
}

/// A replay queue in the order messages were queued (by time).
pub open spec fn queued_in_order(q: Seq<PendingView>) -> bool {
    forall|i: int, j: int| 0 <= i <= j < q.len() ==> q[i].enqueued_at <= q[j].enqueued_at
}

proof fn lemma_leading_expired(q: Seq<PendingView>, now: i64)
    ensures
        leading_expired(q, now) <= q.len(),
        leading_expired(q, now) < q.len() ==> now - q[leading_expired(q, now) as int].enqueued_at <= PENDING_TTL_SECONDS,
    decreases q.len(),
{
    if q.len() > 0 && now - q[0].enqueued_at > PENDING_TTL_SECONDS {
        lemma_leading_expired(q.drop_first(), now);
        let l = leading_expired(q.drop_first(), now);
        if l < q.drop_first().len() {
            assert(q.drop_first()[l as int] == q[l as int + 1]);
        }
    }
}

/// Pruning a replay queue (kept in the order messages were queued) leaves
/// only messages still within the replay window at `now`, each one from the
/// queue.
pub proof fn law_pruned_queue_is_fresh(q: Seq<PendingView>, now: i64)
    requires
        queued_in_order(q),
    ensures
        forall|i: int| 0 <= i < prune_queue(q, now).len() ==> {
            let p = #[trigger] prune_queue(q, now)[i];
            &&& q.contains(p)
            &&& now - p.enqueued_at <= PENDING_TTL_SECONDS
        },
{
    lemma_leading_expired(q, now);
    let l = leading_expired(q, now) as int;
    let fresh = q.skip(l);
    let r = prune_queue(q, now);
    let off: int = if fresh.len() > PENDING_MAX_PER_SUBJECT { fresh.len() - PENDING_MAX_PER_SUBJECT } else { 0 };
    assert(r =~= fresh.skip(off));
    assert forall|i: int| 0 <= i < r.len() implies {
        let p = #[trigger] r[i];
        &&& q.contains(p)
        &&& now - p.enqueued_at <= PENDING_TTL_SECONDS
    } by {
        assert(r[i] == q[l + off + i]);
        assert(q[l].enqueued_at <= q[l + off + i].enqueued_at);
    }
}

/// Text `t` was queued for one of `subjects` and is still within the replay
/// window at `now`.
pub open spec fn queued_recently(
    p: Map<Seq<char>, Seq<PendingView>>,
    subjects: Seq<Seq<char>>,
    t: Seq<char>,
    now: i64,
) -> bool {
    exists|s: Seq<char>, j: int| {
        &&& subjects.contains(s)
        &&& p.contains_key(s)
        &&& 0 <= j < p[s].len()
        &&& #[trigger] p[s][j].text == t
        &&& now - p[s][j].enqueued_at <= PENDING_TTL_SECONDS
    }
}

proof fn lemma_append_new_from(out: Seq<Seq<char>>, texts: Seq<Seq<char>>)
    ensures
        forall|i: int| 0 <= i < append_new(out, texts).len() ==>
            out.contains(#[trigger] append_new(out, texts)[i]) || texts.contains(append_new(out, texts)[i]),
    decreases texts.len(),
{
    if texts.len() > 0 {
        lemma_append_new_from(out, texts.drop_last());
        let b = append_new(out, texts.drop_last());
        let r = append_new(out, texts);
        assert forall|i: int| 0 <= i < r.len() implies out.contains(#[trigger] r[i]) || texts.contains(r[i]) by {
            if i < b.len() {
                assert(r[i] == b[i]);
                if texts.drop_last().contains(b[i]) {
                    let k = choose|k: int| 0 <= k < texts.drop_last().len() && texts.drop_last()[k] == b[i];
                    assert(texts[k] == b[i]);
                }
            } else {
                assert(r[i] == texts[texts.len() - 1]);
            }
        }
    }
}

proof fn lemma_take_all_fresh(p: Map<Seq<char>, Seq<PendingView>>, subjects: Seq<Seq<char>>, now: i64)
    requires
        forall|s: Seq<char>| #[trigger] p.contains_key(s) ==> queued_in_order(p[s]),
    ensures
        forall|k: Seq<char>| #[trigger] take_all(p, subjects, now).0.contains_key(k)
            ==> p.contains_key(k) && take_all(p, subjects, now).0[k] == p[k],
        forall|i: int| 0 <= i < take_all(p, subjects, now).1.len()
            ==> queued_recently(p, subjects, #[trigger] take_all(p, subjects, now).1[i], now),
    decreases subjects.len(),
{
    if subjects.len() > 0 {
        let d = subjects.drop_last();
        lemma_take_all_fresh(p, d, now);
        let (p1, out) = take_all(p, d, now);
        let s = subjects.last();
        assert forall|i: int| 0 <= i < out.len() implies queued_recently(p, subjects, #[trigger] out[i], now) by {
            let (s2, j) = choose|s2: Seq<char>, j: int| {
                &&& d.contains(s2)
                &&& p.contains_key(s2)
                &&& 0 <= j < p[s2].len()
                &&& #[trigger] p[s2][j].text == out[i]
                &&& now - p[s2][j].enqueued_at <= PENDING_TTL_SECONDS
            };
            let k = choose|k: int| 0 <= k < d.len() && d[k] == s2;
            assert(subjects[k] == s2);
        }
        if p1.contains_key(s) {
            let q = p1[s];
            assert(q == p[s]);
            law_pruned_queue_is_fresh(q, now);
            let tx = texts_of(prune_queue(q, now));
            lemma_append_new_from(out, tx);
            let r = append_new(out, tx);
            assert forall|i: int| 0 <= i < r.len() implies queued_recently(p, subjects, #[trigger] r[i], now) by {
                if out.contains(r[i]) {
                    let k = choose|k: int| 0 <= k < out.len() && out[k] == r[i];
                    assert(queued_recently(p, subjects, out[k], now));
                } else {
                    assert(tx.contains(r[i]));
                    let k = choose|k: int| 0 <= k < tx.len() && tx[k] == r[i];
                    let e = prune_queue(q, now)[k];
                    assert(q.contains(e) && now - e.enqueued_at <= PENDING_TTL_SECONDS);
                    let j = choose|j: int| 0 <= j < q.len() && q[j] == e;
                    assert(subjects[subjects.len() - 1] == s);
                    assert(p[s][j].text == r[i]);
                }
            }
            let p2 = p1.remove(s);
            assert forall|kk: Seq<char>| #[trigger] p2.contains_key(kk) implies p.contains_key(kk) && p2[kk] == p[kk] by {
                assert(p1.contains_key(kk));
            }
        }
    }
}

/// Every text replayed to a registering connection was queued for one of its
/// subjects and is still within the replay window at registration time
/// (given replay queues kept in the order messages were queued): a message
/// past the window is never replayed.
pub proof fn law_replayed_texts_are_fresh(
    m: GatewayModel,
    id: Seq<char>,
    user: Seq<char>,
    instance: Seq<char>,
    subjects: Seq<Seq<char>>,
    now: i64,
)
    requires
        forall|s: Seq<char>| #[trigger] m.pending.contains_key(s) ==> queued_in_order(m.pending[s]),
    ensures
        forall|i: int| 0 <= i < register_replay(m, id, user, instance, subjects, now).len()
            ==> queued_recently(m.pending, subjects, #[trigger] register_replay(m, id, user, instance, subjects, now)[i], now),
{
    let ev = register_evictions(m, id, user, instance);
    let m1 = spec_unregister_all(m, ids_of(ev.0));
    let m2 = spec_unregister_all(m1, ids_of(ev.1));
    lemma_unregister_all_keeps_pending(m, ids_of(ev.0));
    lemma_unregister_all_keeps_pending(m1, ids_of(ev.1));
    assert(m2.pending == m.pending);
    lemma_take_all_fresh(m.pending, subjects, now);
}

/// Relay commands with different names (after trimming and lower-casing)
/// never share a rate counter: counting one command leaves the rate-limit
/// outcome of another of the same sender and context at the same time as it
/// was.
pub proof fn law_rate_counters_per_command(
    m: GatewayModel,
    sender: Seq<char>,
    c1: Seq<char>,
    c2: Seq<char>,
    context_id: Seq<char>,
    now: i64,
)
    requires
        spec_lowercase(spec_trim(c1)) != spec_lowercase(spec_trim(c2)),
    ensures
        spec_check_rate(spec_check_rate(m, sender, c1, context_id, now).0, sender, c2, context_id, now).1
            == spec_check_rate(m, sender, c2, context_id, now).1,
{
    let w = rate_window(now);
    let k1 = rate_key(sender, c1, context_id, w);
    let k2 = rate_key(sender, c2, context_id, w);
    let a = spec_lowercase(spec_trim(sender)) + seq!['|'];
    let x1 = spec_lowercase(spec_trim(c1));
    let x2 = spec_lowercase(spec_trim(c2));
    let b = seq!['|'] + spec_lowercase(spec_trim(context_id)) + seq!['|'] + crate::text::decimal_text(w as int);
    assert(k1 =~= a + x1 + b);
    assert(k2 =~= a + x2 + b);
    if k1 == k2 {
        assert(x1.len() == x2.len());
        assert(x1 =~= k1.subrange(a.len() as int, (a.len() + x1.len()) as int));
        assert(x2 =~= k2.subrange(a.len() as int, (a.len() + x2.len()) as int));
    }
    assert(k1 != k2);
}

proof fn lemma_drop_sticky_ordered(q: Seq<PendingView>, key: Seq<char>)
    requires
        queued_in_order(q),
    ensures
        queued_in_order(crate::pending::drop_sticky(q, key)),
        forall|i: int| 0 <= i < crate::pending::drop_sticky(q, key).len()
            ==> q.contains(#[trigger] crate::pending::drop_sticky(q, key)[i]),
    decreases q.len(),
{
    if q.len() > 0 {
        let d = q.drop_last();
        assert(queued_in_order(d)) by {
            assert forall|i: int, j: int| 0 <= i <= j < d.len() implies d[i].enqueued_at <= d[j].enqueued_at by {
                assert(d[i] == q[i] && d[j] == q[j]);
            }
        }
        lemma_drop_sticky_ordered(d, key);
        let rest = crate::pending::drop_sticky(d, key);
        let r = crate::pending::drop_sticky(q, key);
        assert forall|i: int| 0 <= i < r.len() implies q.contains(#[trigger] r[i]) by {
            if i < rest.len() {
                assert(r[i] == rest[i]);
                let k = choose|k: int| 0 <= k < d.len() && d[k] == rest[i];
                assert(q[k] == rest[i]);
            } else {
                assert(r[i] == q[q.len() - 1]);
            }
        }
        assert forall|i: int, j: int| 0 <= i <= j < r.len() implies r[i].enqueued_at <= r[j].enqueued_at by {
            if j < rest.len() {
                assert(r[i] == rest[i] && r[j] == rest[j]);
            } else if i < rest.len() {
                assert(r[i] == rest[i]);
                let k = choose|k: int| 0 <= k < d.len() && d[k] == rest[i];
                assert(q[k] == rest[i]);
                assert(r[j] == q[q.len() - 1]);
            }
        }
    }
}

/// Queuing a message no older than those already queued for a subject keeps
/// the subject's replay queue in the order messages were queued (so pruning
/// it leaves only messages within the replay window: see
/// `law_pruned_queue_is_fresh`).
pub proof fn law_enqueue_keeps_order(
    p: Map<Seq<char>, Seq<PendingView>>,
    s: Seq<char>,
    item: PendingView,
    sticky: Option<Seq<char>>,
    now: i64,
)
    requires
        queued_in_order(crate::state::queue_of(p, s)),
        forall|i: int| 0 <= i < crate::state::queue_of(p, s).len()
            ==> #[trigger] crate::state::queue_of(p, s)[i].enqueued_at <= item.enqueued_at,
    ensures
        queued_in_order(crate::state::enqueue_one(p, s, item, sticky, now)[s]),
{
    let q0 = crate::state::queue_of(p, s);
    let q = match sticky {
        Some(k) => crate::pending::drop_sticky(q0, k),
        None => q0,
    };
    match sticky {
        Some(k) => { lemma_drop_sticky_ordered(q0, k); },
        None => {},
    }
    assert(forall|i: int| 0 <= i < q.len() ==> q0.contains(#[trigger] q[i]));
    let q1 = q.push(item);
    assert forall|i: int, j: int| 0 <= i <= j < q1.len() implies q1[i].enqueued_at <= q1[j].enqueued_at by {
        if j < q.len() {
            assert(q1[i] == q[i] && q1[j] == q[j]);
        } else if i < q.len() {
            assert(q1[i] == q[i]);
            assert(q0.contains(q[i]));
            let k = choose|k: int| 0 <= k < q0.len() && q0[k] == q[i];
            assert(q0[k].enqueued_at <= item.enqueued_at);
        }
    }
    lemma_leading_expired(q1, now);
    let l = leading_expired(q1, now) as int;
    let fresh = q1.skip(l);
    let off: int = if fresh.len() > PENDING_MAX_PER_SUBJECT { fresh.len() - PENDING_MAX_PER_SUBJECT } else { 0 };
    let r = prune_queue(q1, now);
    assert(r =~= fresh.skip(off));
    assert forall|i: int, j: int| 0 <= i <= j < r.len() implies r[i].enqueued_at <= r[j].enqueued_at by {
        assert(r[i] == q1[l + off + i] && r[j] == q1[l + off + j]);
    }
}

} // verus!
