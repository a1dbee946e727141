//! Messages held for subjects that had no live connection: the per-subject
//! replay queue, its expiry and its size cap.

use vstd::prelude::*;
use std::collections::VecDeque;
use crate::text::str_eq;

verus! {

/// Seconds a pending message stays replayable.
pub const PENDING_TTL_SECONDS: i64 = 30;
/// Most messages kept per subject.
pub const PENDING_MAX_PER_SUBJECT: usize = 256;

/// A message waiting for a subject's next connection.
#[derive(Clone, Debug)]
pub struct PendingMessage {
    pub text: String,
    pub enqueued_at: i64,
    pub sticky_key: Option<String>,
}

/// A pending message as plain values.
pub struct PendingView {
    pub text: Seq<char>,
    pub enqueued_at: i64,
    pub sticky_key: Option<Seq<char>>,
}

impl View for PendingMessage {
    type V = PendingView;

    open spec fn view(&self) -> PendingView {
        PendingView {
            text: self.text@,
            enqueued_at: self.enqueued_at,
            sticky_key: match self.sticky_key {
                Some(k) => Some(k@),
                None => None,
            },
        }
    }
}

/// The plain views of a queue's messages, front first.
pub open spec fn pending_views(q: Seq<PendingMessage>) -> Seq<PendingView> {
    q.map_values(|p: PendingMessage| p@)
}

/// A message is past its replay window at time `now`.
pub open spec fn is_expired(p: PendingView, now: i64) -> bool {
    now - p.enqueued_at > PENDING_TTL_SECONDS
}

/// How many messages at the front of a queue are expired.
pub open spec fn leading_expired(q: Seq<PendingView>, now: i64) -> nat
    decreases q.len(),
{
    if q.len() > 0 && is_expired(q[0], now) {
        1 + leading_expired(q.drop_first(), now)
    } else {
        0
    }
}

/// A queue after pruning: expired messages at the front are dropped, then
/// the oldest messages beyond the per-subject cap.
pub open spec fn prune_queue(q: Seq<PendingView>, now: i64) -> Seq<PendingView> {
    let fresh = q.skip(leading_expired(q, now) as int);
    if fresh.len() > PENDING_MAX_PER_SUBJECT {
        fresh.skip(fresh.len() - PENDING_MAX_PER_SUBJECT)
    } else {
        fresh
    }
}

/// A queue without the messages buffered under sticky key `key`.
pub open spec fn drop_sticky(q: Seq<PendingView>, key: Seq<char>) -> Seq<PendingView>
    decreases q.len(),
{
    if q.len() == 0 {
        q
    } else {
        let rest = drop_sticky(q.drop_last(), key);
        if q.last().sticky_key == Some(key) {
            rest
        } else {
            rest.push(q.last())
        }
    }
}

proof fn lemma_leading_expired_bound(q: Seq<PendingView>, now: i64)
    ensures
        leading_expired(q, now) <= q.len(),
    decreases q.len(),
{
    if q.len() > 0 && is_expired(q[0], now) {
        lemma_leading_expired_bound(q.drop_first(), now);
    }
}

/// Drops expired messages from the front of a queue, then the oldest
/// messages beyond the per-subject cap.
pub fn prune_pending_queue(queue: &mut VecDeque<PendingMessage>, now_ts: i64)
    ensures
        pending_views(final(queue)@) == prune_queue(pending_views(old(queue)@), now_ts),
{
    let ghost orig = pending_views(queue@);
    let ghost mut popped: int = 0;
    proof {
        lemma_leading_expired_bound(orig, now_ts);
        assert(orig.skip(0) =~= orig);
    }
    while queue.len() > 0 && (now_ts as i128) - (queue[0].enqueued_at as i128) > (PENDING_TTL_SECONDS as i128)
        invariant
            0 <= popped <= orig.len(),
            pending_views(queue@) == orig.skip(popped),
            leading_expired(orig, now_ts) == popped + leading_expired(pending_views(queue@), now_ts),
        decreases queue@.len(),
    {
        let ghost before = pending_views(queue@);
        assert(before[0] == queue@[0]@);
        queue.pop_front();
        proof {
            assert(pending_views(queue@) =~= before.drop_first());
            assert(orig.skip(popped + 1) =~= orig.skip(popped).drop_first());
            popped = popped + 1;
        }
    }
    let ghost fresh = pending_views(queue@);
    proof {
        if pending_views(queue@).len() > 0 {
            assert(pending_views(queue@)[0] == queue@[0]@);
        }
        assert(leading_expired(fresh, now_ts) == 0);
        assert(fresh.skip(0) =~= fresh);
    }
    let ghost mut dropped: int = 0;
    while queue.len() > PENDING_MAX_PER_SUBJECT
        invariant
            0 <= dropped,
            fresh.len() >= dropped,
            pending_views(queue@) == fresh.skip(dropped),
            fresh.len() > PENDING_MAX_PER_SUBJECT ==> dropped <= fresh.len() - PENDING_MAX_PER_SUBJECT,
            fresh.len() <= PENDING_MAX_PER_SUBJECT ==> dropped == 0,
        decreases queue@.len(),
    {
        let ghost before = pending_views(queue@);
        queue.pop_front();
        proof {
            assert(pending_views(queue@) =~= before.drop_first());
            assert(fresh.skip(dropped + 1) =~= fresh.skip(dropped).drop_first());
            dropped = dropped + 1;
        }
    }
}

/// Removes from a queue the messages buffered under sticky key `key`,
/// keeping the order of the others.
pub fn remove_sticky(queue: &mut VecDeque<PendingMessage>, key: &str)
    ensures
        pending_views(final(queue)@) == drop_sticky(pending_views(old(queue)@), key@),
{
    let ghost orig = pending_views(queue@);
    let n = queue.len();
    let mut kept: VecDeque<PendingMessage> = VecDeque::new();
    let mut i: usize = 0;
    proof { assert(orig.take(0) =~= Seq::<PendingView>::empty()); }
    while i < n
        invariant
            n == orig.len(),
            i <= n,
            pending_views(queue@) == orig.skip(i as int),
            pending_views(kept@) == drop_sticky(orig.take(i as int), key@),
        decreases n - i,
    {
        let ghost before = pending_views(queue@);
        let ghost raw = queue@;
        assert(before.len() > 0);
        assert(before[0] == raw[0]@);
        assert(orig.skip(i as int)[0] == orig[i as int]);
        let item = match queue.pop_front() {
            Some(item) => item,
            None => { return; }
        };
        proof {
            assert(item == raw[0]);
            assert(item@ == orig[i as int]);
            assert(pending_views(queue@) =~= before.drop_first());
            assert(pending_views(queue@) =~= orig.skip(i + 1));
            assert(orig.take(i + 1).drop_last() =~= orig.take(i as int));
            assert(orig.take(i + 1).last() == orig[i as int]);
        }
        let matches = match &item.sticky_key {
            Some(k) => str_eq(k.as_str(), key),
            None => false,
        };
        if !matches {
            kept.push_back(item);
            proof { assert(pending_views(kept@) =~= drop_sticky(orig.take(i as int), key@).push(orig[i as int])); }
        }
        i = i + 1;
    }
    proof { assert(orig.take(n as int) =~= orig); }
    *queue = kept;
}

} // verus!
