//! What the transports read from a connection request before a session
//! starts (bearer tokens, query parameters, client instance ids), and how
//! they classify an outbound event that could not be sent.

use vstd::prelude::*;
use crate::auth::AuthError;
use crate::broker::non_blank;
use crate::json::{json_get, json_str, JsonValue};
use crate::state::{spec_requeue, GatewayState};
use crate::text::strs;
use crate::text::{spec_trim, str_eq, trim_text};

verus! {

/// A token without the blanks around it and without a `Bearer ` prefix
/// (looked for after trimming; when absent, the token as given is trimmed).
pub open spec fn spec_bearer_token(token: Seq<char>) -> Seq<char> {
    let t = spec_trim(token);
    if t.len() >= 7 && t.take(7) == "Bearer "@ { spec_trim(t.skip(7)) } else { spec_trim(token) }
}

/// The token of an `Authorization`-style value (see `spec_bearer_token`).
pub fn normalize_bearer_token(token: &str) -> (r: &str)
    ensures
        r@ == spec_bearer_token(token@),
{
    let t = trim_text(token);
    let n = t.unicode_len();
    if n >= 7 && str_eq(t.substring_char(0, 7), "Bearer ") {
        proof { assert(t@.subrange(0, 7) =~= t@.take(7)); }
        let rest = t.substring_char(7, n);
        proof { assert(t@.subrange(7, n as int) =~= t@.skip(7)); }
        trim_text(rest)
    } else {
        proof {
            if n >= 7 {
                assert(t@.subrange(0, 7) =~= t@.take(7));
            }
        }
        trim_text(token)
    }
}

/// The pieces of a text between `sep` chars (`str::split`): one more than
/// there are separators, the last one possibly empty.
pub open spec fn split_pieces(s: Seq<char>, sep: char) -> Seq<Seq<char>>
    decreases s.len(),
{
    if s.len() == 0 {
        seq![Seq::empty()]
    } else {
        let p = split_pieces(s.drop_last(), sep);
        if s.last() == sep { p.push(Seq::empty()) } else { p.update(p.len() - 1, p.last().push(s.last())) }
    }
}

/// A text split at its first `sep` (`str::split_once`): the part before,
/// the part after, and whether there was one; without one, the whole text
/// and an empty part.
pub open spec fn split_first(s: Seq<char>, sep: char) -> (Seq<char>, Seq<char>, bool)
    decreases s.len(),
{
    if s.len() == 0 {
        (Seq::empty(), Seq::empty(), false)
    } else if s[0] == sep {
        (Seq::empty(), s.drop_first(), true)
    } else {
        let r = split_first(s.drop_first(), sep);
        (seq![s[0]] + r.0, r.1, r.2)
    }
}

/// The value of the first `key=value` piece named `key`.
pub open spec fn first_param(pieces: Seq<Seq<char>>, key: Seq<char>) -> Option<Seq<char>>
    decreases pieces.len(),
{
    if pieces.len() == 0 {
        None
    } else if split_first(pieces[0], '=').0 == key {
        Some(split_first(pieces[0], '=').1)
    } else {
        first_param(pieces.drop_first(), key)
    }
}

/// The value of query parameter `key` of a request path: the pieces of the
/// text after the first `?`, split at `&`, each split at its first `=` (a
/// piece without one has an empty value). `None` without a query.
pub open spec fn spec_query_param(path: Seq<char>, key: Seq<char>) -> Option<Seq<char>> {
    let q = split_first(path, '?');
    if !q.2 { None } else { first_param(split_pieces(q.1, '&'), key) }
}

proof fn lemma_split_first_at(s: Seq<char>, sep: char, e: int)
    requires
        0 <= e <= s.len(),
        forall|j: int| 0 <= j < e ==> s[j] != sep,
        e < s.len() ==> s[e] == sep,
    ensures
        e < s.len() ==> split_first(s, sep) == (s.take(e), s.skip(e + 1), true),
        e == s.len() ==> split_first(s, sep) == (s, Seq::<char>::empty(), false),
    decreases s.len(),
{
    if s.len() > 0 && e > 0 {
        let t = s.drop_first();
        assert forall|j: int| 0 <= j < e - 1 implies t[j] != sep by {
            assert(t[j] == s[j + 1]);
        }
        if e - 1 < t.len() {
            assert(t[e - 1] == s[e]);
        }
        lemma_split_first_at(t, sep, e - 1);
        if e < s.len() {
            assert(seq![s[0]] + t.take(e - 1) =~= s.take(e));
            assert(t.skip(e) =~= s.skip(e + 1));
        } else {
            assert(seq![s[0]] + t =~= s);
        }
    } else if s.len() > 0 {
        assert(s.take(0) =~= Seq::<char>::empty());
        assert(s.drop_first() =~= s.skip(1));
    } else {
        assert(s =~= Seq::<char>::empty());
    }
}

/// The index of the first `sep` in `s` at or after `from`, or `s`'s length.
fn find_char(s: &str, n: usize, from: usize, sep: char) -> (r: usize)
    requires
        n == s@.len(),
        from <= n,
    ensures
        from <= r <= n,
        forall|j: int| from <= j < r ==> s@[j] != sep,
        r < n ==> s@[r as int] == sep,
{
    let mut i = from;
    while i < n && s.get_char(i) != sep
        invariant
            from <= i <= n,
            n == s@.len(),
            forall|j: int| from <= j < i ==> s@[j] != sep,
        decreases n - i,
    {
        i = i + 1;
    }
    i
}

fn split_once_exec<'a>(s: &'a str, sep: char) -> (r: (&'a str, &'a str, bool))
    ensures
        (r.0@, r.1@, r.2) == split_first(s@, sep),
{
    let n = s.unicode_len();
    let e = find_char(s, n, 0, sep);
    proof { lemma_split_first_at(s@, sep, e as int); }
    if e < n {
        let before = s.substring_char(0, e);
        let after = s.substring_char(e + 1, n);
        proof {
            assert(s@.subrange(0, e as int) =~= s@.take(e as int));
            assert(s@.subrange(e + 1, n as int) =~= s@.skip(e + 1));
        }
        (before, after, true)
    } else {
        proof {
            reveal_strlit("");
            assert(""@ =~= Seq::<char>::empty());
        }
        (s, "", false)
    }
}

proof fn lemma_pieces_shape(s: Seq<char>, sep: char)
    ensures
        split_pieces(s, sep).len() >= 1,
    decreases s.len(),
{
    if s.len() > 0 {
        lemma_pieces_shape(s.drop_last(), sep);
    }
}

proof fn lemma_pieces_segment(q: Seq<char>, start: int, end: int)
    requires
        0 <= start <= end <= q.len(),
        forall|j: int| start <= j < end ==> q[j] != '&',
        split_pieces(q.take(start), '&').len() >= 1,
        split_pieces(q.take(start), '&').last() == Seq::<char>::empty(),
    ensures
        split_pieces(q.take(end), '&') == split_pieces(q.take(start), '&').update(
            split_pieces(q.take(start), '&').len() - 1, q.subrange(start, end)),
    decreases end - start,
{
    let base = split_pieces(q.take(start), '&');
    if end == start {
        assert(q.subrange(start, end) =~= Seq::<char>::empty());
        assert(base.update(base.len() - 1, Seq::<char>::empty()) =~= base);
    } else {
        lemma_pieces_segment(q, start, end - 1);
        assert(q.take(end).drop_last() =~= q.take(end - 1));
        assert(q.take(end).last() == q[end - 1]);
        assert(q.subrange(start, end) =~= q.subrange(start, end - 1).push(q[end - 1]));
        let mid = split_pieces(q.take(end - 1), '&');
        assert(mid.last() == q.subrange(start, end - 1));
        assert(mid.update(mid.len() - 1, mid.last().push(q[end - 1]))
            =~= base.update(base.len() - 1, q.subrange(start, end)));
    }
}

proof fn lemma_pieces_extend(q: Seq<char>, m: int)
    requires
        0 <= m <= q.len(),
    ensures
        split_pieces(q, '&').len() >= split_pieces(q.take(m), '&').len(),
        forall|j: int| 0 <= j < split_pieces(q.take(m), '&').len() - 1
            ==> #[trigger] split_pieces(q, '&')[j] == split_pieces(q.take(m), '&')[j],
    decreases q.len() - m,
{
    lemma_pieces_shape(q.take(m), '&');
    if m < q.len() {
        lemma_pieces_extend(q, m + 1);
        assert(q.take(m + 1).drop_last() =~= q.take(m));
        assert(q.take(m + 1).last() == q[m]);
        let a = split_pieces(q.take(m), '&');
        let b = split_pieces(q.take(m + 1), '&');
        assert forall|j: int| 0 <= j < a.len() - 1 implies #[trigger] split_pieces(q, '&')[j] == a[j] by {
            assert(b[j] == a[j]);
        }
    } else {
        assert(q.take(m) =~= q);
    }
}

proof fn lemma_first_param_last(ps: Seq<Seq<char>>, key: Seq<char>)
    requires
        ps.len() >= 1,
        forall|j: int| 0 <= j < ps.len() - 1 ==> split_first(#[trigger] ps[j], '=').0 != key,
    ensures
        first_param(ps, key) == (if split_first(ps.last(), '=').0 == key {
            Some(split_first(ps.last(), '=').1)
        } else {
            None::<Seq<char>>
        }),
    decreases ps.len(),
{
    if ps.len() > 1 {
        let t = ps.drop_first();
        assert(split_first(ps[0], '=').0 != key);
        assert forall|j: int| 0 <= j < t.len() - 1 implies split_first(#[trigger] t[j], '=').0 != key by {
            assert(t[j] == ps[j + 1]);
        }
        lemma_first_param_last(t, key);
        assert(t.last() == ps.last());
    } else {
        assert(ps.drop_first().len() == 0);
        assert(first_param(ps.drop_first(), key) is None);
        assert(ps[0] == ps.last());
    }
}

proof fn lemma_first_param_prefix(ps: Seq<Seq<char>>, key: Seq<char>, i: int)
    requires
        0 <= i < ps.len(),
        forall|j: int| 0 <= j < i ==> split_first(#[trigger] ps[j], '=').0 != key,
        split_first(ps[i], '=').0 == key,
    ensures
        first_param(ps, key) == Some(split_first(ps[i], '=').1),
    decreases i,
{
    if i > 0 {
        let t = ps.drop_first();
        assert forall|j: int| 0 <= j < i - 1 implies split_first(#[trigger] t[j], '=').0 != key by {
            assert(t[j] == ps[j + 1]);
        }
        assert(t[i - 1] == ps[i]);
        assert(split_first(ps[0], '=').0 != key);
        lemma_first_param_prefix(t, key, i - 1);
    }
}

/// The value of a query parameter of a request path (see `spec_query_param`).
pub fn query_param(path: &str, key: &str) -> (r: Option<String>)
    ensures
        match r {
            Some(v) => spec_query_param(path@, key@) == Some(v@),
            None => spec_query_param(path@, key@) is None,
        },
{
    let (_, query, found) = split_once_exec(path, '?');
    if !found {
        return None;
    }
    let ghost q = query@;
    let n = query.unicode_len();
    let mut start: usize = 0;
    proof {
        assert(q.take(0) =~= Seq::<char>::empty());
        assert(split_pieces(q.take(0), '&') == seq![Seq::<char>::empty()]);
        assert(q.subrange(0, 0) =~= Seq::<char>::empty());
    }
    while start <= n
        invariant
            split_first(path@, '?').1 == q,
            split_first(path@, '?').2,
            start <= n,
            n == q.len(),
            q == query@,
            ({
                let ps = split_pieces(q.take(start as int), '&');
                &&& ps.len() >= 1
                &&& ps.last() == Seq::<char>::empty()
                &&& forall|j: int| 0 <= j < ps.len() - 1 ==> split_first(#[trigger] ps[j], '=').0 != key@
            }),
        decreases n - start,
    {
        let end = find_char(query, n, start, '&');
        let piece = query.substring_char(start, end);
        let ghost pv = q.subrange(start as int, end as int);
        proof {
            lemma_pieces_segment(q, start as int, end as int);
        }
        let (k, v, _) = split_once_exec(piece, '=');
        if str_eq(k, key) {
            proof {
                let base = split_pieces(q.take(start as int), '&');
                let ps = base.update(base.len() - 1, pv);
                assert(split_pieces(q.take(end as int), '&') == ps);
                assert(ps[ps.len() - 1] == pv);
                assert forall|j: int| 0 <= j < ps.len() - 1 implies split_first(#[trigger] ps[j], '=').0 != key@ by {
                    assert(ps[j] == base[j]);
                }
                let all = split_pieces(q, '&');
                if end < n {
                    assert(q.take(end + 1).drop_last() =~= q.take(end as int));
                    assert(q.take(end + 1).last() == q[end as int]);
                    assert(split_pieces(q.take(end + 1), '&') == ps.push(Seq::<char>::empty()));
                    lemma_pieces_extend(q, end + 1);
                    assert forall|j: int| 0 <= j < ps.len() - 1 implies split_first(#[trigger] all[j], '=').0 != key@ by {
                        assert(all[j] == ps.push(Seq::<char>::empty())[j]);
                    }
                    assert(all[ps.len() - 1] == ps.push(Seq::<char>::empty())[ps.len() - 1]);
                    lemma_first_param_prefix(all, key@, ps.len() - 1);
                } else {
                    assert(q.take(end as int) =~= q);
                    lemma_first_param_prefix(ps, key@, ps.len() - 1);
                }
            }
            return Some(String::from_str(v));
        }
        if end >= n {
            proof {
                let base = split_pieces(q.take(start as int), '&');
                let ps = base.update(base.len() - 1, pv);
                assert(q.take(end as int) =~= q);
                assert forall|j: int| 0 <= j < ps.len() - 1 implies split_first(#[trigger] ps[j], '=').0 != key@ by {
                    assert(ps[j] == base[j]);
                }
                lemma_first_param_last(ps, key@);
            }
            return None;
        }
        proof {
            let base = split_pieces(q.take(start as int), '&');
            let ps = base.update(base.len() - 1, pv);
            assert(q.take(end + 1).drop_last() =~= q.take(end as int));
            assert(q.take(end + 1).last() == q[end as int]);
            let next = split_pieces(q.take(end + 1), '&');
            assert(next == ps.push(Seq::<char>::empty()));
            assert forall|j: int| 0 <= j < next.len() - 1 implies split_first(#[trigger] next[j], '=').0 != key@ by {
                if j < ps.len() - 1 {
                    assert(next[j] == base[j]);
                } else {
                    assert(next[j] == pv);
                }
            }
        }
        start = end + 1;
    }
    None
}


/// A char allowed in a client instance id: an ASCII letter or digit, `-`,
/// `_` or `.`.
pub open spec fn instance_char(c: char) -> bool {
    ('a' <= c && c <= 'z') || ('A' <= c && c <= 'Z') || ('0' <= c && c <= '9') || c == '-' || c == '_' || c == '.'
}

/// The client instance id a connection keeps: the given one trimmed, when it
/// is at most 128 bytes of allowed chars; otherwise none (empty).
pub open spec fn spec_client_instance_id(value: Seq<char>) -> Seq<char> {
    let t = spec_trim(value);
    if vstd::utf8::encode_utf8(t).len() <= 128 && forall|i: int| 0 <= i < t.len() ==> instance_char(#[trigger] t[i]) {
        t
    } else {
        Seq::empty()
    }
}

/// The client instance id a connection keeps (see `spec_client_instance_id`).
pub fn sanitize_client_instance_id(value: &str) -> (r: String)
    ensures
        r@ == spec_client_instance_id(value@),
{
    let t = trim_text(value);
    if t.as_bytes().len() > 128 {
        return String::new();
    }
    let n = t.unicode_len();
    let mut i: usize = 0;
    while i < n
        invariant
            i <= n,
            n == t@.len(),
            t@ == spec_trim(value@),
            vstd::utf8::encode_utf8(t@).len() <= 128,
            forall|j: int| 0 <= j < i ==> instance_char(#[trigger] t@[j]),
        decreases n - i,
    {
        let c = t.get_char(i);
        let ok = ('a' <= c && c <= 'z') || ('A' <= c && c <= 'Z') || ('0' <= c && c <= '9')
            || c == '-' || c == '_' || c == '.';
        if !ok {
            assert(!instance_char(t@[i as int]));
            return String::new();
        }
        i = i + 1;
    }
    String::from_str(t)
}

/// How an outbound event was meant to be delivered.
#[derive(Clone, Copy, Debug, PartialEq, Eq, Structural)]
pub enum OutboundDeliveryMode {
    RequestResponse,
    Push,
}

impl OutboundDeliveryMode {
    pub open spec fn spec_name(self) -> Seq<char> {
        match self {
            OutboundDeliveryMode::RequestResponse => "request_response"@,
            OutboundDeliveryMode::Push => "push"@,
        }
    }

    /// The mode's name in logs.
    pub fn as_str(self) -> (r: &'static str)
        ensures
            r@ == self.spec_name(),
    {
        match self {
            OutboundDeliveryMode::RequestResponse => "request_response",
            OutboundDeliveryMode::Push => "push",
        }
    }
}

/// What an outbound event is: its delivery mode, request id and type.
#[derive(Clone, Debug)]
pub struct OutboundEventMeta {
    pub mode: OutboundDeliveryMode,
    pub request_id: Option<String>,
    pub event_type: Option<String>,
}

/// The plain view of an optional string.
pub open spec fn opt_seq(s: Option<String>) -> Option<Seq<char>> {
    match s {
        Some(x) => Some(x@),
        None => None,
    }
}

/// What an outbound event is, from its text parsed as JSON (`None` when it
/// does not parse): a request/response event when its `payload` has a
/// non-blank `request_id`, a push event otherwise; with the payload's
/// non-blank `request_id` and `type`, trimmed.
pub open spec fn spec_classify(parsed: Option<JsonValue>) -> (OutboundDeliveryMode, Option<Seq<char>>, Option<Seq<char>>) {
    match parsed {
        None => (OutboundDeliveryMode::Push, None, None),
        Some(v) => match json_get(v, "payload"@) {
            None => (OutboundDeliveryMode::Push, None, None),
            Some(p) => {
                let rid = non_blank(json_str(p, "request_id"@));
                let t = non_blank(json_str(p, "type"@));
                (if rid is Some { OutboundDeliveryMode::RequestResponse } else { OutboundDeliveryMode::Push }, rid, t)
            },
        },
    }
}

fn non_blank_owned(s: Option<&str>) -> (r: Option<String>)
    ensures
        opt_seq(r) == non_blank(match s { Some(x) => Some(x@), None => None }),
{
    match s {
        Some(x) => {
            let t = trim_text(x);
            if t.is_empty() { None } else { Some(String::from_str(t)) }
        }
        None => None,
    }
}

/// What an outbound event is (see `spec_classify`).
pub fn classify_outbound_event(parsed: Option<&JsonValue>) -> (r: OutboundEventMeta)
    ensures
        (r.mode, opt_seq(r.request_id), opt_seq(r.event_type))
            == spec_classify(match parsed { Some(v) => Some(*v), None => None }),
{
    let v = match parsed {
        Some(v) => v,
        None => { return OutboundEventMeta { mode: OutboundDeliveryMode::Push, request_id: None, event_type: None }; }
    };
    let payload = match v.get("payload") {
        Some(p) => p,
        None => { return OutboundEventMeta { mode: OutboundDeliveryMode::Push, request_id: None, event_type: None }; }
    };
    let request_id = non_blank_owned(payload.get_str("request_id"));
    let event_type = non_blank_owned(payload.get_str("type"));
    let mode = if request_id.is_some() { OutboundDeliveryMode::RequestResponse } else { OutboundDeliveryMode::Push };
    OutboundEventMeta { mode, request_id, event_type }
}


/// What follows a failed send of `text` to a connection whose subjects are
/// `subjects`: the event is classified (`parsed` is `text` read as JSON,
/// when it is JSON), and a push event is queued again for those subjects so
/// that their next connection gets it; a response is not replayed.
pub fn handle_failed_outbound(
    state: &mut GatewayState,
    subjects: &Vec<String>,
    text: String,
    parsed: Option<&JsonValue>,
) -> (r: OutboundEventMeta)
    requires
        old(state).wf(),
    ensures
        final(state).wf(),
        (r.mode, opt_seq(r.request_id), opt_seq(r.event_type))
            == spec_classify(match parsed { Some(v) => Some(*v), None => None }),
        r.mode == OutboundDeliveryMode::Push
            ==> exists|now: i64| final(state)@ == spec_requeue(old(state)@, strs(subjects@), text@, now),
        r.mode != OutboundDeliveryMode::Push ==> final(state)@ == old(state)@,
{
    let meta = classify_outbound_event(parsed);
    if meta.mode == OutboundDeliveryMode::Push {
        state.requeue_for_subjects(subjects, text);
    }
    meta
}


/// What a WebSocket auth message gives: its token and client instance id
/// (empty when absent). A message whose `type` is not `auth` is an invalid
/// token; one without a string `token` a missing one.
pub fn read_websocket_auth(payload: &JsonValue) -> (r: Result<(String, String), AuthError>)
    ensures
        match r {
            Ok((token, instance)) => json_str(*payload, "type"@) == Some("auth"@)
                && json_str(*payload, "token"@) == Some(token@)
                && instance@ == (match json_str(*payload, "client_instance_id"@) {
                    Some(c) => c,
                    None => Seq::<char>::empty(),
                }),
            Err(e) => if json_str(*payload, "type"@) != Some("auth"@) {
                e == AuthError::InvalidToken
            } else {
                e == AuthError::MissingToken && json_str(*payload, "token"@) is None
            },
        },
{
    let is_auth = match payload.get_str("type") {
        Some(t) => str_eq(t, "auth"),
        None => false,
    };
    if !is_auth {
        return Err(AuthError::InvalidToken);
    }
    let token = match payload.get_str("token") {
        Some(t) => String::from_str(t),
        None => { return Err(AuthError::MissingToken); }
    };
    let instance = match payload.get_str("client_instance_id") {
        Some(c) => String::from_str(c),
        None => String::new(),
    };
    Ok((token, instance))
}

} // verus!
