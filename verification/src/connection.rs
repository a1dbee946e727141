//! Connections: their public description, the messages queued to them and
//! the tokio channel that carries those messages to the transport task.

use vstd::prelude::*;
use tokio::sync::mpsc::{UnboundedReceiver, UnboundedSender};
use crate::text::strs;

verus! {

#[verifier::external_type_specification]
#[verifier::external_body]
#[verifier::reject_recursive_types(T)]
pub struct ExUnboundedSender<T>(UnboundedSender<T>);

#[verifier::external_type_specification]
#[verifier::external_body]
#[verifier::reject_recursive_types(T)]
pub struct ExUnboundedReceiver<T>(UnboundedReceiver<T>);

/// A message for the transport task of one connection.
#[derive(Clone, Debug)]
pub enum OutboundMessage {
    Text(String),
    Close { code: u16, reason: String },
}

/// A message handed to a connection's channel, as plain values.
pub enum HandedMessage {
    Text(Seq<char>),
    Close { code: u16, reason: Seq<char> },
}

impl View for OutboundMessage {
    type V = HandedMessage;

    open spec fn view(&self) -> HandedMessage {
        match self {
            OutboundMessage::Text(t) => HandedMessage::Text(t@),
            OutboundMessage::Close { code, reason } => HandedMessage::Close { code: *code, reason: reason@ },
        }
    }
}

/// One message handed to the channel of connection `connection_id`.
pub struct Handoff {
    pub connection_id: Seq<char>,
    pub message: HandedMessage,
}

/// The text `text` handed to each connection of `ids`, in order.
pub open spec fn texts_to(ids: Seq<Seq<char>>, text: Seq<char>) -> Seq<Handoff> {
    Seq::new(ids.len(), |i: int| Handoff { connection_id: ids[i], message: HandedMessage::Text(text) })
}

/// Each text of `texts`, in order, handed to connection `id`.
pub open spec fn texts_for(id: Seq<char>, texts: Seq<Seq<char>>) -> Seq<Handoff> {
    Seq::new(texts.len(), |i: int| Handoff { connection_id: id, message: HandedMessage::Text(texts[i]) })
}

/// A close request with `code` and `reason` handed to each connection of
/// `ids`, in order.
pub open spec fn closes_to(ids: Seq<Seq<char>>, code: u16, reason: Seq<char>) -> Seq<Handoff> {
    Seq::new(ids.len(), |i: int| Handoff { connection_id: ids[i], message: HandedMessage::Close { code, reason } })
}

/// How many connections a dispatch reached and how many accepted the message.
#[derive(Clone, Copy, Debug)]
pub struct DispatchResult {
    pub attempted_count: usize,
    pub enqueued_count: usize,
}

impl Default for DispatchResult {
    fn default() -> (r: Self)
        ensures
            r.attempted_count == 0,
            r.enqueued_count == 0,
    {
        DispatchResult { attempted_count: 0, enqueued_count: 0 }
    }
}

/// Copies a list of strings.
pub fn clone_strings(v: &Vec<String>) -> (r: Vec<String>)
    ensures
        r@ == v@,
{
    let mut r: Vec<String> = Vec::new();
    let mut i: usize = 0;
    while i < v.len()
        invariant
            i <= v@.len(),
            r@ == v@.take(i as int),
        decreases v@.len() - i,
    {
        r.push(v[i].clone());
        i = i + 1;
        assert(r@ =~= v@.take(i as int));
    }
    assert(v@.take(v@.len() as int) =~= v@);
    r
}

/// A registered connection as the gateway describes it.
#[derive(Clone, Debug)]
pub struct ConnectionInfo {
    pub connection_id: String,
    pub user_id: String,
    pub client_instance_id: String,
    pub subjects: Vec<String>,
    pub connected_at: i64,
    pub last_seen_at: i64,
}

/// A connection's description as plain values.
pub struct ConnectionInfoView {
    pub connection_id: Seq<char>,
    pub user_id: Seq<char>,
    pub client_instance_id: Seq<char>,
    pub subjects: Seq<Seq<char>>,
    pub connected_at: i64,
    pub last_seen_at: i64,
}

impl View for ConnectionInfo {
    type V = ConnectionInfoView;

    open spec fn view(&self) -> ConnectionInfoView {
        ConnectionInfoView {
            connection_id: self.connection_id@,
            user_id: self.user_id@,
            client_instance_id: self.client_instance_id@,
            subjects: strs(self.subjects@),
            connected_at: self.connected_at,
            last_seen_at: self.last_seen_at,
        }
    }
}

impl ConnectionInfo {
    /// A copy of this description.
    pub fn duplicate(&self) -> (r: ConnectionInfo)
        ensures
            r@ == self@,
    {
        ConnectionInfo {
            connection_id: self.connection_id.clone(),
            user_id: self.user_id.clone(),
            client_instance_id: self.client_instance_id.clone(),
            subjects: clone_strings(&self.subjects),
            connected_at: self.connected_at,
            last_seen_at: self.last_seen_at,
        }
    }
}

/// The descriptions of a list of connections.
pub open spec fn info_views(v: Seq<ConnectionInfo>) -> Seq<ConnectionInfoView> {
    v.map_values(|c: ConnectionInfo| c@)
}

/// Calls `tokio::sync::mpsc::unbounded_channel`, which creates a new channel
/// and returns its sending and receiving halves. Nothing is stated of them.
#[verifier::external_body]
pub(crate) fn outbound_channel() -> (UnboundedSender<OutboundMessage>, UnboundedReceiver<OutboundMessage>) {
    tokio::sync::mpsc::unbounded_channel()
}

/// Calls `UnboundedSender::send` and reports whether it returned `Ok`.
/// The outcome depends on whether the receiving half is still open, which
/// the library does not track, so nothing is stated of it.
#[verifier::external_body]
pub(crate) fn outbound_send(sender: &UnboundedSender<OutboundMessage>, message: OutboundMessage) -> bool {
    sender.send(message).is_ok()
}

} // verus!
