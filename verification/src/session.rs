//! Session: what one connection's state machine decides on each event.
//!
//! A session is `Connecting` until the Origin Guard admits it and a hub
//! subscription exists, `Active` while frames flow, and `Closed` after a
//! close frame. The decisions here are pure: the runtime performs the
//! returned action (publish, reply, close) and owns the actual socket.

use vstd::prelude::*;

use crate::codec::encode_message;
use crate::codec::parse_inbound;
use crate::codec::parse_inbound_spec;
use crate::codec::wire_bytes;
use crate::hub::Hub;
use crate::message::ChatMessage;
use crate::message::MsgView;
use crate::message::clone_bytes;
use crate::origin::AllowedOrigins;
use crate::origin::opt_bytes;

verus! {

/// Connection lifecycle.
#[derive(Clone, Copy, Debug, PartialEq, Eq, Structural)]
pub enum SessionState {
    Connecting,
    Active,
    Closed,
}

/// One protocol event delivered by the connection.
pub enum Frame {
    /// A text frame: an untrusted candidate message.
    Text(Vec<u8>),
    /// A keepalive probe with its payload.
    Ping(Vec<u8>),
    /// A close frame from the client.
    Close,
    /// Anything else (binary, pong, continuation): carries no duty.
    Other,
}

/// What the runtime must do after a frame was handled.
pub enum FrameAction {
    /// Append this record to the history buffer, persist it if a durable
    /// store is enabled, and publish it to the hub.
    Broadcast(ChatMessage),
    /// Answer the keepalive with the same payload.
    Pong(Vec<u8>),
    /// Echo the close frame, then terminate the session.
    CloseReply,
    /// Do nothing; the connection stays as it is.
    Ignore,
}

/// Handles one inbound frame of an `Active` session: a structurally valid
/// text frame becomes a broadcast of the record stamped with the server
/// time `now`; an invalid one is ignored and changes nothing; a ping is
/// answered; a close moves the session to `Closed`. A session not `Active`
/// ignores every frame.
pub fn session_on_frame(state: &SessionState, frame: &Frame, now: i64) -> (r: (
    SessionState,
    FrameAction,
))
    ensures
        *state is Active ==> match frame {
            Frame::Text(b) => match parse_inbound_spec(b@) {
                Option::Some(p) => r.1 matches FrameAction::Broadcast(m) && m@ == (MsgView {
                    user: p.0,
                    text: p.1,
                    ts: now as int,
                }) && r.0 is Active,
                Option::None => r.1 is Ignore && r.0 is Active,
            },
            Frame::Ping(p) => r.1 matches FrameAction::Pong(q) && q@ == p@ && r.0 is Active,
            Frame::Close => r.1 is CloseReply && r.0 is Closed,
            Frame::Other => r.1 is Ignore && r.0 is Active,
        },
        !(*state is Active) ==> r.1 is Ignore && r.0 == *state,
{
    match state {
        SessionState::Active => match frame {
            Frame::Text(b) => match parse_inbound(b) {
                Option::Some(inb) => (
                    SessionState::Active,
                    FrameAction::Broadcast(
                        ChatMessage { user: inb.user, text: inb.text, ts: now },
                    ),
                ),
                Option::None => (SessionState::Active, FrameAction::Ignore),
            },
            Frame::Ping(p) => (SessionState::Active, FrameAction::Pong(clone_bytes(p))),
            Frame::Close => (SessionState::Closed, FrameAction::CloseReply),
            Frame::Other => (SessionState::Active, FrameAction::Ignore),
        },
        _ => (*state, FrameAction::Ignore),
    }
}

/// The accept step: checks the declared origin before anything is
/// allocated. Refused: no subscription is created, the hub is untouched,
/// and the runtime answers forbidden. Admitted: a subscription is created
/// and the session enters `Active`.
pub fn session_accept(origins: &AllowedOrigins, origin: Option<&Vec<u8>>, hub: &mut Hub) -> (r:
    Option<(usize, SessionState)>)
    requires
        old(hub).wf(),
    ensures
        final(hub).wf(),
        final(hub).queue_cap() == old(hub).queue_cap(),
        match r {
            Option::None => !origins.allows(opt_bytes(origin)) && *final(hub) == *old(hub),
            Option::Some(p) => {
                &&& origins.allows(opt_bytes(origin))
                &&& p.1 is Active
                &&& p.0 == old(hub).queues().len()
                &&& final(hub).queues() == old(hub).queues().push(Seq::<MsgView>::empty())
            },
        },
{
    if !origins.is_allowed(origin) {
        return None;
    }
    let id = hub.subscribe();
    Some((id, SessionState::Active))
}

/// The frames replayed to a session entering `Active`: every message of the
/// history snapshot, serialized in order.
pub fn replay_frames(snapshot: &Vec<ChatMessage>) -> (r: Vec<Vec<u8>>)
    ensures
        r@.len() == snapshot@.len(),
        forall|i: int| 0 <= i < snapshot@.len() ==> (#[trigger] r@[i])@ == wire_bytes(
            snapshot@[i]@,
        ),
{
    let mut out: Vec<Vec<u8>> = Vec::new();
    let mut i: usize = 0;
    while i < snapshot.len()
        invariant
            i <= snapshot@.len(),
            out@.len() == i,
            forall|k: int| 0 <= k < i ==> (#[trigger] out@[k])@ == wire_bytes(snapshot@[k]@),
        decreases snapshot@.len() - i,
    {
        out.push(encode_message(&snapshot[i]));
        i = i + 1;
    }
    out
}

/// A hub delivery is forwarded to the session's own connection serialized
/// exactly like any other wire frame — a publisher sees its own message
/// echoed like every other subscriber.
pub fn forward_frame(m: &ChatMessage) -> (r: Vec<u8>)
    ensures
        r@ == wire_bytes(m@),
{
    encode_message(m)
}

} // verus!
