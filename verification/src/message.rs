//! The chat record and the untrusted inbound shape.
//!
//! Text is carried as UTF-8 bytes: the wire format, the history buffer and
//! the hub all see the same byte-level value, so contracts over `Seq<u8>`
//! describe exactly what a client receives.

use vstd::prelude::*;

verus! {

/// Mathematical value of a chat record.
pub ghost struct MsgView {
    pub user: Seq<u8>,
    pub text: Seq<u8>,
    pub ts: int,
}

/// A chat record: who sent it, what they said, and the server-assigned
/// unix timestamp (seconds). Immutable once created.
#[derive(Clone, Debug)]
pub struct ChatMessage {
    pub user: Vec<u8>,
    pub text: Vec<u8>,
    pub ts: i64,
}

impl View for ChatMessage {
    type V = MsgView;

    open spec fn view(&self) -> MsgView {
        MsgView { user: self.user@, text: self.text@, ts: self.ts as int }
    }
}

/// The untrusted wire shape of a client submission: no timestamp; the server
/// assigns one on acceptance.
#[derive(Clone, Debug)]
pub struct InboundMessage {
    pub user: Vec<u8>,
    pub text: Vec<u8>,
}

/// The record values of a sequence of records.
pub open spec fn msg_views(s: Seq<ChatMessage>) -> Seq<MsgView> {
    Seq::new(s.len(), |i: int| s[i]@)
}

/// Append at the end of a bounded queue, evicting from the front whatever
/// exceeds `cap` (FIFO drop-oldest).
pub open spec fn bounded_snoc(q: Seq<MsgView>, m: MsgView, cap: int) -> Seq<MsgView> {
    let e = q.push(m);
    if e.len() <= cap {
        e
    } else {
        e.skip(e.len() - cap)
    }
}

/// Copy a byte string.
pub fn clone_bytes(v: &Vec<u8>) -> (r: Vec<u8>)
    ensures
        r@ == v@,
{
    let mut out: Vec<u8> = Vec::new();
    let mut i: usize = 0;
    while i < v.len()
        invariant
            i <= v@.len(),
            out@ == v@.take(i as int),
        decreases v@.len() - i,
    {
        out.push(v[i]);
        i = i + 1;
        proof {
            assert(out@ =~= v@.take(i as int));
        }
    }
    proof {
        assert(v@.take(v@.len() as int) =~= v@);
    }
    out
}

/// Copy a record; the copy has the same value.
pub fn clone_message(m: &ChatMessage) -> (r: ChatMessage)
    ensures
        r@ == m@,
{
    ChatMessage { user: clone_bytes(&m.user), text: clone_bytes(&m.text), ts: m.ts }
}

} // verus!
