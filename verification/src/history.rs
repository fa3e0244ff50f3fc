//! History Buffer: the bounded, shared, in-memory record of the most recent
//! messages, oldest first. New sessions replay a snapshot of it; every
//! accepted message is appended, evicting the oldest once the configured
//! capacity is exceeded.

use vstd::prelude::*;

use crate::message::ChatMessage;
use crate::message::MsgView;
use crate::message::bounded_snoc;
use crate::message::clone_message;
use crate::message::msg_views;

verus! {

/// What seeding from the durable store yields: the first `cap` records of a
/// newest-first listing, put back into chronological order.
pub open spec fn seeded(records: Seq<MsgView>, cap: int) -> Seq<MsgView> {
    let k = if records.len() <= cap {
        records.len() as int
    } else {
        cap
    };
    records.take(k).reverse()
}

/// What the durable store lists for seeding: its `limit` most recent
/// insertions, newest first.
pub open spec fn recent_newest_first(inserted: Seq<MsgView>, limit: int) -> Seq<MsgView> {
    let k = if inserted.len() <= limit {
        inserted.len() as int
    } else {
        limit
    };
    inserted.skip(inserted.len() - k).reverse()
}

/// Bounded in-memory history of the most recent messages, oldest first.
pub struct HistoryBuffer {
    cap: usize,
    items: Vec<ChatMessage>,
}

impl View for HistoryBuffer {
    type V = Seq<MsgView>;

    closed spec fn view(&self) -> Seq<MsgView> {
        msg_views(self.items@)
    }
}

impl HistoryBuffer {
    /// The configured capacity (`max_history`).
    pub closed spec fn capacity(&self) -> int {
        self.cap as int
    }

    /// Invariant: the buffer never holds more than its capacity, and the
    /// capacity is at least one.
    pub open spec fn wf(&self) -> bool {
        1 <= self.capacity() && self@.len() <= self.capacity()
    }

    /// An empty buffer with capacity `cap`.
    pub fn new(cap: usize) -> (r: HistoryBuffer)
        requires
            cap >= 1,
        ensures
            r.wf(),
            r.capacity() == cap,
            r@ =~= Seq::<MsgView>::empty(),
    {
        HistoryBuffer { cap, items: Vec::new() }
    }

    /// A buffer seeded from the durable store's newest-first listing: the
    /// `cap` most recent records, oldest first.
    pub fn seed(cap: usize, records: &Vec<ChatMessage>) -> (r: HistoryBuffer)
        requires
            cap >= 1,
        ensures
            r.wf(),
            r.capacity() == cap,
            r@ == seeded(msg_views(records@), cap as int),
    {
        let k: usize = if records.len() <= cap {
            records.len()
        } else {
            cap
        };
        let mut items: Vec<ChatMessage> = Vec::new();
        let mut j: usize = 0;
        while j < k
            invariant
                j <= k <= records@.len(),
                items@.len() == j,
                forall|t: int| 0 <= t < j ==> (#[trigger] items@[t])@ == records@[k - 1 - t]@,
            decreases k - j,
        {
            items.push(clone_message(&records[k - 1 - j]));
            j = j + 1;
        }
        let r = HistoryBuffer { cap, items };
        proof {
            assert(r@ =~= seeded(msg_views(records@), cap as int));
        }
        r
    }

    /// Appends at the end; once the buffer is full the oldest entry is
    /// evicted, so the length never exceeds the capacity.
    pub fn append(&mut self, m: ChatMessage)
        requires
            old(self).wf(),
        ensures
            final(self).wf(),
            final(self).capacity() == old(self).capacity(),
            final(self)@ == bounded_snoc(old(self)@, m@, old(self).capacity()),
    {
        self.items.push(m);
        if self.items.len() > self.cap {
            self.items.remove(0);
        }
        proof {
            assert(final(self)@ =~= bounded_snoc(old(self)@, m@, old(self).capacity()));
        }
    }

    /// A point-in-time copy of the buffer, oldest first, for replay to a
    /// newly connected session.
    pub fn snapshot(&self) -> (r: Vec<ChatMessage>)
        ensures
            msg_views(r@) == self@,
    {
        let mut out: Vec<ChatMessage> = Vec::new();
        let mut i: usize = 0;
        while i < self.items.len()
            invariant
                i <= self.items@.len(),
                out@.len() == i,
                forall|t: int| 0 <= t < i ==> (#[trigger] out@[t])@ == self.items@[t]@,
            decreases self.items@.len() - i,
        {
            out.push(clone_message(&self.items[i]));
            i = i + 1;
        }
        proof {
            assert(msg_views(out@) =~= self@);
        }
        out
    }
}

/// After any append the length stays within the capacity: one step of the
/// History Buffer invariant.
pub proof fn lemma_bounded_snoc_len(q: Seq<MsgView>, m: MsgView, cap: int)
    requires
        cap >= 1,
    ensures
        bounded_snoc(q, m, cap).len() <= if q.len() + 1 <= cap {
            q.len() + 1
        } else {
            cap as nat
        },
{
}

/// Appending to a full buffer evicts the oldest entry: afterwards the value
/// that stood at the front is absent, provided it stood nowhere else and the
/// new message differs from it. (With duplicates — the same value also later
/// in the buffer — a copy of it survives, so the claim is stated without
/// those inputs.)
pub proof fn lemma_append_evicts_oldest(q: Seq<MsgView>, m: MsgView, cap: int)
    requires
        q.len() == cap,
        cap >= 1,
        forall|i: int| 1 <= i < q.len() ==> #[trigger] q[i] != q[0],
        m != q[0],
    ensures
        bounded_snoc(q, m, cap).len() == cap,
        !bounded_snoc(q, m, cap).contains(q[0]),
{
    let e = bounded_snoc(q, m, cap);
    assert(e =~= q.push(m).skip(1));
    assert forall|j: int| 0 <= j < e.len() implies e[j] != q[0] by {
        assert(e[j] == q.push(m)[j + 1]);
    }
    if e.contains(q[0]) {
        let j = choose|j: int| 0 <= j < e.len() && e[j] == q[0];
        assert(false);
    }
}

/// Loading the most recent records from the durable store, seeding the
/// buffer with them, and taking a snapshot yields exactly the records in
/// the order they were originally inserted into the store.
pub proof fn lemma_seed_preserves_store_order(inserted: Seq<MsgView>, cap: int)
    requires
        cap >= 1,
    ensures
        seeded(recent_newest_first(inserted, cap), cap) == inserted.skip(
            if inserted.len() <= cap {
                0
            } else {
                inserted.len() - cap
            },
        ),
{
    let k = if inserted.len() <= cap {
        inserted.len() as int
    } else {
        cap
    };
    let r = recent_newest_first(inserted, cap);
    let tail = inserted.skip(inserted.len() - k);
    assert(r.len() == k);
    assert(r.take(k) =~= r);
    assert(seeded(r, cap) =~= tail) by {
        assert forall|t: int| 0 <= t < k implies seeded(r, cap)[t] == tail[t] by {
            assert(seeded(r, cap)[t] == r.take(k)[k - 1 - t]);
            assert(r[k - 1 - t] == tail[k - 1 - (k - 1 - t)]);
        }
    }
}

} // verus!
