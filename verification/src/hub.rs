//! Broadcast Hub: one logical publish point fanned out to independent
//! subscriber queues. Each queue is bounded; when a slow subscriber's queue
//! is full, that subscriber's oldest unread messages are dropped to make
//! room, and no other subscriber is affected. A subscription receives only
//! what is published after it was created.

use vstd::prelude::*;

use crate::message::ChatMessage;
use crate::message::MsgView;
use crate::message::bounded_snoc;
use crate::message::clone_message;
use crate::message::msg_views;

verus! {

/// The queue a subscriber ends with after the messages `ms` are published
/// in order into a queue starting as `q`, under drop-oldest capacity `cap`.
pub open spec fn fold_publish(q: Seq<MsgView>, ms: Seq<MsgView>, cap: int) -> Seq<MsgView>
    decreases ms.len(),
{
    if ms.len() == 0 {
        q
    } else {
        fold_publish(bounded_snoc(q, ms[0], cap), ms.skip(1), cap)
    }
}

/// Publishing one more message is one more bounded append at the end.
pub proof fn lemma_fold_publish_snoc(q: Seq<MsgView>, ms: Seq<MsgView>, m: MsgView, cap: int)
    ensures
        fold_publish(q, ms.push(m), cap) == bounded_snoc(fold_publish(q, ms, cap), m, cap),
    decreases ms.len(),
{
    if ms.len() == 0 {
        assert(ms.push(m)[0] == m);
        assert(ms.push(m).skip(1) =~= Seq::<MsgView>::empty());
        assert(fold_publish(q, ms.push(m), cap) == fold_publish(
            bounded_snoc(q, m, cap),
            Seq::<MsgView>::empty(),
            cap,
        ));
        assert(fold_publish(bounded_snoc(q, m, cap), Seq::<MsgView>::empty(), cap)
            == bounded_snoc(q, m, cap));
        assert(fold_publish(q, ms, cap) == q);
    } else {
        assert(ms.push(m)[0] == ms[0]);
        assert(ms.push(m).skip(1) =~= ms.skip(1).push(m));
        assert(fold_publish(q, ms.push(m), cap) == fold_publish(
            bounded_snoc(q, ms[0], cap),
            ms.skip(1).push(m),
            cap,
        ));
        lemma_fold_publish_snoc(bounded_snoc(q, ms[0], cap), ms.skip(1), m, cap);
        assert(fold_publish(q, ms, cap) == fold_publish(
            bounded_snoc(q, ms[0], cap),
            ms.skip(1),
            cap,
        ));
    }
}

/// A subscriber whose queue never overflows receives every published
/// message, in publish order, after what it already held.
pub proof fn lemma_fold_publish_no_overflow(q: Seq<MsgView>, ms: Seq<MsgView>, cap: int)
    requires
        q.len() + ms.len() <= cap,
    ensures
        fold_publish(q, ms, cap) == q + ms,
    decreases ms.len(),
{
    if ms.len() == 0 {
        assert(fold_publish(q, ms, cap) =~= q + ms);
    } else {
        assert(bounded_snoc(q, ms[0], cap) == q.push(ms[0]));
        lemma_fold_publish_no_overflow(q.push(ms[0]), ms.skip(1), cap);
        assert(q.push(ms[0]) + ms.skip(1) =~= q + ms);
    }
}

/// A subscriber subscribed before `ms` were published starts with an empty
/// queue and, with room for all of them, receives exactly `ms` in publish
/// order (no induced overflow).
pub proof fn lemma_subscriber_receives_all(ms: Seq<MsgView>, cap: int)
    requires
        ms.len() <= cap,
    ensures
        fold_publish(Seq::<MsgView>::empty(), ms, cap) == ms,
{
    lemma_fold_publish_no_overflow(Seq::<MsgView>::empty(), ms, cap);
    assert(Seq::<MsgView>::empty() + ms =~= ms);
}

/// One subscriber's pending queue, oldest first.
pub struct Subscriber {
    cap: usize,
    queue: Vec<ChatMessage>,
}

impl View for Subscriber {
    type V = Seq<MsgView>;

    closed spec fn view(&self) -> Seq<MsgView> {
        msg_views(self.queue@)
    }
}

impl Subscriber {
    /// The queue bound this subscriber was created with.
    pub closed spec fn capacity(&self) -> int {
        self.cap as int
    }

    /// Invariant: the pending queue stays within its bound.
    pub open spec fn wf(&self) -> bool {
        1 <= self.capacity() && self@.len() <= self.capacity()
    }

    /// Appends one delivery, dropping this subscriber's oldest pending
    /// message if the queue is full.
    fn push_bounded(&mut self, m: ChatMessage)
        requires
            old(self).wf(),
        ensures
            final(self).wf(),
            final(self).capacity() == old(self).capacity(),
            final(self)@ == bounded_snoc(old(self)@, m@, old(self).capacity()),
    {
        self.queue.push(m);
        if self.queue.len() > self.cap {
            self.queue.remove(0);
        }
        proof {
            assert(self@ =~= bounded_snoc(old(self)@, m@, old(self).capacity()));
        }
    }

    /// Takes everything pending, leaving the queue empty.
    fn take_pending(&mut self) -> (r: Vec<ChatMessage>)
        ensures
            final(self).capacity() == old(self).capacity(),
            msg_views(r@) == old(self)@,
            final(self)@ =~= Seq::<MsgView>::empty(),
    {
        let mut q: Vec<ChatMessage> = Vec::new();
        core::mem::swap(&mut self.queue, &mut q);
        q
    }
}

/// The fan-out hub: the set of live subscriber queues and the bound each
/// queue is created with.
pub struct Hub {
    qcap: usize,
    subs: Vec<Subscriber>,
}

impl Hub {
    /// The bound of every subscriber queue.
    pub closed spec fn queue_cap(&self) -> int {
        self.qcap as int
    }

    /// The pending queues of all current subscribers, in subscription order.
    pub closed spec fn queues(&self) -> Seq<Seq<MsgView>> {
        Seq::new(self.subs@.len(), |i: int| self.subs@[i]@)
    }

    /// Invariant: every subscriber queue is within the common bound.
    pub closed spec fn wf(&self) -> bool {
        &&& 1 <= self.queue_cap()
        &&& forall|i: int|
            0 <= i < self.subs@.len() ==> (#[trigger] self.subs@[i]).wf()
                && self.subs@[i].capacity() == self.queue_cap()
    }

    /// A hub with no subscribers; each later subscriber's queue will hold at
    /// most `queue_cap` pending messages.
    pub fn new(queue_cap: usize) -> (r: Hub)
        requires
            queue_cap >= 1,
        ensures
            r.wf(),
            r.queue_cap() == queue_cap,
            r.queues() =~= Seq::<Seq<MsgView>>::empty(),
    {
        Hub { qcap: queue_cap, subs: Vec::new() }
    }

    /// Creates a subscription. Its queue starts empty: nothing published
    /// before this call is ever delivered through it. Returns the
    /// subscriber's handle; existing queues are untouched.
    pub fn subscribe(&mut self) -> (id: usize)
        requires
            old(self).wf(),
        ensures
            final(self).wf(),
            final(self).queue_cap() == old(self).queue_cap(),
            id == old(self).queues().len(),
            final(self).queues() == old(self).queues().push(Seq::<MsgView>::empty()),
    {
        let id = self.subs.len();
        self.subs.push(Subscriber { cap: self.qcap, queue: Vec::new() });
        proof {
            assert(self.queues() =~~= old(self).queues().push(Seq::<MsgView>::empty()));
        }
        id
    }

    /// Delivers `m` to every current subscriber's queue, dropping the
    /// oldest pending message of any queue that is full — only that
    /// subscriber loses anything, and the publisher never waits.
    pub fn publish(&mut self, m: &ChatMessage)
        requires
            old(self).wf(),
        ensures
            final(self).wf(),
            final(self).queue_cap() == old(self).queue_cap(),
            final(self).queues().len() == old(self).queues().len(),
            forall|k: int|
                0 <= k < old(self).queues().len() ==> final(self).queues()[k] == bounded_snoc(
                    #[trigger] old(self).queues()[k],
                    m@,
                    old(self).queue_cap(),
                ),
    {
        let n = self.subs.len();
        let mut i: usize = 0;
        while i < n
            invariant
                old(self).wf(),
                i <= n == self.subs@.len() == old(self).subs@.len(),
                self.qcap == old(self).qcap,
                forall|k: int| i <= k < n ==> self.subs@[k] == old(self).subs@[k],
                forall|k: int|
                    0 <= k < i ==> (#[trigger] self.queues()[k]) == bounded_snoc(
                        old(self).queues()[k],
                        m@,
                        old(self).queue_cap(),
                    ),
                forall|k: int|
                    0 <= k < i ==> (#[trigger] self.subs@[k]).wf() && self.subs@[k].capacity()
                        == old(self).queue_cap(),
            decreases n - i,
        {
            let msg = clone_message(m);
            let ghost prev = *self;
            let sub = &mut self.subs[i];
            sub.push_bounded(msg);
            proof {
                assert(self.subs@ == prev.subs@.update(i as int, self.subs@[i as int]));
                assert(prev.subs@[i as int] == old(self).subs@[i as int]);
                assert(self.queues()[i as int] == bounded_snoc(
                    old(self).queues()[i as int],
                    m@,
                    old(self).queue_cap(),
                ));
                assert(forall|k: int|
                    0 <= k < self.subs@.len() && k != i ==> #[trigger] self.subs@[k]
                        == prev.subs@[k]);
                assert forall|k: int| 0 <= k < i implies #[trigger] self.queues()[k]
                    == prev.queues()[k] by {
                    assert(self.subs@[k] == prev.subs@[k]);
                }
            }
            i = i + 1;
        }
    }

    /// Publishes every message of `msgs`, in order. Each subscriber's queue
    /// ends exactly as the fold of bounded appends says; in particular a
    /// subscriber with room for all of them receives all of them in order.
    pub fn publish_all(&mut self, msgs: &Vec<ChatMessage>)
        requires
            old(self).wf(),
        ensures
            final(self).wf(),
            final(self).queue_cap() == old(self).queue_cap(),
            final(self).queues().len() == old(self).queues().len(),
            forall|k: int|
                0 <= k < old(self).queues().len() ==> final(self).queues()[k] == fold_publish(
                    #[trigger] old(self).queues()[k],
                    msg_views(msgs@),
                    old(self).queue_cap(),
                ),
    {
        let mut j: usize = 0;
        while j < msgs.len()
            invariant
                old(self).wf(),
                self.wf(),
                j <= msgs@.len(),
                self.queue_cap() == old(self).queue_cap(),
                self.queues().len() == old(self).queues().len(),
                forall|k: int|
                    0 <= k < old(self).queues().len() ==> (#[trigger] self.queues()[k])
                        == fold_publish(
                        old(self).queues()[k],
                        msg_views(msgs@).take(j as int),
                        old(self).queue_cap(),
                    ),
            decreases msgs@.len() - j,
        {
            let ghost qs = self.queues();
            self.publish(&msgs[j]);
            proof {
                let ms = msg_views(msgs@);
                assert(ms.take(j + 1) =~= ms.take(j as int).push(ms[j as int]));
                assert forall|k: int| 0 <= k < old(self).queues().len() implies (
                #[trigger] self.queues()[k]) == fold_publish(
                    old(self).queues()[k],
                    ms.take(j + 1),
                    old(self).queue_cap(),
                ) by {
                    assert(qs[k] == fold_publish(
                        old(self).queues()[k],
                        ms.take(j as int),
                        old(self).queue_cap(),
                    ));
                    assert(self.queues()[k] == bounded_snoc(
                        qs[k],
                        msgs@[j as int]@,
                        old(self).queue_cap(),
                    ));
                    lemma_fold_publish_snoc(
                        old(self).queues()[k],
                        ms.take(j as int),
                        ms[j as int],
                        old(self).queue_cap(),
                    );
                    assert(ms[j as int] == msgs@[j as int]@);
                }
            }
            j = j + 1;
        }
        proof {
            assert(msg_views(msgs@).take(msgs@.len() as int) =~= msg_views(msgs@));
        }
    }

    /// Takes (and empties) the pending queue of subscriber `id`: what that
    /// subscriber receives, in publish order.
    pub fn drain(&mut self, id: usize) -> (r: Vec<ChatMessage>)
        requires
            old(self).wf(),
            id < old(self).queues().len(),
        ensures
            final(self).wf(),
            final(self).queue_cap() == old(self).queue_cap(),
            msg_views(r@) == old(self).queues()[id as int],
            final(self).queues() == old(self).queues().update(
                id as int,
                Seq::<MsgView>::empty(),
            ),
    {
        let q = self.subs[id].take_pending();
        proof {
            assert(msg_views(q@) == old(self).queues()[id as int]);
            assert(self.queues() =~= old(self).queues().update(
                id as int,
                Seq::<MsgView>::empty(),
            ));
        }
        q
    }
}

} // verus!
