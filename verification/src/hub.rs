//! The broadcast hub: a bounded multi-producer, multi-subscriber
//! channel delivering one table's events to every subscriber in the
//! order they were published.
//!
//! The model keeps the total log of everything ever published; only
//! the most recent `capacity` events remain buffered. A subscriber is
//! a cursor into the log: it receives events in log order, exactly
//! once each, except that a subscriber who falls behind the buffer
//! observes a lag signal and is repositioned to the oldest retained
//! event — the events in between are lost to it.

use vstd::prelude::*;
use crate::msg::ClientMessage;
use crate::msg::copy_message;
use crate::msg::views_of;

verus! {

/// Default bound on the hub's buffer.
pub const HUB_CAPACITY: usize = 100;

/// One table's broadcast hub.
pub struct Hub {
    pub log: Vec<ClientMessage>,
    pub capacity: usize,
}

/// A subscription: the log position of the next event to deliver.
pub struct HubSubscriber {
    pub next: usize,
}

/// What one receive attempt yields.
#[derive(Debug)]
pub enum RecvOutcome {
    /// Nothing published past the subscriber's position yet.
    Empty,
    /// The subscriber fell behind the buffer; `missed` events were
    /// dropped for it and its cursor moved to the oldest retained one.
    Lagged { missed: u64 },
    /// The next event, in publication order.
    Msg(ClientMessage),
}

impl Hub {
    pub open spec fn wf(self) -> bool {
        self.capacity > 0
    }

    /// The log index of the oldest event still buffered.
    pub open spec fn first_buffered(self) -> int {
        if self.log@.len() <= self.capacity {
            0
        } else {
            self.log@.len() - self.capacity
        }
    }

    /// A fresh hub with the default capacity and an empty log.
    pub fn new() -> (h: Hub)
        ensures
            h.wf(),
            h.log@.len() == 0,
            h.capacity == HUB_CAPACITY,
    {
        Hub { log: Vec::new(), capacity: HUB_CAPACITY }
    }

    /// Publish one event: it takes the next position in the total
    /// order. Publishing never blocks and never fails.
    pub fn publish(&mut self, m: ClientMessage)
        ensures
            final(self).log@ == old(self).log@.push(m),
            final(self).capacity == old(self).capacity,
    {
        self.log.push(m);
    }

    /// Publish a batch of events in order, as one writer does at the
    /// end of its critical section.
    pub fn publish_all(&mut self, msgs: Vec<ClientMessage>)
        ensures
            final(self).log@.len() == old(self).log@.len() + msgs@.len(),
            views_of(final(self).log@) == views_of(old(self).log@) + views_of(msgs@),
            final(self).capacity == old(self).capacity,
    {
        let ghost incoming = msgs@;
        let mut i: usize = 0;
        while i < msgs.len()
            invariant
                i <= incoming.len(),
                msgs@ == incoming,
                self.capacity == old(self).capacity,
                self.log@.len() == old(self).log@.len() + i,
                views_of(self.log@) == views_of(old(self).log@)
                    + views_of(incoming).subrange(0, i as int),
            decreases incoming.len() - i,
        {
            let m = copy_message(&msgs[i]);
            let ghost prev = self.log@;
            self.log.push(m);
            proof {
                assert(m@ == incoming[i as int]@);
                assert(views_of(self.log@) =~= views_of(prev) + seq![m@]);
                assert(views_of(incoming).subrange(0, i as int + 1) =~=
                    views_of(incoming).subrange(0, i as int) + seq![incoming[i as int]@]);
                assert(views_of(self.log@) =~= views_of(old(self).log@)
                    + views_of(incoming).subrange(0, i as int + 1));
            }
            i = i + 1;
        }
        proof {
            assert(views_of(incoming).subrange(0, incoming.len() as int) =~= views_of(incoming));
            assert(views_of(self.log@) =~= views_of(old(self).log@) + views_of(incoming));
        }
    }

    /// A new subscription, positioned after everything already
    /// published: a subscriber sees exactly the events published after
    /// it subscribed.
    pub fn subscribe(&self) -> (s: HubSubscriber)
        ensures
            s.next == self.log@.len(),
    {
        HubSubscriber { next: self.log.len() }
    }

    /// One receive attempt by a subscriber. Events arrive in log
    /// order, each exactly once, unless the subscriber lagged behind
    /// the buffer, in which case it learns how many events it missed
    /// and resumes at the oldest retained one.
    pub fn recv(&self, sub: &mut HubSubscriber) -> (out: RecvOutcome)
        requires
            self.wf(),
            old(sub).next <= self.log@.len(),
        ensures
            final(sub).next <= self.log@.len(),
            old(sub).next == self.log@.len() ==> (out is Empty
                && final(sub).next == old(sub).next),
            old(sub).next < self.log@.len() && old(sub).next >= self.first_buffered() ==> {
                &&& out matches RecvOutcome::Msg(m) && m@ == self.log@[old(sub).next as int]@
                &&& final(sub).next == old(sub).next + 1
            },
            old(sub).next < self.first_buffered() ==> (out matches RecvOutcome::Lagged { missed }
                && missed == self.first_buffered() - old(sub).next
                && final(sub).next == self.first_buffered()),
    {
        if sub.next == self.log.len() {
            return RecvOutcome::Empty;
        }
        let first: usize = if self.log.len() <= self.capacity {
            0
        } else {
            self.log.len() - self.capacity
        };
        if sub.next < first {
            let missed = (first - sub.next) as u64;
            sub.next = first;
            RecvOutcome::Lagged { missed }
        } else {
            let m = copy_message(&self.log[sub.next]);
            sub.next = sub.next + 1;
            RecvOutcome::Msg(m)
        }
    }
}

/// Fan-out is uniform: any two subscribers that drain the hub without
/// lagging observe the same events in the same total order — the
/// order in which writers published them. A subscriber's stream over
/// positions `[a, b)` is exactly that slice of the log.
pub proof fn lemma_hub_total_order(h: Hub, a: int, b: int)
    requires
        0 <= a <= b <= h.log@.len(),
    ensures
        views_of(h.log@.subrange(a, b)) == views_of(h.log@).subrange(a, b),
        forall|i: int| a <= i < b ==>
            views_of(h.log@.subrange(a, b))[i - a] == h.log@[i]@,
{
    assert(views_of(h.log@.subrange(a, b)) =~= views_of(h.log@).subrange(a, b));
}

} // verus!
