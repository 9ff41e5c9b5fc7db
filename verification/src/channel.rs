//! The bounded, lossy event channel between consensus and the registry:
//! a fixed-capacity ring that drops its oldest undelivered event under
//! backpressure and reports the loss to the consumer as an explicit
//! "missed N events" signal instead of growing without bound.

use vstd::prelude::*;
use crate::types::Event;
use crate::registry::saturating_add_u64;

verus! {

/// The mathematical model of the channel: the undelivered events in
/// arrival order, how many were dropped since the consumer last looked,
/// and whether the producer closed the channel.
pub struct ChannelModel {
    pub queue: Seq<Event>,
    pub capacity: usize,
    pub missed: u64,
    pub closed: bool,
}

/// What one receive call yields.
#[derive(Clone, Copy)]
pub enum RecvOutcome {
    /// The oldest undelivered event.
    Received(Event),
    /// The channel dropped this many events since the last receive; the
    /// consumer should treat the signal as recoverable staleness.
    Lagged(u64),
    /// Nothing is waiting, but the producer may still send.
    Empty,
    /// The producer closed the channel and everything was delivered.
    Closed,
}

/// A single-consumer bounded event channel with a drop-oldest overflow
/// policy.
pub struct EventChannel {
    queue: Vec<Event>,
    capacity: usize,
    missed: u64,
    closed: bool,
}

impl View for EventChannel {
    type V = ChannelModel;

    closed spec fn view(&self) -> ChannelModel {
        ChannelModel {
            queue: self.queue@,
            capacity: self.capacity,
            missed: self.missed,
            closed: self.closed,
        }
    }
}

impl EventChannel {
    /// The queue never outgrows the fixed capacity.
    pub open spec fn wf(&self) -> bool {
        1 <= self@.capacity && self@.queue.len() <= self@.capacity
    }

    /// An open, empty channel holding at most `capacity` events.
    pub fn new(capacity: usize) -> (r: EventChannel)
        requires
            capacity >= 1,
        ensures
            r.wf(),
            r@.queue == Seq::<Event>::empty(),
            r@.capacity == capacity,
            r@.missed == 0,
            !r@.closed,
    {
        let r = EventChannel { queue: Vec::new(), capacity, missed: 0, closed: false };
        proof {
            assert(r@.queue =~= Seq::<Event>::empty());
        }
        r
    }

    /// Enqueues an event.  At capacity the oldest undelivered event is
    /// dropped and counted; a send to a closed channel does nothing.
    /// Delivery order is never changed.
    pub fn send(&mut self, ev: Event)
        requires
            old(self).wf(),
        ensures
            final(self).wf(),
            final(self)@.capacity == old(self)@.capacity,
            final(self)@.closed == old(self)@.closed,
            old(self)@.closed ==> final(self)@ == old(self)@,
            !old(self)@.closed && old(self)@.queue.len() < old(self)@.capacity ==> final(self)@
                == (ChannelModel { queue: old(self)@.queue.push(ev), ..old(self)@ }),
            !old(self)@.closed && old(self)@.queue.len() == old(self)@.capacity ==> final(self)@
                == (ChannelModel {
                queue: old(self)@.queue.drop_first().push(ev),
                missed: saturating_add_u64(old(self)@.missed, 1),
                ..old(self)@
            }),
    {
        if self.closed {
            return;
        }
        if self.queue.len() == self.capacity {
            self.queue.remove(0);
            proof {
                assert(self@.queue =~= old(self)@.queue.drop_first());
            }
            if self.missed < u64::MAX {
                self.missed = self.missed + 1;
            }
        }
        self.queue.push(ev);
    }

    /// Marks the producer side closed; undelivered events stay readable.
    pub fn close(&mut self)
        requires
            old(self).wf(),
        ensures
            final(self).wf(),
            final(self)@ == (ChannelModel { closed: true, ..old(self)@ }),
    {
        self.closed = true;
    }

    /// Receives: a pending lag signal first, then the oldest event, then
    /// `Closed` once the producer closed and everything was delivered,
    /// and otherwise `Empty`.
    pub fn recv(&mut self) -> (r: RecvOutcome)
        requires
            old(self).wf(),
        ensures
            final(self).wf(),
            final(self)@.capacity == old(self)@.capacity,
            final(self)@.closed == old(self)@.closed,
            old(self)@.missed > 0 ==> (r matches RecvOutcome::Lagged(n) && n == old(
                self,
            )@.missed && final(self)@ == (ChannelModel { missed: 0u64, ..old(self)@ })),
            old(self)@.missed == 0 && old(self)@.queue.len() > 0 ==> (r matches
                RecvOutcome::Received(e) && e == old(self)@.queue[0] && final(self)@
                == (ChannelModel { queue: old(self)@.queue.drop_first(), ..old(self)@ })),
            old(self)@.missed == 0 && old(self)@.queue.len() == 0 && old(self)@.closed ==> (r
                matches RecvOutcome::Closed && final(self)@ == old(self)@),
            old(self)@.missed == 0 && old(self)@.queue.len() == 0 && !old(self)@.closed ==> (r
                matches RecvOutcome::Empty && final(self)@ == old(self)@),
    {
        if self.missed > 0 {
            let n = self.missed;
            self.missed = 0;
            return RecvOutcome::Lagged(n);
        }
        if self.queue.len() > 0 {
            let ev = self.queue.remove(0);
            proof {
                assert(self@.queue =~= old(self)@.queue.drop_first());
            }
            return RecvOutcome::Received(ev);
        }
        if self.closed {
            RecvOutcome::Closed
        } else {
            RecvOutcome::Empty
        }
    }
}

} // verus!
