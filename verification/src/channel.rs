//! The event channel: deferred, ordered delivery of application-level
//! values out of UI code and into the surrounding application logic.
//!
//! A [`Receiver`] owns a single ordered queue. A [`Sender`] is a handle
//! that holds the queue while values are produced: [`Receiver::sender`]
//! moves the queue into a fresh handle, [`Sender::send`] appends to it,
//! and [`Receiver::reclaim`] moves it back. Any number of handles may be
//! taken out one after another during a frame — ownership of the one
//! queue passes through each in turn, so everything sent lands in the
//! queue in send order, whichever handle sent it. [`Receiver::poll`]
//! drains the whole queue in that order, leaving it empty. Execution is
//! single threaded throughout; the passing of ownership is what stands in
//! for shared access.

use vstd::prelude::*;

verus! {

/// The consuming end of a channel.
pub struct Receiver<T> {
    /// The values sent and not yet drained, in send order.
    pub queue: Vec<T>,
}

/// A producing handle holding a channel's queue.
pub struct Sender<T> {
    /// The queue being appended to.
    pub queue: Vec<T>,
}

impl<T> Receiver<T> {
    /// Creates a channel with an empty queue.
    pub fn new() -> (r: Receiver<T>)
        ensures
            r.queue@ == Seq::<T>::empty(),
    {
        Receiver { queue: Vec::new() }
    }

    /// Takes out a producing handle; the queue moves into the handle
    /// until [`Receiver::reclaim`] hands it back.
    pub fn sender(&mut self) -> (s: Sender<T>)
        ensures
            s.queue@ == old(self).queue@,
            final(self).queue@ == Seq::<T>::empty(),
    {
        let mut q: Vec<T> = Vec::new();
        core::mem::swap(&mut self.queue, &mut q);
        Sender { queue: q }
    }

    /// Takes the queue back from a producing handle.
    pub fn reclaim(&mut self, s: Sender<T>)
        ensures
            final(self).queue@ == old(self).queue@ + s.queue@,
    {
        let mut q = s.queue;
        self.queue.append(&mut q);
    }

    /// Drains all queued values, in send order; afterwards the queue is
    /// empty.
    pub fn poll(&mut self) -> (drained: Vec<T>)
        ensures
            drained@ == old(self).queue@,
            final(self).queue@ == Seq::<T>::empty(),
    {
        let mut q: Vec<T> = Vec::new();
        core::mem::swap(&mut self.queue, &mut q);
        q
    }
}

impl<T> Sender<T> {
    /// Appends a value to the queue the handle holds.
    pub fn send(&mut self, value: T)
        ensures
            final(self).queue@ == old(self).queue@.push(value),
    {
        self.queue.push(value);
    }
}

/// Channel ordering: values sent in the order `v1`, `v2`, `v3` — here
/// through two handles taken out one after the other — are drained as
/// exactly `[v1, v2, v3]`, and a second immediate drain yields nothing.
///
/// The claim is stated over the contracts above: any receiver that starts
/// empty and sees that sequence of operations ends with that exact queue.
pub proof fn lemma_channel_ordering<T>(
    r0: Receiver<T>,
    s1: Sender<T>,
    s2: Sender<T>,
    v1: T,
    v2: T,
    v3: T,
)
    requires
        r0.queue@ == Seq::<T>::empty(),
        s1.queue@ == r0.queue@.push(v1),
        s2.queue@ == s1.queue@.push(v2).push(v3),
    ensures
        s2.queue@ == seq![v1, v2, v3],
{
    assert(s2.queue@ =~= seq![v1, v2, v3]);
}

} // verus!
