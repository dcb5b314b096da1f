//! The event queue.
//!
//! Events are plain values that live for one round of dispatch. They are
//! queued in the order in which they are submitted, each under the key of
//! its type, and leave the queue all together when a round takes them.

use vstd::prelude::*;

verus! {

/// The queue of the events that wait for their round.
pub struct Events<E> {
    queue: Vec<(u64, E)>,
}

impl<E> Events<E> {
    /// The queued events with their type keys, oldest first.
    pub closed spec fn view(&self) -> Seq<(u64, E)> {
        self.queue@
    }

    /// The empty queue.
    pub fn new() -> (q: Events<E>)
        ensures
            q@.len() == 0,
    {
        Events { queue: Vec::new() }
    }

    /// Number of queued events.
    pub fn len(&self) -> (n: usize)
        ensures
            n == self@.len(),
    {
        self.queue.len()
    }

    /// Whether no event is queued.
    pub fn is_empty(&self) -> (r: bool)
        ensures
            r == (self@.len() == 0),
    {
        self.queue.len() == 0
    }

    /// Puts `event`, of the type `key`, behind the queued events.
    pub fn submit(&mut self, key: u64, event: E)
        ensures
            final(self)@ == old(self)@.push((key, event)),
    {
        self.queue.push((key, event));
    }

    /// Takes every queued event out, oldest first. The queue is empty
    /// afterwards: no event lives longer than one round.
    pub fn drain(&mut self) -> (round: Vec<(u64, E)>)
        ensures
            round@ == old(self)@,
            final(self)@.len() == 0,
    {
        let mut round: Vec<(u64, E)> = Vec::new();
        core::mem::swap(&mut self.queue, &mut round);
        round
    }
}

} // verus!
