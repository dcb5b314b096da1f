//! The dispatcher: the registered systems, their schedules and the events
//! that wait for them.
//!
//! Building a dispatcher plans the schedule of every event type that some
//! system handles, so systems whose declared orders run in a circle are
//! found before anything is dispatched. Running the handlers is the
//! caller's part: it takes the events of a round, gets the schedule of each
//! and drives an execution of it. Events that handlers submit meanwhile
//! wait for the next round.

use vstd::prelude::*;
use crate::event::Events;
use crate::execution::{Execution, RunState};
use crate::schedule::{Schedule, handles_at, schedulable};
use crate::system::System;

verus! {

/// Why a set of systems makes no dispatcher.
#[derive(Clone, Copy, Debug, PartialEq, Eq, Structural)]
pub enum BuildError {
    /// Two systems have this name.
    DuplicateSystem(u64),
    /// The orders that the handlers of this event type declare run in a circle.
    CyclicOrdering(u64),
}

/// No two systems have the same name.
pub open spec fn distinct_ids(systems: Seq<System>) -> bool {
    forall|i: int, j: int|
        0 <= i < j < systems.len() ==> (#[trigger] systems[i]).id() != (#[trigger] systems[j]).id()
}

/// The systems, their schedules and the queued events.
pub struct Dispatcher<E> {
    systems: Vec<System>,
    schedules: Vec<Schedule>,
    events: Events<E>,
}

impl<E> Dispatcher<E> {
    /// The registered systems, in the order of their registration.
    pub closed spec fn systems(&self) -> Seq<System> {
        self.systems@
    }

    /// The schedules, one for every event type that some system handles.
    pub closed spec fn schedules(&self) -> Seq<Schedule> {
        self.schedules@
    }

    /// The queued events with their type keys, oldest first.
    pub closed spec fn pending(&self) -> Seq<(u64, E)> {
        self.events@
    }

    /// The systems have distinct names, every schedule is one for the
    /// systems, no event type has two schedules, and every event type that
    /// some system handles has one.
    pub open spec fn wf(&self) -> bool {
        &&& distinct_ids(self.systems())
        &&& forall|s: int|
            0 <= s < self.schedules().len() ==> (#[trigger] self.schedules()[s]).valid_for(
                self.systems(),
            ) && self.schedules()[s].wf()
        &&& forall|s: int, t: int|
            0 <= s < t < self.schedules().len() ==> (#[trigger] self.schedules()[s]).event() != (
            #[trigger] self.schedules()[t]).event()
        &&& forall|i: int, event: u64| #[trigger]
            handles_at(self.systems(), event, i) ==> has_schedule(self.schedules(), event)
        &&& forall|s: int|
            0 <= s < self.schedules().len() ==> handled(
                self.systems(),
                (#[trigger] self.schedules()[s]).event(),
            )
    }

    /// The dispatcher of `systems`, without queued events. It fails when
    /// two systems have the same name, with that name, and when the
    /// handlers of some event type declare orders that run in a circle, with
    /// that event type.
    pub fn build(systems: Vec<System>) -> (r: Result<Dispatcher<E>, BuildError>)
        requires
            forall|i: int| 0 <= i < systems@.len() ==> (#[trigger] systems@[i]).wf(),
        ensures
            match r {
                Ok(d) => {
                    &&& d.wf()
                    &&& d.systems() == systems@
                    &&& d.pending().len() == 0
                    &&& forall|event: u64| schedulable(systems@, event)
                },
                Err(BuildError::DuplicateSystem(id)) => exists|i: int, j: int|
                    0 <= i < j < systems@.len() && (#[trigger] systems@[i]).id() == id && (
                    #[trigger] systems@[j]).id() == id,
                Err(BuildError::CyclicOrdering(event)) => {
                    &&& distinct_ids(systems@)
                    &&& !schedulable(systems@, event)
                    &&& handled(systems@, event)
                },
            },
    {
        match find_duplicate(&systems) {
            Some(id) => {
                return Err(BuildError::DuplicateSystem(id));
            },
            None => {},
        }
        let mut schedules: Vec<Schedule> = Vec::new();
        let mut i: usize = 0;
        while i < systems.len()
            invariant
                i <= systems@.len(),
                forall|k: int| 0 <= k < systems@.len() ==> (#[trigger] systems@[k]).wf(),
                distinct_ids(systems@),
                forall|s: int|
                    0 <= s < schedules@.len() ==> (#[trigger] schedules@[s]).valid_for(systems@)
                        && schedules@[s].wf(),
                forall|s: int, t: int|
                    0 <= s < t < schedules@.len() ==> (#[trigger] schedules@[s]).event() != (
                    #[trigger] schedules@[t]).event(),
                forall|k: int, event: u64|
                    0 <= k < i && #[trigger] handles_at(systems@, event, k) ==> has_schedule(
                        schedules@,
                        event,
                    ),
                forall|s: int|
                    0 <= s < schedules@.len() ==> handled(systems@, (#[trigger] schedules@[s]).event()),
            decreases systems@.len() - i,
        {
            let events = systems[i].handled_events();
            let mut k: usize = 0;
            while k < events.len()
                invariant
                    k <= events.keys().len(),
                    i < systems@.len(),
                    events@ == systems@[i as int].handled(),
                    distinct_ids(systems@),
                    forall|s: int|
                        0 <= s < schedules@.len() ==> (#[trigger] schedules@[s]).valid_for(systems@)
                            && schedules@[s].wf(),
                    forall|s: int, t: int|
                        0 <= s < t < schedules@.len() ==> (#[trigger] schedules@[s]).event() != (
                        #[trigger] schedules@[t]).event(),
                    forall|j: int, event: u64|
                        0 <= j < i && #[trigger] handles_at(systems@, event, j) ==> has_schedule(
                            schedules@,
                            event,
                        ),
                    forall|j: int| 0 <= j < k ==> has_schedule(schedules@, #[trigger] events.keys()[j]),
                    forall|s: int|
                        0 <= s < schedules@.len() ==> handled(
                            systems@,
                            (#[trigger] schedules@[s]).event(),
                        ),
                decreases events.keys().len() - k,
            {
                let event = events.key(k);
                proof {
                    assert(events.keys().contains(event));
                    assert(handles_at(systems@, event, i as int));
                }
                match find_schedule(&schedules, event) {
                    Some(s) => {},
                    None => {
                        match Schedule::plan(&systems, event) {
                            None => {
                                return Err(BuildError::CyclicOrdering(event));
                            },
                            Some(schedule) => {
                                let ghost before = schedules@;
                                schedules.push(schedule);
                                proof {
                                    assert(schedules@[before.len() as int].event() == event);
                                    assert forall|e: u64| has_schedule(before, e) implies has_schedule(
                                        schedules@,
                                        e,
                                    ) by {
                                        let s = choose|s: int|
                                            0 <= s < before.len() && (#[trigger] before[s]).event() == e;
                                        assert(schedules@[s].event() == e);
                                    }
                                    assert forall|s: int|
                                        0 <= s < schedules@.len() implies handled(
                                        systems@,
                                        (#[trigger] schedules@[s]).event(),
                                    ) by {
                                        if s < before.len() {
                                            assert(schedules@[s] == before[s]);
                                        }
                                    }
                                    assert forall|s: int, t: int|
                                        0 <= s < t < schedules@.len() implies (#[trigger] schedules@[s]).event() != (
                                    #[trigger] schedules@[t]).event() by {
                                        if t == before.len() {
                                            assert(before[s].event() != event);
                                        } else {
                                            assert(schedules@[s] == before[s] && schedules@[t] == before[t]);
                                        }
                                    }
                                }
                            },
                        }
                    },
                }
                k += 1;
            }
            proof {
                assert forall|j: int, event: u64|
                    0 <= j < i + 1 && #[trigger] handles_at(systems@, event, j) implies has_schedule(
                    schedules@,
                    event,
                ) by {
                    if j == i {
                        assert(events.keys().contains(event));
                        let p = choose|p: int| 0 <= p < events.keys().len() && events.keys()[p] == event;
                        assert(has_schedule(schedules@, events.keys()[p]));
                    }
                }
            }
            i += 1;
        }
        proof {
            assert forall|event: u64| schedulable(systems@, event) by {
                if handled(systems@, event) {
                    let j = choose|j: int| handles_at(systems@, event, j);
                    assert(has_schedule(schedules@, event));
                    let s = choose|s: int|
                        0 <= s < schedules@.len() && (#[trigger] schedules@[s]).event() == event;
                    schedules@[s].lemma_valid(systems@);
                } else {
                    assert(crate::schedule::is_order(systems@, event, Seq::<usize>::empty()));
                }
            }
        }
        Ok(Dispatcher { systems, schedules, events: Events::new() })
    }

    /// Number of systems.
    pub fn len(&self) -> (n: usize)
        ensures
            n == self.systems().len(),
    {
        self.systems.len()
    }

    /// The system with index `i`.
    pub fn system(&self, i: usize) -> (s: &System)
        requires
            i < self.systems().len(),
        ensures
            *s == self.systems()[i as int],
    {
        &self.systems[i]
    }

    /// The schedule of the event type `event`, if some system handles it.
    pub fn schedule_for(&self, event: u64) -> (r: Option<&Schedule>)
        requires
            self.wf(),
        ensures
            r.is_some() == handled(self.systems(), event),
            r matches Some(s) ==> s.valid_for(self.systems()) && s.wf() && s.event() == event,
    {
        match find_schedule(&self.schedules, event) {
            Some(s) => {
                assert(self.schedules()[s as int].valid_for(self.systems()));
                assert(handled(self.systems(), self.schedules()[s as int].event()));
                Some(&self.schedules[s])
            },
            None => None,
        }
    }

    /// A new execution of the schedule of the event type `event`, with no
    /// handler started; `None` if no system handles the event.
    pub fn start(&self, event: u64) -> (r: Option<Execution>)
        requires
            self.wf(),
        ensures
            r.is_some() == handled(self.systems(), event),
            r matches Some(e) ==> exists|s: int|
                0 <= s < self.schedules().len() && (#[trigger] self.schedules()[s]).event() == event
                    && e.sound(&self.schedules()[s]) && forall|q: int|
                    0 <= q < e@.len() ==> e@[q] == RunState::Waiting,
    {
        match find_schedule(&self.schedules, event) {
            Some(s) => {
                assert(self.schedules()[s as int].wf());
                assert(handled(self.systems(), self.schedules()[s as int].event()));
                Some(Execution::new(&self.schedules[s]))
            },
            None => None,
        }
    }

    /// Puts `event`, of the type `key`, behind the queued events.
    pub fn submit(&mut self, key: u64, event: E)
        ensures
            final(self).systems() == old(self).systems(),
            final(self).schedules() == old(self).schedules(),
            final(self).pending() == old(self).pending().push((key, event)),
    {
        self.events.submit(key, event);
    }

    /// Whether events are queued.
    pub fn has_pending(&self) -> (r: bool)
        ensures
            r == (self.pending().len() > 0),
    {
        !self.events.is_empty()
    }

    /// Takes the queued events out for one round of dispatch, oldest first.
    /// The queue is empty afterwards; what the handlers of the round submit
    /// waits for the next round.
    pub fn take_round(&mut self) -> (round: Vec<(u64, E)>)
        ensures
            final(self).systems() == old(self).systems(),
            final(self).schedules() == old(self).schedules(),
            round@ == old(self).pending(),
            final(self).pending().len() == 0,
    {
        self.events.drain()
    }
}

/// Some system handles the event type `event`.
pub open spec fn handled(systems: Seq<System>, event: u64) -> bool {
    exists|i: int| handles_at(systems, event, i)
}

/// Some schedule of `schedules` is for the event type `event`.
pub open spec fn has_schedule(schedules: Seq<Schedule>, event: u64) -> bool {
    exists|s: int| 0 <= s < schedules.len() && (#[trigger] schedules[s]).event() == event
}

/// Index of the schedule for `event`, if there is one.
fn find_schedule(schedules: &Vec<Schedule>, event: u64) -> (r: Option<usize>)
    ensures
        match r {
            Some(s) => s < schedules@.len() && schedules@[s as int].event() == event,
            None => !has_schedule(schedules@, event),
        },
{
    let mut s: usize = 0;
    while s < schedules.len()
        invariant
            s <= schedules@.len(),
            forall|t: int| 0 <= t < s ==> (#[trigger] schedules@[t]).event() != event,
        decreases schedules@.len() - s,
    {
        if schedules[s].event_key() == event {
            return Some(s);
        }
        s += 1;
    }
    None
}

/// A name that two of the systems have, if there is one.
fn find_duplicate(systems: &Vec<System>) -> (r: Option<u64>)
    ensures
        match r {
            Some(id) => exists|i: int, j: int|
                0 <= i < j < systems@.len() && (#[trigger] systems@[i]).id() == id && (
                #[trigger] systems@[j]).id() == id,
            None => distinct_ids(systems@),
        },
{
    let mut j: usize = 0;
    while j < systems.len()
        invariant
            j <= systems@.len(),
            forall|a: int, b: int|
                0 <= a < b < j ==> (#[trigger] systems@[a]).id() != (#[trigger] systems@[b]).id(),
        decreases systems@.len() - j,
    {
        let mut i: usize = 0;
        while i < j
            invariant
                i <= j,
                j < systems@.len(),
                forall|a: int| 0 <= a < i ==> (#[trigger] systems@[a]).id() != systems@[j as int].id(),
            decreases j - i,
        {
            if systems[i].key() == systems[j].key() {
                return Some(systems[i].key());
            }
            i += 1;
        }
        j += 1;
    }
    None
}

} // verus!
