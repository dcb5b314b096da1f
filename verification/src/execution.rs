//! The run of one schedule.
//!
//! Whoever runs the systems, on one thread or on many, asks the execution
//! which handler may start, tells it when one starts and when one has
//! finished. A handler may start once every handler that it waits for has
//! finished. So two handlers that conflict never run at the same time, and
//! as long as handlers are left, one of them runs or may start.

use vstd::prelude::*;
use crate::schedule::{Schedule, clash, precedes};
use crate::system::System;

verus! {

/// How far one handler is.
#[derive(Clone, Copy, Debug, PartialEq, Eq, Structural)]
pub enum RunState {
    /// Not started.
    Waiting,
    /// Started and not finished.
    Running,
    /// Finished.
    Done,
}

/// How far every handler of a schedule is.
pub struct Execution {
    states: Vec<RunState>,
}

impl Execution {
    /// The state of each handler, by its place in the schedule.
    pub closed spec fn view(&self) -> Seq<RunState> {
        self.states@
    }

    /// The execution is one of `schedule`, and no handler has started
    /// before all that it waits for had finished.
    pub open spec fn sound(&self, schedule: &Schedule) -> bool {
        &&& self@.len() == schedule.order().len()
        &&& forall|q: int, p: int|
            0 <= q < self@.len() && self@[q] != RunState::Waiting && #[trigger] schedule.waits_for(q, p)
                ==> self@[p] == RunState::Done
    }

    /// The handler at place `q` may start: it has not started, and all that
    /// it waits for have finished.
    pub open spec fn ready(&self, schedule: &Schedule, q: int) -> bool {
        &&& 0 <= q < self@.len()
        &&& self@[q] == RunState::Waiting
        &&& forall|p: int| #[trigger] schedule.waits_for(q, p) ==> self@[p] == RunState::Done
    }

    /// Two handlers that run at the same time do not conflict. In
    /// particular a system that writes a component never runs together with
    /// one that reads or writes it.
    pub proof fn lemma_running_do_not_conflict(
        &self,
        schedule: &Schedule,
        systems: Seq<System>,
        p: int,
        q: int,
    )
        requires
            schedule.valid_for(systems),
            self.sound(schedule),
            0 <= p < self@.len(),
            0 <= q < self@.len(),
            p != q,
            self@[p] == RunState::Running,
            self@[q] == RunState::Running,
        ensures
            !clash(systems, schedule.order()[p], schedule.order()[q]),
    {
        if clash(systems, schedule.order()[p], schedule.order()[q]) {
            schedule.lemma_conflicting_handlers_wait(systems, p, q);
            if p < q {
                assert(schedule.waits_for(q, p));
            } else {
                assert(schedule.waits_for(p, q));
            }
        }
    }

    /// A handler that has started finds every handler that is declared to
    /// run before it finished.
    pub proof fn lemma_started_after_declared(
        &self,
        schedule: &Schedule,
        systems: Seq<System>,
        p: int,
        q: int,
    )
        requires
            schedule.valid_for(systems),
            self.sound(schedule),
            0 <= p < self@.len(),
            0 <= q < self@.len(),
            precedes(systems, schedule.order()[p], schedule.order()[q]),
            self@[q] != RunState::Waiting,
        ensures
            self@[p] == RunState::Done,
    {
        schedule.lemma_declared_order_kept(systems, p, q);
    }

    /// While no handler runs and not all have finished, one may start: the
    /// run of a schedule never comes to a halt.
    pub proof fn lemma_never_stuck(&self, schedule: &Schedule) -> (q: int)
        requires
            schedule.wf(),
            self.sound(schedule),
            forall|p: int| 0 <= p < self@.len() ==> self@[p] != RunState::Running,
            exists|p: int| 0 <= p < self@.len() && self@[p] != RunState::Done,
        ensures
            self.ready(schedule, q),
    {
        let k = choose|p: int| 0 <= p < self@.len() && self@[p] != RunState::Done;
        let q = first_waiting(self@, k);
        schedule.lemma_wf();
        assert forall|p: int| #[trigger] schedule.waits_for(q, p) implies self@[p] == RunState::Done by {
            assert(0 <= p < q);
        }
        q
    }

    /// The execution of `schedule` in which no handler has started.
    pub fn new(schedule: &Schedule) -> (e: Execution)
        requires
            schedule.wf(),
        ensures
            e.sound(schedule),
            forall|q: int| 0 <= q < e@.len() ==> e@[q] == RunState::Waiting,
    {
        let n = schedule.len();
        let mut states: Vec<RunState> = Vec::new();
        let mut q: usize = 0;
        while q < n
            invariant
                q <= n,
                states@.len() == q,
                forall|p: int| 0 <= p < q ==> states@[p] == RunState::Waiting,
            decreases n - q,
        {
            states.push(RunState::Waiting);
            q += 1;
        }
        Execution { states }
    }

    /// The state of the handler at place `q`.
    pub fn state(&self, q: usize) -> (s: RunState)
        requires
            q < self@.len(),
        ensures
            s == self@[q as int],
    {
        self.states[q]
    }

    /// Whether the handler at place `q` may start.
    pub fn is_ready(&self, schedule: &Schedule, q: usize) -> (r: bool)
        requires
            schedule.wf(),
            self@.len() == schedule.order().len(),
        ensures
            r == self.ready(schedule, q as int),
    {
        if q >= self.states.len() {
            return false;
        }
        match self.states[q] {
            RunState::Waiting => {},
            _ => {
                return false;
            },
        }
        let deps = schedule.dependencies(q);
        proof {
            schedule.lemma_wf();
        }
        let mut k: usize = 0;
        while k < deps.len()
            invariant
                k <= deps@.len(),
                q < self@.len(),
                self@.len() == schedule.order().len(),
                forall|p: int| deps@.contains(p as usize) && 0 <= p <= usize::MAX <==> schedule.waits_for(q as int, p),
                forall|q: int, p: int| #[trigger] schedule.waits_for(q, p) ==> 0 <= p < q < schedule.order().len(),
                forall|j: int| 0 <= j < k ==> self@[deps@[j] as int] == RunState::Done,
            decreases deps@.len() - k,
        {
            let p = deps[k];
            assert(deps@.contains(p));
            assert(schedule.waits_for(q as int, p as int));
            match self.states[p] {
                RunState::Done => {},
                _ => {
                    return false;
                },
            }
            k += 1;
        }
        proof {
            assert forall|p: int| #[trigger] schedule.waits_for(q as int, p) implies self@[p] == RunState::Done by {
                assert(deps@.contains(p as usize));
                let j = choose|j: int| 0 <= j < deps@.len() && deps@[j] == p as usize;
                assert(self@[deps@[j] as int] == RunState::Done);
            }
        }
        true
    }

    /// The first handler that may start, if there is one.
    pub fn next_ready(&self, schedule: &Schedule) -> (r: Option<usize>)
        requires
            schedule.wf(),
            self@.len() == schedule.order().len(),
        ensures
            match r {
                Some(q) => self.ready(schedule, q as int) && forall|p: int|
                    0 <= p < q ==> !self.ready(schedule, p),
                None => forall|p: int| !self.ready(schedule, p),
            },
    {
        let mut q: usize = 0;
        while q < self.states.len()
            invariant
                q <= self@.len(),
                schedule.wf(),
                self@.len() == schedule.order().len(),
                forall|p: int| 0 <= p < q ==> !self.ready(schedule, p),
            decreases self@.len() - q,
        {
            if self.is_ready(schedule, q) {
                return Some(q);
            }
            q += 1;
        }
        None
    }

    /// Starts the handler at place `q`, if it may start. Returns whether it
    /// was started; nothing changes if it was not.
    pub fn begin(&mut self, schedule: &Schedule, q: usize) -> (started: bool)
        requires
            schedule.wf(),
            old(self).sound(schedule),
        ensures
            final(self).sound(schedule),
            started == old(self).ready(schedule, q as int),
            final(self)@ == (if started {
                old(self)@.update(q as int, RunState::Running)
            } else {
                old(self)@
            }),
    {
        if self.is_ready(schedule, q) {
            self.states[q] = RunState::Running;
            proof {
                schedule.lemma_wf();
                assert forall|a: int, p: int|
                    0 <= a < self@.len() && self@[a] != RunState::Waiting && #[trigger] schedule.waits_for(a, p)
                    implies self@[p] == RunState::Done by {
                    assert(0 <= p < a);
                    if a != q {
                        assert(old(self)@[a] != RunState::Waiting);
                        assert(old(self)@[p] == RunState::Done);
                    }
                }
            }
            true
        } else {
            false
        }
    }

    /// Notes that the handler at place `q` has finished, if it runs.
    /// Returns whether it ran; nothing changes if it did not.
    pub fn finish(&mut self, schedule: &Schedule, q: usize) -> (finished: bool)
        requires
            schedule.wf(),
            old(self).sound(schedule),
        ensures
            final(self).sound(schedule),
            finished == (q < old(self)@.len() && old(self)@[q as int] == RunState::Running),
            final(self)@ == (if finished {
                old(self)@.update(q as int, RunState::Done)
            } else {
                old(self)@
            }),
    {
        if q < self.states.len() {
            match self.states[q] {
                RunState::Running => {
                    self.states[q] = RunState::Done;
                    proof {
                        schedule.lemma_wf();
                        assert forall|a: int, p: int|
                            0 <= a < self@.len() && self@[a] != RunState::Waiting && #[trigger] schedule.waits_for(
                                a,
                                p,
                            ) implies self@[p] == RunState::Done by {
                            assert(0 <= p < a);
                            assert(old(self)@[a] != RunState::Waiting);
                            assert(old(self)@[p] == RunState::Done);
                        }
                    }
                    true
                },
                _ => false,
            }
        } else {
            false
        }
    }

    /// Whether every handler has finished.
    pub fn is_finished(&self) -> (r: bool)
        ensures
            r == forall|q: int| 0 <= q < self@.len() ==> self@[q] == RunState::Done,
    {
        let mut q: usize = 0;
        while q < self.states.len()
            invariant
                q <= self@.len(),
                forall|p: int| 0 <= p < q ==> self@[p] == RunState::Done,
            decreases self@.len() - q,
        {
            match self.states[q] {
                RunState::Done => {},
                _ => {
                    return false;
                },
            }
            q += 1;
        }
        true
    }
}

/// The first place up to `k` that is not done.
proof fn first_waiting(s: Seq<RunState>, k: int) -> (q: int)
    requires
        0 <= k < s.len(),
        s[k] != RunState::Done,
    ensures
        0 <= q <= k,
        s[q] != RunState::Done,
        forall|p: int| 0 <= p < q ==> s[p] == RunState::Done,
    decreases k,
{
    if exists|p: int| 0 <= p < k && s[p] != RunState::Done {
        let p = choose|p: int| 0 <= p < k && s[p] != RunState::Done;
        first_waiting(s, p)
    } else {
        k
    }
}

} // verus!
