//! The events of the game loop and the system that keeps them going.
//!
//! Every iteration of the loop starts with a `Tick`. The core system answers
//! each `Tick` with a `PostTick` and, at a fixed rate, a `FixedTick`, until a
//! `Stop` is handled; then it sends `Stopping`, the last event of all.

use vstd::prelude::*;
use crate::system::System;
use crate::time::Duration;

verus! {

/// The fixed tick rate where none is given, in milliseconds.
pub const DEFAULT_FIXED_TICK_MILLIS: u64 = 33;

/// The key of the event type `Start`.
pub const START: u64 = 1;

/// The key of the event type `Stop`.
pub const STOP: u64 = 2;

/// The key of the event type `Stopping`.
pub const STOPPING: u64 = 3;

/// The key of the event type `Tick`.
pub const TICK: u64 = 4;

/// The key of the event type `PostTick`.
pub const POST_TICK: u64 = 5;

/// The key of the event type `FixedTick`.
pub const FIXED_TICK: u64 = 6;

/// The key of the resource type `ArdCoreState`.
pub const CORE_STATE: u64 = 1;

/// The name of the core system.
pub const CORE_SYSTEM: u64 = 1;

/// Propagated once at first dispatch.
#[derive(Clone, Copy, Debug, Default)]
pub struct Start;

/// Signals to the core that ticks should stop being propagated.
///
/// This is not the last event to be sent: that is `Stopping`.
#[derive(Clone, Copy, Debug)]
pub struct Stop;

/// Signal from the core that the engine is stopping. This is the last event
/// to be submitted.
#[derive(Clone, Copy, Debug)]
pub struct Stopping;

/// Signals one iteration of the game loop. The duration is the time elapsed
/// since the last tick.
#[derive(Clone, Copy, Debug, Default)]
pub struct Tick(pub Duration);

/// Occurs every iteration after `Tick`.
#[derive(Clone, Copy, Debug, Default)]
pub struct PostTick(pub Duration);

/// Propagated at a fixed rate. The duration is the fixed time between
/// propagations.
///
/// If the dispatcher iterates slower than the fixed rate, no additional
/// propagations are sent: one event per iteration at most.
#[derive(Clone, Copy, Debug, Default)]
pub struct FixedTick(pub Duration);

/// Current state of the core.
#[derive(Debug)]
pub struct ArdCoreState {
    stopping: bool,
}

/// The base engine plugin: it sizes the worker pool.
pub struct ArdCorePlugin;

/// The core system.
pub struct ArdCore {
    fixed_rate: Duration,
    fixed_timer: Duration,
}

/// The events with which the core answers one `Tick`.
pub struct TickEvents {
    /// The `PostTick` of this iteration.
    pub post_tick: Option<PostTick>,
    /// The `FixedTick`, if the fixed time has elapsed.
    pub fixed_tick: Option<FixedTick>,
}

impl ArdCoreState {
    /// Whether a `Stop` was handled.
    pub closed spec fn view(&self) -> bool {
        self.stopping
    }

    /// The state of a core that runs.
    pub fn new() -> (s: ArdCoreState)
        ensures
            !s@,
    {
        ArdCoreState { stopping: false }
    }

    /// Whether a `Stop` was handled.
    pub fn stopping(&self) -> (r: bool)
        ensures
            r == self@,
    {
        self.stopping
    }
}

impl ArdCorePlugin {
    /// Number of worker threads for a machine with `cpus` processors: half
    /// of them, so that the machine is not pinned, and one at least.
    pub fn worker_threads(cpus: usize) -> (n: usize)
        ensures
            n == (if cpus / 2 >= 1 {
                cpus / 2
            } else {
                1
            }),
    {
        let half = cpus / 2;
        if half >= 1 {
            half
        } else {
            1
        }
    }

    /// Number of worker threads for this machine.
    pub fn default_worker_threads() -> (n: usize)
        ensures
            n >= 1,
    {
        Self::worker_threads(available_cpus())
    }
}

/// Calls `num_cpus::get`: the number of processors that this process can
/// use, which the crate documents to be at least 1. It depends on the
/// machine and on the moment, so nothing else is said of it.
#[verifier::external_body]
fn available_cpus() -> (n: usize)
    ensures
        n >= 1,
{
    num_cpus::get()
}

impl ArdCore {
    /// The time between two `FixedTick`s.
    pub closed spec fn rate(&self) -> nat {
        self.fixed_rate@
    }

    /// The time elapsed since the last `FixedTick`.
    pub closed spec fn timer(&self) -> nat {
        self.fixed_timer@
    }

    /// The core with the given time between two `FixedTick`s.
    pub fn new(fixed_rate: Duration) -> (core: ArdCore)
        ensures
            core.rate() == fixed_rate@,
            core.timer() == 0,
    {
        ArdCore { fixed_rate, fixed_timer: Duration::zero() }
    }

    /// The time between two `FixedTick`s.
    pub fn fixed_rate(&self) -> (d: Duration)
        ensures
            d@ == self.rate(),
    {
        self.fixed_rate
    }

    /// The time elapsed since the last `FixedTick`.
    pub fn fixed_timer(&self) -> (d: Duration)
        ensures
            d@ == self.timer(),
    {
        self.fixed_timer
    }

    /// What the core system declares: it handles `Tick` and `Stop`, and
    /// writes the state of the core.
    pub fn declaration() -> (s: System)
        ensures
            s.wf(),
            s.id() == CORE_SYSTEM,
            s.handled() == set![TICK, STOP],
            s.resource_writes() == set![CORE_STATE],
            s.resource_reads() == Set::<u64>::empty(),
            s.reads() == Set::<u64>::empty(),
            s.writes() == Set::<u64>::empty(),
            s.before() == Set::<u64>::empty(),
            s.after() == Set::<u64>::empty(),
    {
        let s = System::new(CORE_SYSTEM).with_handler(TICK).with_handler(STOP).with_resource_write(
            CORE_STATE,
        );
        assert(s.handled() =~= set![TICK, STOP]);
        assert(s.resource_writes() =~= set![CORE_STATE]);
        s
    }

    /// Handles a `Tick`. Unless the core is stopping, a `PostTick` with the
    /// same duration follows, the duration is added to the timer, and when
    /// the timer has reached the fixed rate it starts again from zero and a
    /// `FixedTick` follows. When the core is stopping nothing happens.
    pub fn tick(&mut self, state: &ArdCoreState, tick: Tick) -> (out: TickEvents)
        requires
            !state@ ==> old(self).timer() + tick.0@ <= u128::MAX,
        ensures
            final(self).rate() == old(self).rate(),
            state@ ==> {
                &&& out.post_tick is None
                &&& out.fixed_tick is None
                &&& final(self).timer() == old(self).timer()
            },
            !state@ ==> {
                &&& out.post_tick matches Some(p) && p.0@ == tick.0@
                &&& if old(self).timer() + tick.0@ >= old(self).rate() {
                    &&& final(self).timer() == 0
                    &&& out.fixed_tick matches Some(f) && f.0@ == old(self).rate()
                } else {
                    &&& final(self).timer() == old(self).timer() + tick.0@
                    &&& out.fixed_tick is None
                }
            },
    {
        let duration = tick.0;
        if state.stopping() {
            return TickEvents { post_tick: None, fixed_tick: None };
        }
        let elapsed = self.fixed_timer.checked_add(duration).unwrap();
        if elapsed.at_least(self.fixed_rate) {
            self.fixed_timer = Duration::zero();
            TickEvents {
                post_tick: Some(PostTick(duration)),
                fixed_tick: Some(FixedTick(self.fixed_rate)),
            }
        } else {
            self.fixed_timer = elapsed;
            TickEvents { post_tick: Some(PostTick(duration)), fixed_tick: None }
        }
    }

    /// Handles a `Stop`: the core is stopping from now on, and `Stopping`
    /// follows.
    pub fn stop(&mut self, state: &mut ArdCoreState, stop: Stop) -> (out: Stopping)
        ensures
            final(state)@,
            final(self).rate() == old(self).rate(),
            final(self).timer() == old(self).timer(),
    {
        state.stopping = true;
        Stopping
    }
}

impl Default for ArdCore {
    /// The core with the default time between two `FixedTick`s.
    fn default() -> (core: ArdCore)
        ensures
            core.rate() == DEFAULT_FIXED_TICK_MILLIS * 1_000_000,
            core.timer() == 0,
    {
        ArdCore::new(Duration::from_millis(DEFAULT_FIXED_TICK_MILLIS))
    }
}

} // verus!
