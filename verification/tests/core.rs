use ard_ecs::ard_core::{
    ArdCore, ArdCorePlugin, ArdCoreState, Stop, Tick, CORE_STATE, CORE_SYSTEM, POST_TICK, STOP, TICK,
};
use ard_ecs::time::Duration;

#[test]
fn tick_is_followed_by_post_tick() {
    let mut core = ArdCore::new(Duration::from_millis(10));
    let state = ArdCoreState::new();
    assert!(!state.stopping());
    let out = core.tick(&state, Tick(Duration::from_millis(4)));
    assert_eq!(out.post_tick.unwrap().0, Duration::from_millis(4));
    assert!(out.fixed_tick.is_none());
}

#[test]
fn fixed_tick_comes_when_the_fixed_time_has_elapsed() {
    let mut core = ArdCore::new(Duration::from_millis(10));
    let state = ArdCoreState::new();
    assert!(core.tick(&state, Tick(Duration::from_millis(4))).fixed_tick.is_none());
    assert!(core.tick(&state, Tick(Duration::from_millis(5))).fixed_tick.is_none());
    // 4 + 5 + 1 = 10: the rate is reached
    let out = core.tick(&state, Tick(Duration::from_millis(1)));
    assert_eq!(out.fixed_tick.unwrap().0, Duration::from_millis(10));
    assert_eq!(out.post_tick.unwrap().0, Duration::from_millis(1));
    // the timer starts again from zero
    assert!(core.tick(&state, Tick(Duration::from_millis(9))).fixed_tick.is_none());
    // one fixed tick at most, however long the tick took
    let out = core.tick(&state, Tick(Duration::from_millis(50)));
    assert_eq!(out.fixed_tick.unwrap().0, Duration::from_millis(10));
    assert!(core.tick(&state, Tick(Duration::from_millis(9))).fixed_tick.is_none());
}

#[test]
fn default_core_ticks_every_33_milliseconds() {
    let mut core = ArdCore::default();
    let state = ArdCoreState::new();
    assert!(core.tick(&state, Tick(Duration::from_nanos(32_999_999))).fixed_tick.is_none());
    let out = core.tick(&state, Tick(Duration::from_nanos(1)));
    assert_eq!(out.fixed_tick.unwrap().0.as_nanos(), 33_000_000);
}

#[test]
fn stopping_core_sends_nothing() {
    let mut core = ArdCore::new(Duration::from_millis(10));
    let mut state = ArdCoreState::new();
    core.tick(&state, Tick(Duration::from_millis(9)));
    core.stop(&mut state, Stop);
    assert!(state.stopping());
    let out = core.tick(&state, Tick(Duration::from_millis(9)));
    assert!(out.post_tick.is_none());
    assert!(out.fixed_tick.is_none());
}

#[test]
fn core_declares_its_access() {
    let core = ArdCore::declaration();
    assert_eq!(core.key(), CORE_SYSTEM);
    assert!(core.handles(TICK));
    assert!(core.handles(STOP));
    assert!(!core.handles(POST_TICK));
    let reader = ard_ecs::system::System::new(9).with_resource_read(CORE_STATE);
    assert!(core.conflicts(&reader));
}

#[test]
fn half_of_the_processors_work() {
    assert_eq!(ArdCorePlugin::worker_threads(0), 1);
    assert_eq!(ArdCorePlugin::worker_threads(1), 1);
    assert_eq!(ArdCorePlugin::worker_threads(2), 1);
    assert_eq!(ArdCorePlugin::worker_threads(3), 1);
    assert_eq!(ArdCorePlugin::worker_threads(4), 2);
    assert_eq!(ArdCorePlugin::worker_threads(9), 4);
    assert_eq!(ArdCorePlugin::worker_threads(usize::MAX), usize::MAX / 2);
}

#[test]
fn this_machine_gets_a_worker() {
    let threads = ArdCorePlugin::default_worker_threads();
    assert!(threads >= 1);
    assert_eq!(threads, ArdCorePlugin::worker_threads(num_cpus::get()));
}

#[test]
fn durations_add_and_compare() {
    assert_eq!(Duration::from_millis(33).as_nanos(), 33_000_000);
    assert_eq!(Duration::from_millis(u64::MAX).as_nanos(), u64::MAX as u128 * 1_000_000);
    assert_eq!(Duration::zero().as_nanos(), 0);
    assert_eq!(Duration::from_nanos(5).checked_add(Duration::from_nanos(7)), Some(Duration::from_nanos(12)));
    assert_eq!(Duration::from_nanos(u128::MAX).checked_add(Duration::from_nanos(1)), None);
    assert!(Duration::from_nanos(5).at_least(Duration::from_nanos(5)));
    assert!(!Duration::from_nanos(4).at_least(Duration::from_nanos(5)));
}

#[test]
fn events_have_defaults() {
    let _start: ard_ecs::ard_core::Start = Default::default();
    let tick: Tick = Default::default();
    let post: ard_ecs::ard_core::PostTick = Default::default();
    let fixed: ard_ecs::ard_core::FixedTick = Default::default();
    assert_eq!(tick.0, Duration::zero());
    assert_eq!(post.0.as_nanos(), 0);
    assert_eq!(fixed.0.as_nanos(), 0);
    assert_eq!(Duration::default(), Duration::from_nanos(0));
}

#[test]
fn stopping_core_adds_nothing_to_its_timer() {
    let mut core = ArdCore::new(Duration::from_millis(10));
    let mut state = ArdCoreState::new();
    core.tick(&state, Tick(Duration::from_millis(9)));
    core.stop(&mut state, Stop);
    // a span that could not be added is no fault while stopping
    let out = core.tick(&state, Tick(Duration::from_nanos(u128::MAX)));
    assert!(out.post_tick.is_none());
    assert!(out.fixed_tick.is_none());
    assert_eq!(core.fixed_timer(), Duration::from_millis(9));
    assert_eq!(core.fixed_rate(), Duration::from_millis(10));
}
