use ard_ecs::dispatcher::{BuildError, Dispatcher};
use ard_ecs::execution::{Execution, RunState};
use ard_ecs::schedule::Schedule;
use ard_ecs::system::System;
use ard_ecs::world::World;

const TICK: u64 = 4;
const POST_TICK: u64 = 5;
const POSITION: u64 = 10;
const VELOCITY: u64 = 20;
const CLOCK: u64 = 100;

fn order_of(schedule: &Schedule) -> Vec<usize> {
    let mut out = Vec::new();
    for p in 0..schedule.len() {
        out.push(schedule.system_at(p));
    }
    out
}

#[test]
fn writer_conflicts_with_reader_of_the_same_component() {
    let a = System::new(1).with_handler(TICK).with_write(POSITION);
    let b = System::new(2).with_handler(TICK).with_read(POSITION);
    let c = System::new(3).with_handler(TICK).with_read(POSITION);
    let d = System::new(4).with_handler(TICK).with_write(VELOCITY);
    assert!(a.conflicts(&b));
    assert!(b.conflicts(&a));
    assert!(a.conflicts(&a));
    assert!(!b.conflicts(&c));
    assert!(!a.conflicts(&d));
    assert!(!d.conflicts(&b));
}

#[test]
fn resources_conflict_like_components() {
    let a = System::new(1).with_resource_write(CLOCK);
    let b = System::new(2).with_resource_read(CLOCK);
    let c = System::new(3).with_resource_read(CLOCK);
    let d = System::new(4).with_read(CLOCK);
    assert!(a.conflicts(&b));
    assert!(!b.conflicts(&c));
    assert!(a.conflicts(&a));
    // a component type and a resource type with the same key are not the same thing
    assert!(!a.conflicts(&d));
}

#[test]
fn declared_order_is_a_conflict() {
    let a = System::new(1).run_before(2);
    let b = System::new(2);
    let c = System::new(3).run_after(2);
    assert!(a.runs_before(&b));
    assert!(!b.runs_before(&a));
    assert!(b.runs_before(&c));
    assert!(a.conflicts(&b));
    assert!(b.conflicts(&a));
    assert!(c.conflicts(&b));
    assert!(!a.conflicts(&c));
    assert_eq!(a.key(), 1);
    assert!(!a.handles(TICK));
}

#[test]
fn plan_keeps_registration_order_where_nothing_is_declared() {
    let systems = vec![
        System::new(1).with_handler(TICK).with_write(POSITION),
        System::new(2).with_handler(POST_TICK),
        System::new(3).with_handler(TICK).with_read(POSITION),
        System::new(4).with_handler(TICK).with_write(VELOCITY),
    ];
    let schedule = Schedule::plan(&systems, TICK).unwrap();
    assert_eq!(schedule.event_key(), TICK);
    assert_eq!(order_of(&schedule), vec![0, 2, 3]);
    assert_eq!(schedule.dependencies(0), &Vec::<usize>::new());
    assert_eq!(schedule.dependencies(1), &vec![0]);
    assert_eq!(schedule.dependencies(2), &Vec::<usize>::new());

    let post = Schedule::plan(&systems, POST_TICK).unwrap();
    assert_eq!(order_of(&post), vec![1]);
    let none = Schedule::plan(&systems, 99).unwrap();
    assert_eq!(none.len(), 0);
}

#[test]
fn plan_respects_declared_order() {
    let systems = vec![
        System::new(1).with_handler(TICK).run_after(3),
        System::new(2).with_handler(TICK),
        System::new(3).with_handler(TICK).run_after(4),
        System::new(4).with_handler(TICK),
    ];
    let schedule = Schedule::plan(&systems, TICK).unwrap();
    assert_eq!(order_of(&schedule), vec![1, 3, 2, 0]);
    assert_eq!(schedule.dependencies(0), &Vec::<usize>::new());
    assert_eq!(schedule.dependencies(1), &Vec::<usize>::new());
    assert_eq!(schedule.dependencies(2), &vec![1]);
    assert_eq!(schedule.dependencies(3), &vec![2]);
}

#[test]
fn declared_circle_allows_no_schedule() {
    let systems = vec![
        System::new(1).with_handler(TICK).run_before(2),
        System::new(2).with_handler(TICK).run_before(3),
        System::new(3).with_handler(TICK).run_before(1),
        System::new(4).with_handler(POST_TICK),
    ];
    assert!(Schedule::plan(&systems, TICK).is_none());
    assert!(Schedule::plan(&systems, POST_TICK).is_some());

    let to_itself = vec![System::new(1).with_handler(TICK).run_before(1)];
    assert!(Schedule::plan(&to_itself, TICK).is_none());

    // an order between handlers of different events is no circle
    let apart = vec![
        System::new(1).with_handler(TICK).run_before(2),
        System::new(2).with_handler(POST_TICK).run_before(1),
    ];
    assert!(Schedule::plan(&apart, TICK).is_some());
    assert!(Schedule::plan(&apart, POST_TICK).is_some());
}

#[test]
fn build_reports_configuration_errors() {
    let twice = vec![System::new(1), System::new(2), System::new(1)];
    assert_eq!(Dispatcher::<u8>::build(twice).err(), Some(BuildError::DuplicateSystem(1)));

    let circle = vec![
        System::new(1).with_handler(POST_TICK),
        System::new(2).with_handler(TICK).run_before(3),
        System::new(3).with_handler(TICK).run_before(2),
    ];
    assert_eq!(Dispatcher::<u8>::build(circle).err(), Some(BuildError::CyclicOrdering(TICK)));

    let fine = vec![
        System::new(1).with_handler(TICK).with_handler(POST_TICK),
        System::new(2).with_handler(TICK),
    ];
    let dispatcher = Dispatcher::<u8>::build(fine).ok().unwrap();
    assert_eq!(dispatcher.len(), 2);
    assert_eq!(dispatcher.system(1).key(), 2);
    assert_eq!(order_of(dispatcher.schedule_for(TICK).unwrap()), vec![0, 1]);
    assert_eq!(order_of(dispatcher.schedule_for(POST_TICK).unwrap()), vec![0]);
    assert!(dispatcher.schedule_for(99).is_none());
    assert!(dispatcher.start(99).is_none());
    assert!(dispatcher.start(TICK).is_some());
}

#[test]
fn events_wait_for_their_round() {
    let mut dispatcher = Dispatcher::<&str>::build(vec![System::new(1).with_handler(TICK)]).ok().unwrap();
    assert!(!dispatcher.has_pending());
    dispatcher.submit(TICK, "first");
    dispatcher.submit(POST_TICK, "second");
    assert!(dispatcher.has_pending());
    let round = dispatcher.take_round();
    assert_eq!(round, vec![(TICK, "first"), (POST_TICK, "second")]);
    assert!(!dispatcher.has_pending());
    dispatcher.submit(TICK, "third");
    assert_eq!(dispatcher.take_round(), vec![(TICK, "third")]);
    assert_eq!(dispatcher.take_round(), vec![]);
}

#[test]
fn conflicting_handlers_never_run_together() {
    // A writes X, B reads X, C touches something else
    let systems = vec![
        System::new(1).with_handler(TICK).with_write(POSITION),
        System::new(2).with_handler(TICK).with_read(POSITION),
        System::new(3).with_handler(TICK).with_write(VELOCITY),
    ];
    let schedule = Schedule::plan(&systems, TICK).unwrap();
    let mut run = Execution::new(&schedule);
    assert!(run.is_ready(&schedule, 0));
    assert!(!run.is_ready(&schedule, 1));
    assert!(run.is_ready(&schedule, 2));
    assert_eq!(run.next_ready(&schedule), Some(0));

    assert!(run.begin(&schedule, 0));
    assert!(!run.begin(&schedule, 0));
    // B may not start while A runs; C may
    assert!(!run.begin(&schedule, 1));
    assert_eq!(run.state(1), RunState::Waiting);
    assert!(run.begin(&schedule, 2));
    assert_eq!(run.state(0), RunState::Running);
    assert_eq!(run.state(2), RunState::Running);
    assert_eq!(run.next_ready(&schedule), None);
    assert!(!run.is_finished());

    assert!(!run.finish(&schedule, 1));
    assert!(run.finish(&schedule, 0));
    assert!(!run.finish(&schedule, 0));
    assert_eq!(run.next_ready(&schedule), Some(1));
    assert!(run.begin(&schedule, 1));
    assert!(run.finish(&schedule, 1));
    assert!(!run.is_finished());
    assert!(run.finish(&schedule, 2));
    assert!(run.is_finished());
    assert!(!run.begin(&schedule, 7));
    assert!(!run.finish(&schedule, 7));
}

#[test]
fn handler_declared_first_is_seen_by_the_later_one() {
    // H2 is registered first, yet H1 is declared to run before it
    let h2 = System::new(2).with_handler(TICK).with_read(POSITION);
    let h1 = System::new(1).with_handler(TICK).with_write(POSITION).run_before(2);
    let mut dispatcher = Dispatcher::<u64>::build(vec![h2, h1]).ok().unwrap();

    let mut world: World<u64> = World::new();
    let e = world.create().unwrap();
    world.add_component(e, POSITION, 1);
    world.process_entities();

    dispatcher.submit(TICK, 16);
    let mut observed = None;
    let mut ran = Vec::new();
    for (event, payload) in dispatcher.take_round() {
        let schedule = dispatcher.schedule_for(event).unwrap();
        let mut run = dispatcher.start(event).unwrap();
        while let Some(place) = run.next_ready(schedule) {
            assert!(run.begin(schedule, place));
            let system = dispatcher.system(schedule.system_at(place)).key();
            ran.push(system);
            if system == 1 {
                assert_eq!(world.set(e, POSITION, payload + 1), Ok(1));
            } else {
                observed = world.get(e, POSITION).copied();
            }
            assert!(run.finish(schedule, place));
        }
        assert!(run.is_finished());
    }
    assert_eq!(ran, vec![1, 2]);
    assert_eq!(observed, Some(17));
}
