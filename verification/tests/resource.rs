use ard_ecs::event::Events;
use ard_ecs::resource::Resources;

const CLOCK: u64 = 1;
const SCORE: u64 = 2;

#[test]
fn resource_is_registered_once() {
    let mut resources: Resources<u32> = Resources::new();
    assert!(!resources.contains(CLOCK));
    assert_eq!(resources.add(CLOCK, 5), Ok(()));
    assert!(resources.contains(CLOCK));
    assert_eq!(resources.add(CLOCK, 6), Err(6));
    assert_eq!(resources.add(SCORE, 7), Ok(()));
    let clock = resources.get(CLOCK).unwrap();
    assert_eq!(*clock, 5);
    let score = resources.get(SCORE).unwrap();
    assert_eq!(*score, 7);
}

#[test]
fn missing_resource_gives_no_guard() {
    let mut resources: Resources<u32> = Resources::new();
    assert!(resources.get(CLOCK).is_none());
    assert!(resources.get_mut(CLOCK).is_none());
}

#[test]
fn resource_access_is_counted() {
    let mut resources: Resources<u32> = Resources::new();
    assert!(resources.add(CLOCK, 5).is_ok());
    assert!(resources.add(SCORE, 1).is_ok());
    let reader = resources.get(CLOCK).unwrap();
    let second = resources.get(CLOCK).unwrap();
    assert!(resources.get_mut(CLOCK).is_none());
    // another resource is free
    let other = resources.get_mut(SCORE).unwrap();
    resources.release_read(CLOCK, reader);
    assert!(resources.get_mut(CLOCK).is_none());
    resources.release_read(CLOCK, second);

    let mut writer = resources.get_mut(CLOCK).unwrap();
    assert!(resources.get(CLOCK).is_none());
    assert!(resources.get_mut(CLOCK).is_none());
    writer.set(*writer + 1);
    resources.release_write(CLOCK, writer);
    assert_eq!(*resources.get(CLOCK).unwrap(), 6);
    resources.release_write(SCORE, other);
    assert_eq!(*resources.get(SCORE).unwrap(), 1);
}

#[test]
fn events_leave_in_the_order_of_their_submission() {
    let mut events: Events<&str> = Events::new();
    assert!(events.is_empty());
    events.submit(4, "tick");
    events.submit(5, "post");
    events.submit(4, "tick again");
    assert_eq!(events.len(), 3);
    assert_eq!(events.drain(), vec![(4, "tick"), (5, "post"), (4, "tick again")]);
    assert!(events.is_empty());
    assert_eq!(events.drain(), vec![]);
}
