use ard_ecs::prw_lock::{Access, PrwLock};

#[test]
fn prw_lock_test() {
    let mut lock = PrwLock::new(42);

    let handle1 = lock.read();
    assert_eq!(*handle1, 42);

    let handle2 = lock.read();
    assert_eq!(*handle2, 42);

    lock.release_read(handle1);
    lock.release_read(handle2);

    let mut handle3 = lock.write();
    assert_eq!(*handle3, 42);

    handle3.set(*handle3 + 27);

    assert_eq!(*handle3, 69);
}

#[test]
fn second_writer_is_refused() {
    let mut lock = PrwLock::new(42);
    let _handle1 = lock.write();
    assert!(lock.try_write().is_none());
    assert_eq!(lock.state(), Access::Writing);
}

#[test]
fn writer_is_refused_while_a_reader_has_access() {
    let mut lock = PrwLock::new(42);
    let handle1 = lock.read();
    assert!(lock.try_write().is_none());
    assert_eq!(lock.state(), Access::Reading(1));
    lock.release_read(handle1);
    assert!(lock.try_write().is_some());
}

#[test]
fn reader_is_refused_while_the_writer_has_access() {
    let mut lock = PrwLock::new(7u8);
    let handle = lock.write();
    assert!(lock.try_read().is_none());
    lock.release_write(handle);
    assert!(lock.try_read().is_some());
}

#[test]
fn released_write_guard_gives_the_lock_its_value() {
    let mut lock = PrwLock::new(1u32);
    let mut writer = lock.write();
    writer.set(5);
    lock.release_write(writer);
    assert_eq!(lock.state(), Access::Idle);
    let reader = lock.read();
    assert_eq!(*reader, 5);
}

#[test]
fn lock_with_outstanding_guard_does_not_end() {
    let mut lock = PrwLock::new(3u16);
    let reader = lock.read();
    let lock = match lock.into_inner() {
        Ok(_) => panic!("a reader has access"),
        Err(lock) => lock,
    };
    let mut lock = lock;
    lock.release_read(reader);
    assert_eq!(*lock.into_inner().ok().unwrap(), 3);
}

#[test]
fn idle_lock_ends_and_hands_its_value_out() {
    let mut lock = PrwLock::new(11u64);
    let reader = lock.read();
    lock.release_read(reader);
    let mut writer = lock.write();
    writer.set(12);
    lock.release_write(writer);
    assert_eq!(lock.state(), Access::Idle);
    assert_eq!(*lock.end(), 12);
}

#[test]
fn end_is_admitted_without_guards_only() {
    assert!(ard_ecs::prw_lock::end_admitted(0));
    assert!(!ard_ecs::prw_lock::end_admitted(1));
    assert!(!ard_ecs::prw_lock::end_admitted(ard_ecs::prw_lock::WRITING));
    assert!(ard_ecs::prw_lock::reader_admitted(0));
    assert!(ard_ecs::prw_lock::reader_admitted(ard_ecs::prw_lock::WRITING - 2));
    assert!(!ard_ecs::prw_lock::reader_admitted(ard_ecs::prw_lock::WRITING - 1));
    assert!(!ard_ecs::prw_lock::reader_admitted(ard_ecs::prw_lock::WRITING));
    assert!(ard_ecs::prw_lock::writer_admitted(0));
    assert!(!ard_ecs::prw_lock::writer_admitted(1));
}

#[test]
fn locks_and_guards_can_be_printed() {
    let mut lock = PrwLock::new(3u8);
    let reader = lock.read();
    assert!(format!("{:?}", reader).contains('3'));
    assert!(format!("{:?}", lock).contains('3'));
    lock.release_read(reader);
    let writer = lock.write();
    assert!(format!("{:?}", writer).contains('3'));
}
