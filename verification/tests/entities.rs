use ard_ecs::archetype::Archetypes;
use ard_ecs::entities::{Command, Entities};
use ard_ecs::entity::Entity;
use ard_ecs::tag::Tags;
use ard_ecs::type_set::TypeSet;

#[test]
fn registry_stages_creation() {
    let mut entities = Entities::new();
    let mut archetypes: Archetypes<i32> = Archetypes::new();
    let mut tags = Tags::new();
    let e = entities.create().unwrap();
    assert_eq!(entities.len(), 1);
    assert!(entities.is_alive(e));
    assert_eq!(entities.location(e), None);
    // no row yet: nothing to attach to
    assert!(!entities.attach(&mut archetypes, e, 1, 10));
    assert_eq!(archetypes.len(), 1);

    entities.process(&mut archetypes, &mut tags, Vec::new());
    assert_eq!(entities.location(e), Some((0, 0)));
    assert_eq!(archetypes.table(0).entity_at(0), e);
}

#[test]
fn attach_and_detach_move_the_row() {
    let mut entities = Entities::new();
    let mut archetypes: Archetypes<i32> = Archetypes::new();
    let mut tags = Tags::new();
    let a = entities.create().unwrap();
    let b = entities.create().unwrap();
    entities.process(&mut archetypes, &mut tags, Vec::new());
    assert_eq!(entities.location(a), Some((0, 0)));
    assert_eq!(entities.location(b), Some((0, 1)));

    assert!(entities.attach(&mut archetypes, a, 5, -1));
    // a left row 0 of the empty archetype, b took its place
    assert_eq!(entities.location(a), Some((1, 0)));
    assert_eq!(entities.location(b), Some((0, 0)));
    assert_eq!(archetypes.table(1).get(0, 5), Some(&-1));

    assert!(entities.attach(&mut archetypes, a, 5, -2));
    assert_eq!(entities.location(a), Some((1, 0)));
    assert_eq!(archetypes.table(1).get(0, 5), Some(&-2));
    assert_eq!(archetypes.len(), 2);

    assert!(!entities.detach(&mut archetypes, a, 6));
    assert!(!entities.detach(&mut archetypes, b, 5));
    assert!(!entities.detach(&mut archetypes, Entity::new(8, 1), 5));
    assert!(entities.detach(&mut archetypes, a, 5));
    assert_eq!(entities.location(a), Some((0, 1)));
    assert_eq!(archetypes.len(), 2);
    assert_eq!(archetypes.table(1).len(), 0);
}

#[test]
fn process_runs_commands_in_their_order() {
    let mut entities = Entities::new();
    let mut archetypes: Archetypes<i32> = Archetypes::new();
    let mut tags = Tags::new();
    let a = entities.create().unwrap();
    let b = entities.create().unwrap();
    entities.destroy(b);
    let commands = vec![
        Command::Attach { entity: a, key: 1, value: 10 },
        Command::Attach { entity: b, key: 1, value: 20 },
        Command::Detach { entity: a, key: 1 },
        Command::Attach { entity: a, key: 2, value: 30 },
        Command::Attach { entity: a, key: 1, value: 40 },
        Command::Detach { entity: a, key: 3 },
    ];
    entities.process(&mut archetypes, &mut tags, commands);
    assert!(entities.is_alive(a));
    assert!(!entities.is_alive(b));
    let (archetype, row) = entities.location(a).unwrap();
    assert_eq!(archetypes.table(archetype).get(row, 1), Some(&40));
    assert_eq!(archetypes.table(archetype).get(row, 2), Some(&30));
    assert_eq!(archetypes.table(archetype).type_set().len(), 2);
    // {}, {1}, {2}, {1, 2}
    assert_eq!(archetypes.len(), 4);
    for a in 0..archetypes.len() {
        for r in 0..archetypes.table(a).len() {
            assert_ne!(archetypes.table(a).entity_at(r), b);
        }
    }
}

#[test]
fn freed_indices_are_used_again_last_freed_first() {
    let mut entities = Entities::new();
    let mut archetypes: Archetypes<i32> = Archetypes::new();
    let mut tags = Tags::new();
    let a = entities.create().unwrap();
    let b = entities.create().unwrap();
    let c = entities.create().unwrap();
    entities.process(&mut archetypes, &mut tags, Vec::new());
    entities.destroy(a);
    entities.destroy(c);
    entities.destroy(a);
    entities.process(&mut archetypes, &mut tags, Vec::new());
    assert!(entities.is_alive(b));
    assert_eq!(entities.create(), Some(Entity::new(c.id(), 2)));
    assert_eq!(entities.create(), Some(Entity::new(a.id(), 2)));
    assert_eq!(entities.create(), Some(Entity::new(3, 1)));
    assert_eq!(entities.len(), 4);
}

#[test]
fn tag_storage_alone() {
    let mut tags = Tags::new();
    let e = Entity::new(3, 2);
    assert!(!tags.has_tag(e, 1));
    tags.set(e, 1);
    tags.set(e, 2);
    assert!(tags.has_tag(e, 1));
    assert!(tags.has_tag(e, 2));
    assert!(!tags.has_tag(e, 3));
    assert!(!tags.has_tag(Entity::new(3, 1), 1));
    assert!(!tags.has_tag(Entity::new(2, 2), 1));
    // a later generation takes the place of the record
    tags.set(Entity::new(3, 3), 1);
    assert!(!tags.has_tag(e, 1));
    assert!(tags.has_tag(e, 2));
    assert!(tags.has_tag(Entity::new(3, 3), 1));
    // unsetting for another generation changes nothing
    tags.unset(e, 1);
    assert!(tags.has_tag(Entity::new(3, 3), 1));
    tags.clear(e);
    assert!(!tags.has_tag(e, 2));
    assert!(tags.has_tag(Entity::new(3, 3), 1));
    tags.set(Entity::new(0, 0), 1);
    assert!(!tags.has_tag(Entity::new(0, 0), 1));
}

#[test]
fn registry_migrates_between_given_archetypes() {
    let mut entities = Entities::new();
    let mut archetypes: Archetypes<i32> = Archetypes::new();
    let mut tags = Tags::new();
    let a = entities.create().unwrap();
    let b = entities.create().unwrap();
    entities.process(
        &mut archetypes,
        &mut tags,
        vec![
            Command::Attach { entity: a, key: 1, value: 11 },
            Command::Attach { entity: a, key: 2, value: 12 },
            Command::Attach { entity: b, key: 1, value: 21 },
            Command::Attach { entity: b, key: 2, value: 22 },
        ],
    );
    let from = entities.location(a).unwrap().0;
    let to = archetypes.get_or_create_archetype(&TypeSet::from_keys(&vec![2, 3, 4]));
    assert_ne!(from, to);
    entities.migrate(&mut archetypes, a, to, &TypeSet::from_keys(&vec![4, 3]), vec![13, 14]);

    assert_eq!(entities.location(a), Some((to, 0)));
    assert_eq!(entities.location(b), Some((from, 0)));
    assert_eq!(archetypes.table(to).get(0, 1), None);
    assert_eq!(archetypes.table(to).get(0, 2), Some(&12));
    assert_eq!(archetypes.table(to).get(0, 3), Some(&13));
    assert_eq!(archetypes.table(to).get(0, 4), Some(&14));
    assert_eq!(archetypes.table(from).get(0, 1), Some(&21));
    assert_eq!(archetypes.table(from).get(0, 2), Some(&22));
}
