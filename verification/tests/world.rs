use ard_ecs::entity::Entity;
use ard_ecs::query::Query;
use ard_ecs::world::World;

const POSITION: u64 = 10;
const VELOCITY: u64 = 20;
const HEALTH: u64 = 30;
const VISIBLE: u64 = 1;
const STATIC: u64 = 2;

fn entities_of(world: &World<u64>, query: &Query) -> Vec<Entity> {
    let mut out = Vec::new();
    for hit in world.query(query) {
        out.push(hit.entity);
    }
    out
}

#[test]
fn created_entity_is_alive_at_once() {
    let mut world: World<u64> = World::new();
    let e = world.create().unwrap();
    assert!(world.is_alive(e));
    assert_eq!(e, Entity::new(0, 1));
    assert!(world.get(e, POSITION).is_none());
    assert!(world.entities().location(e).is_none());
    world.add_component(e, POSITION, 42);
    world.process_entities();
    assert_eq!(world.get(e, POSITION), Some(&42));
    assert_eq!(world.entities().location(e), Some((1, 0)));
}

#[test]
fn default_world_is_empty() {
    let world: World<u64> = World::default();
    assert_eq!(world.entities().len(), 0);
    assert_eq!(world.archetypes().len(), 1);
    assert!(!world.is_alive(Entity::new(0, 1)));
    assert!(world.query(&Query::new()).is_empty());
}

#[test]
fn destroy_takes_effect_when_entities_are_processed() {
    let mut world: World<u64> = World::new();
    let e = world.create().unwrap();
    let other = world.create().unwrap();
    world.add_component(e, POSITION, 1);
    world.add_component(other, POSITION, 2);
    world.process_entities();
    let query = Query::new().read(POSITION);

    world.destroy(e);
    assert!(world.is_alive(e));
    assert_eq!(entities_of(&world, &query), vec![e, other]);
    assert_eq!(world.get(e, POSITION), Some(&1));

    world.process_entities();
    assert!(!world.is_alive(e));
    assert!(world.is_alive(other));
    assert_eq!(entities_of(&world, &query), vec![other]);
    assert_eq!(world.get(e, POSITION), None);
    assert!(world.query_get(&query, e).is_none());
}

#[test]
fn destroying_a_dead_entity_does_nothing() {
    let mut world: World<u64> = World::new();
    let e = world.create().unwrap();
    world.process_entities();
    world.destroy(e);
    world.destroy(e);
    world.process_entities();
    assert!(!world.is_alive(e));
    world.destroy(e);
    world.destroy(Entity::new(77, 1));
    world.process_entities();
    let next = world.create().unwrap();
    assert_eq!(next, Entity::new(0, 2));
    assert!(world.is_alive(next));
}

#[test]
fn reused_index_gets_the_next_generation() {
    let mut world: World<u64> = World::new();
    let first = world.create().unwrap();
    let second = world.create().unwrap();
    assert_eq!(first, Entity::new(0, 1));
    assert_eq!(second, Entity::new(1, 1));
    world.process_entities();
    world.destroy(first);
    world.process_entities();
    assert!(!world.is_alive(first));

    let third = world.create().unwrap();
    assert_eq!(third.id(), first.id());
    assert_eq!(third.ver(), first.ver() + 1);
    assert!(world.is_alive(third));
    assert!(!world.is_alive(first));
    world.process_entities();
    assert!(!world.is_alive(first));
    assert!(world.is_alive(second));

    world.destroy(third);
    world.process_entities();
    let fourth = world.create().unwrap();
    assert_eq!(fourth, Entity::new(0, 3));
    assert!(!world.is_alive(first));
    assert!(!world.is_alive(third));
}

#[test]
fn handle_with_generation_zero_is_never_alive() {
    let mut world: World<u64> = World::new();
    let e = world.create().unwrap();
    assert!(!world.is_alive(Entity::new(e.id(), 0)));
    assert!(!world.is_alive(Entity::new(e.id(), 2)));
    assert!(!world.add_tag(Entity::new(e.id(), 0), VISIBLE));
}

#[test]
fn attach_detach_round_trip_leaves_the_residual_set() {
    let mut world: World<u64> = World::new();
    let e = world.create().unwrap();
    world.add_component(e, POSITION, 1);
    world.add_component(e, VELOCITY, 2);
    world.add_component(e, HEALTH, 3);
    world.process_entities();
    assert_eq!(world.get(e, POSITION), Some(&1));
    assert_eq!(world.get(e, VELOCITY), Some(&2));
    assert_eq!(world.get(e, HEALTH), Some(&3));
    // {}, {P}, {P, V}, {P, V, H}
    assert_eq!(world.archetypes().len(), 4);

    world.remove_component(e, POSITION);
    world.remove_component(e, VELOCITY);
    world.process_entities();
    assert_eq!(world.get(e, POSITION), None);
    assert_eq!(world.get(e, VELOCITY), None);
    assert_eq!(world.get(e, HEALTH), Some(&3));
    // two more: {V, H}, {H}
    assert_eq!(world.archetypes().len(), 6);

    world.add_component(e, POSITION, 9);
    world.process_entities();
    assert_eq!(world.get(e, POSITION), Some(&9));
    assert_eq!(world.get(e, VELOCITY), None);
    assert_eq!(world.get(e, HEALTH), Some(&3));
    // one more: {P, H}
    assert_eq!(world.archetypes().len(), 7);

    let (archetype, row) = world.entities().location(e).unwrap();
    let table = world.archetypes().table(archetype);
    assert_eq!(table.type_set().len(), 2);
    assert_eq!(table.type_set().key(0), POSITION);
    assert_eq!(table.type_set().key(1), HEALTH);
    assert_eq!(row, 0);

    // the same type sets again make no new archetype
    world.remove_component(e, POSITION);
    world.add_component(e, POSITION, 5);
    world.remove_component(e, HEALTH);
    world.add_component(e, HEALTH, 6);
    world.process_entities();
    assert_eq!(world.archetypes().len(), 7);
    assert_eq!(world.get(e, POSITION), Some(&5));
    assert_eq!(world.get(e, HEALTH), Some(&6));
}

#[test]
fn migration_keeps_the_components_that_stay() {
    let mut world: World<u64> = World::new();
    let a = world.create().unwrap();
    let b = world.create().unwrap();
    world.add_component(a, POSITION, 0xdead_beef_0000_0001);
    world.add_component(a, HEALTH, u64::MAX);
    world.add_component(b, POSITION, 7);
    world.add_component(b, HEALTH, 8);
    world.process_entities();

    world.add_component(a, VELOCITY, 3);
    world.process_entities();
    assert_eq!(world.get(a, POSITION), Some(&0xdead_beef_0000_0001));
    assert_eq!(world.get(a, HEALTH), Some(&u64::MAX));
    assert_eq!(world.get(a, VELOCITY), Some(&3));
    assert_eq!(world.get(b, POSITION), Some(&7));
    assert_eq!(world.get(b, HEALTH), Some(&8));

    world.remove_component(a, POSITION);
    world.process_entities();
    assert_eq!(world.get(a, POSITION), None);
    assert_eq!(world.get(a, HEALTH), Some(&u64::MAX));
    assert_eq!(world.get(a, VELOCITY), Some(&3));
}

#[test]
fn attaching_a_present_type_replaces_the_value() {
    let mut world: World<u64> = World::new();
    let e = world.create().unwrap();
    world.add_component(e, POSITION, 1);
    world.add_component(e, POSITION, 2);
    world.process_entities();
    assert_eq!(world.get(e, POSITION), Some(&2));
    assert_eq!(world.archetypes().len(), 2);
}

#[test]
fn removing_a_row_moves_the_last_row_into_its_place() {
    let mut world: World<u64> = World::new();
    let first = world.create().unwrap();
    let second = world.create().unwrap();
    let third = world.create().unwrap();
    world.add_component(first, POSITION, 100);
    world.add_component(second, POSITION, 200);
    world.add_component(third, POSITION, 300);
    world.process_entities();
    assert_eq!(world.entities().location(first), Some((1, 0)));
    assert_eq!(world.entities().location(second), Some((1, 1)));
    assert_eq!(world.entities().location(third), Some((1, 2)));

    world.destroy(first);
    world.process_entities();
    assert_eq!(world.entities().location(first), None);
    assert_eq!(world.entities().location(third), Some((1, 0)));
    assert_eq!(world.entities().location(second), Some((1, 1)));
    assert_eq!(world.archetypes().table(1).len(), 2);
    assert_eq!(world.archetypes().table(1).entity_at(0), third);
    assert_eq!(world.archetypes().table(1).entity_at(1), second);
    assert_eq!(world.get(third, POSITION), Some(&300));
    assert_eq!(world.get(second, POSITION), Some(&200));

    // removing the last row moves nothing
    world.destroy(second);
    world.process_entities();
    assert_eq!(world.entities().location(third), Some((1, 0)));
    assert_eq!(world.get(third, POSITION), Some(&300));
}

#[test]
fn command_for_a_dead_entity_does_nothing() {
    let mut world: World<u64> = World::new();
    let e = world.create().unwrap();
    world.process_entities();
    world.destroy(e);
    world.process_entities();
    world.add_component(e, POSITION, 1);
    world.remove_component(e, POSITION);
    world.add_component(Entity::new(9, 9), POSITION, 1);
    world.process_entities();
    assert_eq!(world.archetypes().len(), 1);
    assert_eq!(world.get(e, POSITION), None);
}

#[test]
fn component_added_in_the_round_of_destruction_goes_with_the_entity() {
    let mut world: World<u64> = World::new();
    let e = world.create().unwrap();
    world.add_component(e, POSITION, 1);
    world.destroy(e);
    world.process_entities();
    assert!(!world.is_alive(e));
    assert_eq!(world.get(e, POSITION), None);
    assert_eq!(world.archetypes().table(1).len(), 0);
}

#[test]
fn set_writes_in_place() {
    let mut world: World<u64> = World::new();
    let e = world.create().unwrap();
    world.add_component(e, POSITION, 1);
    world.process_entities();
    assert_eq!(world.set(e, POSITION, 5), Ok(1));
    assert_eq!(world.get(e, POSITION), Some(&5));
    assert_eq!(world.set(e, VELOCITY, 6), Err(6));
    assert_eq!(world.set(Entity::new(3, 1), POSITION, 7), Err(7));
    assert_eq!(world.get(e, POSITION), Some(&5));
}

#[test]
fn tags_move_no_row() {
    let mut world: World<u64> = World::new();
    let e = world.create().unwrap();
    world.add_component(e, POSITION, 1);
    world.process_entities();
    let before = world.entities().location(e);
    assert!(!world.has_tag(e, VISIBLE));
    assert!(world.add_tag(e, VISIBLE));
    assert!(world.has_tag(e, VISIBLE));
    assert!(!world.has_tag(e, STATIC));
    assert_eq!(world.entities().location(e), before);
    assert_eq!(world.archetypes().len(), 2);
    world.remove_tag(e, VISIBLE);
    assert!(!world.has_tag(e, VISIBLE));
    world.remove_tag(e, VISIBLE);
    assert!(!world.has_tag(e, VISIBLE));
}

#[test]
fn tags_of_a_destroyed_entity_are_gone() {
    let mut world: World<u64> = World::new();
    let e = world.create().unwrap();
    let keep = world.create().unwrap();
    world.process_entities();
    assert!(world.add_tag(e, VISIBLE));
    assert!(world.add_tag(keep, VISIBLE));
    world.destroy(e);
    assert!(world.has_tag(e, VISIBLE));
    world.process_entities();
    assert!(!world.has_tag(e, VISIBLE));
    assert!(world.has_tag(keep, VISIBLE));
    assert!(!world.add_tag(e, STATIC));
    assert!(!world.has_tag(e, STATIC));

    let again = world.create().unwrap();
    assert_eq!(again.id(), e.id());
    assert!(!world.has_tag(again, VISIBLE));
}

#[test]
fn query_filters_by_components_and_tags() {
    let mut world: World<u64> = World::new();
    let a = world.create().unwrap();
    let b = world.create().unwrap();
    let c = world.create().unwrap();
    let d = world.create().unwrap();
    world.add_component(a, POSITION, 1);
    world.add_component(b, POSITION, 2);
    world.add_component(b, VELOCITY, 20);
    world.add_component(c, VELOCITY, 30);
    world.add_component(d, POSITION, 4);
    world.add_component(d, VELOCITY, 40);
    world.process_entities();
    world.add_tag(b, VISIBLE);
    world.add_tag(d, VISIBLE);
    world.add_tag(d, STATIC);

    // archetypes in the order of their making: {}, {P}, {P, V}, {V}
    assert_eq!(entities_of(&world, &Query::new()), vec![a, b, d, c]);
    assert_eq!(entities_of(&world, &Query::new().read(POSITION)), vec![a, b, d]);
    assert_eq!(entities_of(&world, &Query::new().write(VELOCITY)), vec![b, d, c]);
    assert_eq!(entities_of(&world, &Query::new().read(POSITION).write(VELOCITY)), vec![b, d]);
    assert_eq!(entities_of(&world, &Query::new().read(HEALTH)), Vec::<Entity>::new());
    assert_eq!(entities_of(&world, &Query::new().with_tag(VISIBLE)), vec![b, d]);
    assert_eq!(
        entities_of(&world, &Query::new().read(POSITION).with_tag(VISIBLE).without_tag(STATIC)),
        vec![b]
    );
    assert_eq!(entities_of(&world, &Query::new().without_tag(VISIBLE)), vec![a, c]);

    let hits = world.query(&Query::new().read(POSITION).write(VELOCITY));
    assert_eq!(hits[0].archetype, 2);
    assert_eq!(hits[0].row, 0);
    assert_eq!(hits[1].archetype, 2);
    assert_eq!(hits[1].row, 1);
}

#[test]
fn point_lookup_agrees_with_iteration() {
    let mut world: World<u64> = World::new();
    let a = world.create().unwrap();
    let b = world.create().unwrap();
    world.add_component(a, POSITION, 1);
    world.add_component(b, VELOCITY, 2);
    world.process_entities();
    let query = Query::new().read(POSITION);
    let hit = world.query_get(&query, a).unwrap();
    assert_eq!(hit.entity, a);
    assert_eq!((hit.archetype, hit.row), world.entities().location(a).unwrap());
    assert!(world.query_get(&query, b).is_none());
    assert!(world.query_get(&query, Entity::new(5, 1)).is_none());
    let waiting = world.create().unwrap();
    assert!(world.query_get(&Query::new(), waiting).is_none());
}

#[test]
fn entities_can_be_created_through_the_registry() {
    let mut world: World<u64> = World::new();
    let e = world.entities_mut().create().unwrap();
    assert!(world.entities().is_alive(e));
    assert!(world.tags().has_tag(e, VISIBLE) == false);
    world.entities_mut().destroy(e);
    assert!(world.is_alive(e));
    world.process_entities();
    assert!(!world.is_alive(e));
}

#[test]
fn fetch_hands_out_the_components_in_key_order() {
    let mut world: World<u64> = World::new();
    let a = world.create().unwrap();
    let b = world.create().unwrap();
    world.add_component(a, VELOCITY, 2);
    world.add_component(a, POSITION, 1);
    world.add_component(a, HEALTH, 3);
    world.add_component(b, POSITION, 4);
    world.process_entities();

    let query = Query::new().write(VELOCITY).read(POSITION);
    let hits = world.query(&query);
    assert_eq!(hits.len(), 1);
    assert_eq!(hits[0].entity, a);
    assert_eq!(world.fetch(&query, &hits[0]), Some(vec![&1, &2]));

    let all = Query::new();
    let everything = world.query(&all);
    assert_eq!(everything.len(), 2);
    assert_eq!(world.fetch(&all, &everything[0]), Some(vec![]));

    // a match of another query, or a stale one, is no match here
    let only_position = world.query(&Query::new().read(POSITION));
    assert_eq!(only_position.len(), 2);
    assert_eq!(world.fetch(&query, &only_position[0]), Some(vec![&1, &2]));
    assert_eq!(world.fetch(&query, &only_position[1]), None);
    let stale = ard_ecs::query::Hit { entity: a, archetype: 0, row: 0 };
    assert_eq!(world.fetch(&query, &stale), None);
}

#[test]
fn commands_of_a_system_are_staged_together() {
    let mut world: World<u64> = World::new();
    let a = world.create().unwrap();
    let b = world.create().unwrap();
    world.process_entities();

    let mut commands = ard_ecs::commands::Commands::new();
    assert!(commands.is_empty());
    commands.add_component(a, POSITION, 1);
    commands.add_component(a, VELOCITY, 2);
    commands.remove_component(a, POSITION);
    commands.destroy(b);
    commands.destroy(Entity::new(9, 1));
    assert!(!commands.is_empty());
    world.stage(commands);

    // nothing has happened yet
    assert!(world.is_alive(b));
    assert_eq!(world.get(a, VELOCITY), None);
    world.process_entities();
    assert!(!world.is_alive(b));
    assert!(world.is_alive(a));
    assert_eq!(world.get(a, POSITION), None);
    assert_eq!(world.get(a, VELOCITY), Some(&2));
}

#[test]
fn processing_twice_changes_nothing() {
    let mut world: World<u64> = World::new();
    let a = world.create().unwrap();
    let b = world.create().unwrap();
    let c = world.create().unwrap();
    world.add_component(a, POSITION, 1);
    world.add_component(b, POSITION, 2);
    world.add_component(c, VELOCITY, 3);
    world.add_tag(b, VISIBLE);
    world.destroy(a);
    world.process_entities();

    let archetypes = world.archetypes().len();
    let places = (world.entities().location(a), world.entities().location(b), world.entities().location(c));
    let all = entities_of(&world, &Query::new());
    world.process_entities();
    assert_eq!(world.archetypes().len(), archetypes);
    assert_eq!(
        (world.entities().location(a), world.entities().location(b), world.entities().location(c)),
        places
    );
    assert_eq!(entities_of(&world, &Query::new()), all);
    assert_eq!(world.get(b, POSITION), Some(&2));
    assert_eq!(world.get(c, VELOCITY), Some(&3));
    assert!(world.has_tag(b, VISIBLE));
    assert!(!world.is_alive(a));
    assert!(world.is_alive(b));
}

#[test]
fn archetype_is_made_only_for_types_that_an_entity_gets() {
    let mut world: World<u64> = World::new();
    let e = world.create().unwrap();
    world.process_entities();
    assert_eq!(world.archetypes().len(), 1);
    // a type that is there already and a type that is not there to take make none
    world.add_component(e, POSITION, 1);
    world.add_component(e, POSITION, 2);
    world.remove_component(e, VELOCITY);
    world.process_entities();
    assert_eq!(world.archetypes().len(), 2);
    // nothing staged: none is made
    world.process_entities();
    assert_eq!(world.archetypes().len(), 2);
    // back and forth between two type sets makes one more, once
    for round in 0..3u64 {
        world.add_component(e, VELOCITY, round);
        world.process_entities();
        assert_eq!(world.archetypes().len(), 3);
        assert_eq!(world.entities().location(e), Some((2, 0)));
        world.remove_component(e, VELOCITY);
        world.process_entities();
        assert_eq!(world.archetypes().len(), 3);
        assert_eq!(world.entities().location(e), Some((1, 0)));
    }
}
