use ard_ecs::archetype::{Archetype, Archetypes};
use ard_ecs::entity::Entity;
use ard_ecs::type_set::TypeSet;

fn e(id: u32) -> Entity {
    Entity::new(id, 1)
}

#[test]
fn storage_starts_with_the_empty_archetype() {
    let storage: Archetypes<&str> = Archetypes::new();
    assert_eq!(storage.len(), 1);
    assert_eq!(storage.table(0).type_set().len(), 0);
    assert_eq!(storage.table(0).len(), 0);
}

#[test]
fn archetype_is_found_again_by_its_types() {
    let mut storage: Archetypes<&str> = Archetypes::new();
    let ab = storage.get_or_create_archetype(&TypeSet::from_keys(&vec![1, 2]));
    let a = storage.get_or_create_archetype(&TypeSet::from_keys(&vec![1]));
    assert_eq!(ab, 1);
    assert_eq!(a, 2);
    assert_eq!(storage.get_or_create_archetype(&TypeSet::from_keys(&vec![2, 1])), ab);
    assert_eq!(storage.get_or_create_archetype(&TypeSet::from_keys(&vec![1, 1])), a);
    assert_eq!(storage.get_or_create_archetype(&TypeSet::new()), 0);
    assert_eq!(storage.len(), 3);
    assert_eq!(storage.find(&TypeSet::from_keys(&vec![2])), None);
    assert_eq!(storage.find(&TypeSet::from_keys(&vec![1, 2])), Some(1));
}

#[test]
fn insert_appends_a_row_to_every_column() {
    let mut storage: Archetypes<&str> = Archetypes::new();
    let ab = storage.get_or_create_archetype(&TypeSet::from_keys(&vec![1, 2]));
    assert_eq!(storage.insert(ab, e(0), vec!["a0", "b0"]), 0);
    assert_eq!(storage.insert(ab, e(1), vec!["a1", "b1"]), 1);
    let table = storage.table(ab);
    assert_eq!(table.len(), 2);
    assert_eq!(table.entity_at(1), e(1));
    assert_eq!(table.get(0, 1), Some(&"a0"));
    assert_eq!(table.get(0, 2), Some(&"b0"));
    assert_eq!(table.get(1, 1), Some(&"a1"));
    assert_eq!(table.get(1, 2), Some(&"b1"));
    assert_eq!(table.get(1, 3), None);
    assert_eq!(*table.component(1, 0), "a1");
    assert_eq!(*table.component(1, 1), "b1");
}

#[test]
fn remove_swaps_the_last_row_in() {
    let mut storage: Archetypes<&str> = Archetypes::new();
    let ab = storage.get_or_create_archetype(&TypeSet::from_keys(&vec![1, 2]));
    storage.insert(ab, e(0), vec!["a0", "b0"]);
    storage.insert(ab, e(1), vec!["a1", "b1"]);
    storage.insert(ab, e(2), vec!["a2", "b2"]);

    let (row, moved) = storage.remove(ab, 0);
    assert_eq!(row, vec!["a0", "b0"]);
    assert_eq!(moved, Some(e(2)));
    assert_eq!(storage.table(ab).len(), 2);
    assert_eq!(storage.table(ab).entity_at(0), e(2));
    assert_eq!(storage.table(ab).get(0, 1), Some(&"a2"));
    assert_eq!(storage.table(ab).get(0, 2), Some(&"b2"));
    assert_eq!(storage.table(ab).entity_at(1), e(1));
    assert_eq!(storage.table(ab).get(1, 2), Some(&"b1"));

    let (row, moved) = storage.remove(ab, 1);
    assert_eq!(row, vec!["a1", "b1"]);
    assert_eq!(moved, None);
    let (row, moved) = storage.remove(ab, 0);
    assert_eq!(row, vec!["a2", "b2"]);
    assert_eq!(moved, None);
    assert_eq!(storage.table(ab).len(), 0);
}

#[test]
fn migrate_moves_shared_drops_removed_and_takes_added() {
    let mut storage: Archetypes<&str> = Archetypes::new();
    let from = storage.get_or_create_archetype(&TypeSet::from_keys(&vec![10, 20, 30]));
    let to = storage.get_or_create_archetype(&TypeSet::from_keys(&vec![5, 20, 25, 30, 40]));
    storage.insert(from, e(0), vec!["x10", "x20", "x30"]);
    storage.insert(from, e(1), vec!["y10", "y20", "y30"]);
    storage.insert(to, e(9), vec!["z5", "z20", "z25", "z30", "z40"]);

    let added_keys = TypeSet::from_keys(&vec![40, 5, 25]);
    let (row, moved) = storage.migrate(from, 0, to, &added_keys, vec!["n5", "n25", "n40"]);
    assert_eq!(row, 1);
    assert_eq!(moved, Some(e(1)));
    let table = storage.table(to);
    assert_eq!(table.len(), 2);
    assert_eq!(table.entity_at(1), e(0));
    assert_eq!(table.get(1, 5), Some(&"n5"));
    assert_eq!(table.get(1, 20), Some(&"x20"));
    assert_eq!(table.get(1, 25), Some(&"n25"));
    assert_eq!(table.get(1, 30), Some(&"x30"));
    assert_eq!(table.get(1, 40), Some(&"n40"));
    assert_eq!(table.get(0, 20), Some(&"z20"));
    assert_eq!(storage.table(from).len(), 1);
    assert_eq!(storage.table(from).entity_at(0), e(1));
    assert_eq!(storage.table(from).get(0, 10), Some(&"y10"));
}

#[test]
fn migrate_to_fewer_types_drops_the_rest() {
    let mut storage: Archetypes<u8> = Archetypes::new();
    let from = storage.get_or_create_archetype(&TypeSet::from_keys(&vec![1, 2, 3]));
    let to = storage.get_or_create_archetype(&TypeSet::from_keys(&vec![2]));
    storage.insert(from, e(4), vec![11, 22, 33]);
    let (row, moved) = storage.migrate(from, 0, to, &TypeSet::new(), vec![]);
    assert_eq!((row, moved), (0, None));
    assert_eq!(storage.table(to).get(0, 2), Some(&22));
    assert_eq!(storage.table(to).get(0, 1), None);
    assert_eq!(storage.table(from).len(), 0);

    let (row, moved) = storage.migrate(to, 0, 0, &TypeSet::new(), vec![]);
    assert_eq!((row, moved), (0, None));
    assert_eq!(storage.table(0).entity_at(0), e(4));
}

#[test]
fn replace_returns_the_old_value() {
    let mut storage: Archetypes<u8> = Archetypes::new();
    let a = storage.get_or_create_archetype(&TypeSet::from_keys(&vec![7, 8]));
    storage.insert(a, e(0), vec![1, 2]);
    storage.insert(a, e(1), vec![3, 4]);
    assert_eq!(storage.replace(a, 0, 1, 9), 2);
    assert_eq!(storage.table(a).get(0, 7), Some(&1));
    assert_eq!(storage.table(a).get(0, 8), Some(&9));
    assert_eq!(storage.table(a).get(1, 7), Some(&3));
    assert_eq!(storage.table(a).get(1, 8), Some(&4));
}

#[test]
fn single_table_rows() {
    let mut table: Archetype<u8> = Archetype::new(TypeSet::from_keys(&vec![2, 1]));
    assert_eq!(table.push_row(e(3), vec![10, 20]), 0);
    assert_eq!(table.push_row(e(4), vec![30, 40]), 1);
    assert_eq!(table.replace(1, 0, 31), 30);
    let (row, moved) = table.take_row(0);
    assert_eq!(row, vec![10, 20]);
    assert_eq!(moved, Some(e(4)));
    assert_eq!(table.get(0, 1), Some(&31));
    assert_eq!(table.get(0, 2), Some(&40));
}
