//! Where the rows stand: the archetypes without the component values.
//!
//! Which row an entity has depends on what happened before: a removal puts
//! the last row in the vacated place, a migration appends a row. These
//! functions say, step by step, where every entity stands after the staged
//! work. Together with the components of each entity they fix the whole
//! storage.

use vstd::prelude::*;
use crate::archetype::swap_removed;
use crate::entities::Command;
use crate::entity::Entity;
use crate::type_set::{ascending, lemma_ascending_determined};

verus! {

/// An archetype without its component values: its types, ascending, and
/// the entity of each row.
pub type Plot = (Seq<u64>, Seq<Entity>);

/// The archetypes without their component values, by index.
pub type Rows = Seq<Plot>;

/// `e` stands in row `r` of archetype `a`.
pub open spec fn stands_at(rows: Rows, e: Entity, a: int, r: int) -> bool {
    0 <= a < rows.len() && 0 <= r < rows[a].1.len() && rows[a].1[r] == e
}

/// `e` has a row.
pub open spec fn stands(rows: Rows, e: Entity) -> bool {
    exists|a: int, r: int| stands_at(rows, e, a, r)
}

/// The archetype and the row of `e`, if it has a row.
pub open spec fn place_of(rows: Rows, e: Entity) -> (int, int) {
    choose|a: int, r: int| stands_at(rows, e, a, r)
}

/// No entity has two rows.
pub open spec fn one_row_each(rows: Rows) -> bool {
    forall|a: int, r: int, b: int, q: int|
        0 <= a < rows.len() && 0 <= r < rows[a].1.len() && 0 <= b < rows.len() && 0 <= q
            < rows[b].1.len() && #[trigger] rows[a].1[r] == #[trigger] rows[b].1[q] ==> a == b
            && r == q
}

/// Where no entity has two rows, the place of an entity is the place where
/// it stands.
pub proof fn lemma_place(rows: Rows, e: Entity, a: int, r: int)
    requires
        one_row_each(rows),
        stands_at(rows, e, a, r),
    ensures
        stands(rows, e),
        place_of(rows, e) == (a, r),
{
    let (b, q) = place_of(rows, e);
    assert(stands_at(rows, e, b, q));
    assert(rows[a].1[r] == rows[b].1[q]);
}

/// The rows after `e` left: the last row of its archetype stands in its
/// place. Nothing changes if `e` has no row.
pub open spec fn rows_without(rows: Rows, e: Entity) -> Rows {
    if stands(rows, e) {
        let (a, r) = place_of(rows, e);
        rows.update(a, (rows[a].0, swap_removed(rows[a].1, r)))
    } else {
        rows
    }
}

/// The rows after `e` got the row behind the last one of archetype `b`.
pub open spec fn rows_with(rows: Rows, e: Entity, b: int) -> Rows {
    rows.update(b, (rows[b].0, rows[b].1.push(e)))
}

/// Some archetype has the types `keys`.
pub open spec fn has_plot(rows: Rows, keys: Seq<u64>) -> bool {
    exists|b: int| 0 <= b < rows.len() && (#[trigger] rows[b]).0 == keys
}

/// Index of the archetype with the types `keys`: the one that is there, or
/// the one that is appended for them.
pub open spec fn plot_of(rows: Rows, keys: Seq<u64>) -> int {
    if has_plot(rows, keys) {
        choose|b: int| 0 <= b < rows.len() && (#[trigger] rows[b]).0 == keys
    } else {
        rows.len() as int
    }
}

/// The rows with an archetype for the types `keys`: an empty one is
/// appended if there is none.
pub open spec fn rows_for(rows: Rows, keys: Seq<u64>) -> Rows {
    if has_plot(rows, keys) {
        rows
    } else {
        rows.push((keys, Seq::<Entity>::empty()))
    }
}

/// The rows after `e` moved to the archetype with the types `keys`.
pub open spec fn rows_moved(rows: Rows, e: Entity, keys: Seq<u64>) -> Rows {
    rows_with(rows_without(rows_for(rows, keys), e), e, plot_of(rows, keys))
}

/// The types `keys` and `key`, ascending.
pub open spec fn keys_with(keys: Seq<u64>, key: u64) -> Seq<u64> {
    choose|s: Seq<u64>| ascending(s) && s.to_set() == keys.to_set().insert(key)
}

/// The types `keys` but `key`, ascending.
pub open spec fn keys_without(keys: Seq<u64>, key: u64) -> Seq<u64> {
    choose|s: Seq<u64>| ascending(s) && s.to_set() == keys.to_set().remove(key)
}

/// An ascending list with the members of `keys` and `key` is `keys_with`.
pub proof fn lemma_keys_with(keys: Seq<u64>, key: u64, s: Seq<u64>)
    requires
        ascending(s),
        s.to_set() == keys.to_set().insert(key),
    ensures
        keys_with(keys, key) == s,
{
    lemma_ascending_determined(keys_with(keys, key), s);
}

/// An ascending list with the members of `keys` but `key` is `keys_without`.
pub proof fn lemma_keys_without(keys: Seq<u64>, key: u64, s: Seq<u64>)
    requires
        ascending(s),
        s.to_set() == keys.to_set().remove(key),
    ensures
        keys_without(keys, key) == s,
{
    lemma_ascending_determined(keys_without(keys, key), s);
}

/// The rows after one command. An entity that gets a type it lacks, or
/// loses one it has, moves to the archetype of its new types; anything else
/// moves no row.
pub open spec fn rows_after<C>(rows: Rows, c: Command<C>) -> Rows {
    match c {
        Command::Attach { entity, key, value } => if stands(rows, entity) && !rows[place_of(
            rows,
            entity,
        ).0].0.contains(key) {
            rows_moved(rows, entity, keys_with(rows[place_of(rows, entity).0].0, key))
        } else {
            rows
        },
        Command::Detach { entity, key } => if stands(rows, entity) && rows[place_of(
            rows,
            entity,
        ).0].0.contains(key) {
            rows_moved(rows, entity, keys_without(rows[place_of(rows, entity).0].0, key))
        } else {
            rows
        },
    }
}

/// The rows after a list of commands, the first command first.
pub open spec fn rows_after_all<C>(rows: Rows, cs: Seq<Command<C>>) -> Rows
    decreases cs.len(),
{
    if cs.len() == 0 {
        rows
    } else {
        rows_after(rows_after_all(rows, cs.drop_last()), cs.last())
    }
}

/// The rows after the entities `marked` left one after the other.
pub open spec fn rows_removed(rows: Rows, marked: Seq<Entity>) -> Rows
    decreases marked.len(),
{
    if marked.len() == 0 {
        rows
    } else {
        rows_without(rows_removed(rows, marked.drop_last()), marked.last())
    }
}

/// The rows after the entities `created` got their rows in the archetype
/// without components, one after the other: each that is alive and has no
/// row yet.
pub open spec fn rows_placed(rows: Rows, created: Seq<Entity>, alive: spec_fn(Entity) -> bool) -> Rows
    decreases created.len(),
{
    if created.len() == 0 {
        rows
    } else {
        let before = rows_placed(rows, created.drop_last(), alive);
        let e = created.last();
        if alive(e) && !stands(before, e) {
            rows_with(before, e, 0)
        } else {
            before
        }
    }
}

/// The entity that a command is about.
pub open spec fn subject<C>(c: Command<C>) -> Entity {
    match c {
        Command::Attach { entity, key, value } => entity,
        Command::Detach { entity, key } => entity,
    }
}

/// No archetype is added that is not needed: where a command adds one, no
/// archetype had its types, and the entity of the command stands in it,
/// alone.
pub proof fn lemma_new_archetype_is_used<C>(rows: Rows, c: Command<C>)
    ensures
        rows_after(rows, c).len() > rows.len() ==> {
            &&& !has_plot(rows, rows_after(rows, c).last().0)
            &&& rows_after(rows, c).last().1 == seq![subject(c)]
        },
{
    let e = subject(c);
    if rows_after(rows, c).len() > rows.len() {
        let keys = match c {
            Command::Attach { entity, key, value } => keys_with(rows[place_of(rows, e).0].0, key),
            Command::Detach { entity, key } => keys_without(rows[place_of(rows, e).0].0, key),
        };
        assert(rows_after(rows, c) == rows_moved(rows, e, keys));
        assert(!has_plot(rows, keys));
        let wide = rows_for(rows, keys);
        let n = rows.len() as int;
        assert(wide[n].1.len() == 0);
        let (a0, r0) = place_of(rows, e);
        assert(stands_at(rows, e, a0, r0));
        assert(stands_at(wide, e, a0, r0));
        let (a, r) = place_of(wide, e);
        assert(stands_at(wide, e, a, r));
        assert(a != n);
        assert(rows_moved(rows, e, keys)[n].1 =~= seq![e]);
    }
}

/// One command adds one archetype at most.
pub proof fn lemma_rows_after_len<C>(rows: Rows, c: Command<C>)
    ensures
        rows.len() <= rows_after(rows, c).len() <= rows.len() + 1,
{
}

/// A list of commands adds at most as many archetypes as it has commands.
pub proof fn lemma_rows_after_all_len<C>(rows: Rows, cs: Seq<Command<C>>)
    ensures
        rows.len() <= rows_after_all(rows, cs).len() <= rows.len() + cs.len(),
    decreases cs.len(),
{
    if cs.len() > 0 {
        lemma_rows_after_all_len(rows, cs.drop_last());
        lemma_rows_after_len(rows_after_all(rows, cs.drop_last()), cs.last());
    }
}

} // verus!
