//! The entity registry.
//!
//! The registry hands out entity handles and knows, for every entity, whether
//! it is alive and where its components are stored. Creating and destroying
//! entities is staged: `create` and `destroy` only record what is wanted, and
//! the archetypes change when the staged work is processed, so that rows stay
//! where they are while anything reads the storage.

use vstd::prelude::*;
use crate::archetype::{
    Archetypes, components_map, lemma_migrated_components, lemma_replaced_components, migrated_row,
    migration_fits, reversed, swap_removed,
};
use crate::entity::Entity;
use crate::rows::{
    lemma_keys_with, lemma_keys_without, lemma_place, one_row_each, place_of, rows_after,
    rows_after_all, rows_for, rows_moved, rows_placed, rows_removed, rows_with, rows_without, stands,
    stands_at,
};
use crate::tag::Tags;
use crate::type_set::TypeSet;

verus! {

/// A staged change to the components of an entity.
pub enum Command<C> {
    /// Give the entity the component `value` of type `key`.
    Attach { entity: Entity, key: u64, value: C },
    /// Take the component of type `key` from the entity.
    Detach { entity: Entity, key: u64 },
}

/// The entities with their components, by type key.
pub type Model<C> = Map<Entity, Map<u64, C>>;

/// What one command does to the entities: it changes the components of its
/// entity, and nothing if that entity is not there.
pub open spec fn apply<C>(m: Model<C>, c: Command<C>) -> Model<C> {
    match c {
        Command::Attach { entity, key, value } => if m.contains_key(entity) {
            m.insert(entity, m[entity].insert(key, value))
        } else {
            m
        },
        Command::Detach { entity, key } => if m.contains_key(entity) {
            m.insert(entity, m[entity].remove(key))
        } else {
            m
        },
    }
}

/// What a list of commands does, the first command first.
pub open spec fn apply_all<C>(m: Model<C>, cs: Seq<Command<C>>) -> Model<C>
    decreases cs.len(),
{
    if cs.len() == 0 {
        m
    } else {
        apply(apply_all(m, cs.drop_last()), cs.last())
    }
}

/// What the registry records of one entity index.
#[derive(Clone, Copy, Debug)]
pub struct EntityInfo {
    /// Generation of the entity that has, or last had, the index.
    pub ver: u32,
    /// Whether that entity is alive.
    pub alive: bool,
    /// Whether it has a row in an archetype.
    pub placed: bool,
    /// Index of the archetype that holds its row.
    pub archetype: usize,
    /// Index of its row in that archetype.
    pub row: usize,
}

/// The entity registry.
pub struct Entities {
    infos: Vec<EntityInfo>,
    free: Vec<u32>,
    created: Vec<Entity>,
    destroyed: Vec<Entity>,
}

impl Entities {
    /// The record of every entity index that was ever handed out.
    pub closed spec fn view(&self) -> Seq<EntityInfo> {
        self.infos@
    }

    /// The entities that were created and have no row yet, oldest first.
    pub closed spec fn created(&self) -> Seq<Entity> {
        self.created@
    }

    /// The entities that are marked for removal, oldest first.
    pub closed spec fn destroyed(&self) -> Seq<Entity> {
        self.destroyed@
    }

    /// The indices that are free for a later generation, the one to be
    /// used next last.
    pub closed spec fn free(&self) -> Seq<u32> {
        self.free@
    }

    /// The indices that become free when the entities `marked` are removed
    /// one after the other: that of every entity that is alive, at its first
    /// place in `marked`, unless its generation is the last that an index
    /// can have.
    pub open spec fn freed(&self, marked: Seq<Entity>) -> Seq<u32>
        decreases marked.len(),
    {
        if marked.len() == 0 {
            Seq::<u32>::empty()
        } else {
            let before = self.freed(marked.drop_last());
            let e = marked.last();
            if self.alive(e) && !marked.drop_last().contains(e) && e.ver < u32::MAX {
                before.push(e.id)
            } else {
                before
            }
        }
    }

    /// Which indices become free depends on who is alive only.
    proof fn lemma_freed_same(&self, other: &Entities, marked: Seq<Entity>)
        requires
            forall|x: Entity| self.alive(x) == other.alive(x),
        ensures
            self.freed(marked) == other.freed(marked),
        decreases marked.len(),
    {
        if marked.len() > 0 {
            self.lemma_freed_same(other, marked.drop_last());
        }
    }

    /// The handle that the record of index `i` stands for.
    pub open spec fn handle(&self, i: int) -> Entity {
        Entity { id: i as u32, ver: self@[i].ver }
    }

    /// `e` is alive: its index is in use by its generation.
    pub open spec fn alive(&self, e: Entity) -> bool {
        e.id < self@.len() && self@[e.id as int].alive && self@[e.id as int].ver == e.ver
    }

    /// `e` is alive and has a row in an archetype.
    pub open spec fn placed(&self, e: Entity) -> bool {
        self.alive(e) && self@[e.id as int].placed
    }

    /// `e` was alive once and is not any more: its index has moved on to a
    /// later generation, or its own generation has ended.
    pub open spec fn retired(&self, e: Entity) -> bool {
        &&& e.id < self@.len()
        &&& 1 <= e.ver <= self@[e.id as int].ver
        &&& e.ver == self@[e.id as int].ver ==> !self@[e.id as int].alive
    }

    /// `next` can come after `self` in the life of one registry: no index is
    /// lost, no generation goes back, and a generation that has ended does
    /// not start again.
    pub open spec fn evolves_to(&self, next: &Entities) -> bool {
        &&& self@.len() <= next@.len()
        &&& forall|i: int|
            0 <= i < self@.len() ==> {
                ||| (#[trigger] self@[i]).ver < next@[i].ver
                ||| self@[i].ver == next@[i].ver && (next@[i].alive ==> self@[i].alive)
            }
    }

    /// The indices fit in 32 bits, generations start at 1, and only live
    /// entities have rows.
    spec fn slots_ok(&self) -> bool {
        &&& self.infos@.len() <= 0x1_0000_0000
        &&& forall|i: int|
            0 <= i < self.infos@.len() ==> (#[trigger] self.infos@[i]).ver >= 1 && (self.infos@[i].placed
                ==> self.infos@[i].alive)
    }

    /// Every free index is that of a dead entity whose generation has a
    /// successor, and no index is free twice.
    spec fn free_ok(&self) -> bool {
        &&& forall|j: int|
            0 <= j < self.free@.len() ==> {
                &&& (#[trigger] self.free@[j]) < self.infos@.len()
                &&& !self.infos@[self.free@[j] as int].alive
                &&& self.infos@[self.free@[j] as int].ver < u32::MAX
            }
        &&& forall|j: int, k: int| 0 <= j < k < self.free@.len() ==> self.free@[j] != self.free@[k]
    }

    /// Every live entity without a row is listed from place `from` on in `created`.
    spec fn created_ok(&self, from: int) -> bool {
        forall|i: int|
            0 <= i < self.infos@.len() && (#[trigger] self.infos@[i]).alive && !self.infos@[i].placed
                ==> exists|j: int| from <= j < self.created@.len() && #[trigger] self.created@[j] == self.handle(i)
    }

    /// `created_ok` looks at the records and at the staged creations only.
    proof fn lemma_created_ok_kept(&self, before: &Entities, from: int)
        requires
            before.created_ok(from),
            self.infos@.len() == before.infos@.len(),
            forall|i: int|
                0 <= i < self.infos@.len() && (#[trigger] self.infos@[i]).alive && !self.infos@[i].placed
                    ==> before.infos@[i].alive && !before.infos@[i].placed && before.infos@[i].ver
                    == self.infos@[i].ver,
            self.created@ == before.created@,
        ensures
            self.created_ok(from),
    {
        assert forall|i: int|
            0 <= i < self.infos@.len() && (#[trigger] self.infos@[i]).alive && !self.infos@[i].placed
            implies exists|j: int| from <= j < self.created@.len() && #[trigger] self.created@[j] == self.handle(i) by {
            assert(before.infos@[i].alive);
            let j = choose|j: int| from <= j < before.created@.len() && #[trigger] before.created@[j] == before.handle(i);
            assert(self.created@[j] == self.handle(i));
        }
    }

    /// The registry is well formed: generations start at 1, only live
    /// entities have rows, free indices are dead, and every live entity
    /// without a row waits in `created()`.
    pub closed spec fn wf(&self) -> bool {
        &&& self.slots_ok()
        &&& self.free_ok()
        &&& self.created_ok(0)
    }

    /// What `wf` says of the records.
    pub proof fn lemma_wf(&self)
        requires
            self.wf(),
        ensures
            self@.len() <= 0x1_0000_0000,
            forall|i: int| 0 <= i < self@.len() ==> (#[trigger] self@[i]).ver >= 1,
            forall|e: Entity| self.alive(e) ==> e.ver >= 1,
            forall|e: Entity| self.alive(e) && !self.placed(e) ==> self.created().contains(e),
            forall|j: int|
                0 <= j < self.free().len() ==> (#[trigger] self.free()[j]) < self@.len()
                    && !self@[self.free()[j] as int].alive,
    {
        assert forall|e: Entity| self.alive(e) && !self.placed(e) implies self.created().contains(e) by {
            let i = e.id as int;
            assert(self.infos@[i].alive && !self.infos@[i].placed);
            let j = choose|j: int| 0 <= j < self.created@.len() && #[trigger] self.created@[j] == self.handle(i);
            assert(self.created@[j] == e);
        }
    }

    /// An index has one generation at a time: two live handles with the same
    /// index are the same handle.
    pub proof fn lemma_one_live_generation(&self, a: Entity, b: Entity)
        requires
            self.alive(a),
            self.alive(b),
            a.id == b.id,
        ensures
            a == b,
    {
    }

    /// A retired handle is dead, and stays retired whatever happens to the
    /// registry afterwards, also when its index is used again.
    pub proof fn lemma_retired_stays_dead(&self, next: &Entities, e: Entity)
        requires
            self.evolves_to(next),
            self.retired(e),
        ensures
            !self.alive(e),
            next.retired(e),
            !next.alive(e),
    {
        assert(self@[e.id as int].ver <= next@[e.id as int].ver);
    }

    /// The order of registry states is reflexive and transitive.
    pub proof fn lemma_evolves_transitive(&self, mid: &Entities, next: &Entities)
        requires
            self.evolves_to(mid),
            mid.evolves_to(next),
        ensures
            self.evolves_to(self),
            self.evolves_to(next),
    {
        assert forall|i: int| 0 <= i < self@.len() implies {
            ||| (#[trigger] self@[i]).ver < next@[i].ver
            ||| self@[i].ver == next@[i].ver && (next@[i].alive ==> self@[i].alive)
        } by {
            assert(self@[i].ver <= mid@[i].ver);
            assert(mid@[i].ver <= next@[i].ver);
        }
    }

    /// The registry without entities.
    pub fn new() -> (s: Entities)
        ensures
            s.wf(),
            s@.len() == 0,
            s.free().len() == 0,
            s.created().len() == 0,
            s.destroyed().len() == 0,
    {
        Entities { infos: Vec::new(), free: Vec::new(), created: Vec::new(), destroyed: Vec::new() }
    }

    /// Number of entity indices that were ever handed out.
    pub fn len(&self) -> (n: usize)
        ensures
            n == self@.len(),
    {
        self.infos.len()
    }

    /// Whether `e` is alive.
    pub fn is_alive(&self, e: Entity) -> (r: bool)
        ensures
            r == self.alive(e),
    {
        let i = e.id as usize;
        i < self.infos.len() && self.infos[i].alive && self.infos[i].ver == e.ver
    }

    /// The archetype and the row of `e`, if it is alive and has a row.
    pub fn location(&self, e: Entity) -> (r: Option<(usize, usize)>)
        ensures
            match r {
                Some((a, row)) => self.placed(e) && a == self@[e.id as int].archetype && row
                    == self@[e.id as int].row,
                None => !self.placed(e),
            },
    {
        let i = e.id as usize;
        if i < self.infos.len() && self.infos[i].alive && self.infos[i].ver == e.ver
            && self.infos[i].placed {
            Some((self.infos[i].archetype, self.infos[i].row))
        } else {
            None
        }
    }

    /// Creates an entity and stages its placement in the archetype without
    /// components. The handle is alive at once. A free index is used again
    /// with the next generation; else a new index is taken. Returns `None`,
    /// and changes nothing, when neither can be had: no index is free and
    /// all 2^32 of them are taken.
    pub fn create(&mut self) -> (r: Option<Entity>)
        requires
            old(self).wf(),
        ensures
            final(self).wf(),
            old(self).evolves_to(final(self)),
            final(self).destroyed() == old(self).destroyed(),
            final(self).free() == (if old(self).free().len() > 0 {
                old(self).free().drop_last()
            } else {
                old(self).free()
            }),
            match r {
                Some(e) => {
                    &&& e.ver >= 1
                    &&& !old(self).alive(e)
                    &&& final(self).alive(e)
                    &&& !final(self).placed(e)
                    &&& final(self).created() == old(self).created().push(e)
                    &&& old(self).free().len() > 0 ==> e.id == old(self).free().last()
                    &&& old(self).free().len() == 0 ==> e.id == old(self)@.len()
                    &&& if e.id < old(self)@.len() {
                        &&& !old(self)@[e.id as int].alive
                        &&& e.ver == old(self)@[e.id as int].ver + 1
                        &&& final(self)@ == old(self)@.update(e.id as int, final(self)@[e.id as int])
                    } else {
                        &&& e.id == old(self)@.len()
                        &&& e.ver == 1
                        &&& final(self)@ == old(self)@.push(final(self)@[e.id as int])
                    }
                },
                None => {
                    &&& final(self)@ == old(self)@
                    &&& final(self).created() == old(self).created()
                    &&& old(self).free().len() == 0
                    &&& old(self)@.len() == 0x1_0000_0000
                },
            },
    {
        let e = match self.free.pop() {
            Some(id) => {
                let i = id as usize;
                let ver = self.infos[i].ver + 1;
                self.infos[i] = EntityInfo { ver, alive: true, placed: false, archetype: 0, row: 0 };
                Entity { id, ver }
            },
            None => {
                let n = self.infos.len();
                if n > u32::MAX as usize {
                    proof {
                        self.lemma_created_ok_kept(old(self), 0);
                    }
                    return None;
                }
                self.infos.push(
                    EntityInfo { ver: 1, alive: true, placed: false, archetype: 0, row: 0 },
                );
                Entity { id: n as u32, ver: 1 }
            },
        };
        self.created.push(e);
        proof {
            assert(self.created@[self.created@.len() - 1] == e);
            assert forall|i: int|
                0 <= i < self.infos@.len() && (#[trigger] self.infos@[i]).alive && !self.infos@[i].placed
                implies exists|j: int| 0 <= j < self.created@.len() && #[trigger] self.created@[j] == self.handle(i) by {
                if i == e.id {
                    assert(self.created@[self.created@.len() - 1] == self.handle(i));
                } else {
                    assert(old(self).infos@[i] == self.infos@[i]);
                    let j = choose|j: int| 0 <= j < old(self).created@.len() && #[trigger] old(self).created@[j] == old(self).handle(i);
                    assert(self.created@[j] == self.handle(i));
                }
            }
            assert forall|j: int| 0 <= j < self.free@.len() implies {
                &&& (#[trigger] self.free@[j]) < self.infos@.len()
                &&& !self.infos@[self.free@[j] as int].alive
                &&& self.infos@[self.free@[j] as int].ver < u32::MAX
            } by {
                assert(self.free@[j] == old(self).free@[j]);
                assert(self.free@[j] != e.id) by {
                    if e.id < old(self).infos@.len() {
                        assert(old(self).free@[old(self).free@.len() - 1] == e.id);
                    }
                }
            }
        }
        Some(e)
    }

    /// Marks `e` for removal. It stays alive until the staged work is
    /// processed. Nothing happens if `e` is not alive.
    pub fn destroy(&mut self, e: Entity)
        requires
            old(self).wf(),
        ensures
            final(self).wf(),
            final(self)@ == old(self)@,
            old(self).evolves_to(final(self)),
            final(self).created() == old(self).created(),
            final(self).free() == old(self).free(),
            final(self).destroyed() == (if old(self).alive(e) {
                old(self).destroyed().push(e)
            } else {
                old(self).destroyed()
            }),
            old(self).alive(e) ==> final(self).destroyed().contains(e),
    {
        if self.is_alive(e) {
            self.destroyed.push(e);
            assert(self.destroyed@[self.destroyed@.len() - 1] == e);
            proof {
                self.lemma_created_ok_kept(old(self), 0);
            }
        }
    }

    /// The registry and the archetypes agree: the record of every entity
    /// with a row points at a row that holds that entity, and every row
    /// holds a live entity whose record points back at it.
    pub open spec fn consistent<C>(&self, archetypes: &Archetypes<C>) -> bool {
        &&& forall|i: int|
            0 <= i < self@.len() && (#[trigger] self@[i]).placed ==> {
                &&& self@[i].archetype < archetypes@.len()
                &&& self@[i].row < archetypes@[self@[i].archetype as int].entities().len()
                &&& archetypes@[self@[i].archetype as int].entities()[self@[i].row as int]
                    == self.handle(i)
            }
        &&& forall|a: int, r: int|
            0 <= a < archetypes@.len() && 0 <= r < archetypes@[a].entities().len() ==> {
                &&& self.placed(#[trigger] archetypes@[a].entities()[r])
                &&& self@[archetypes@[a].entities()[r].id as int].archetype == a
                &&& self@[archetypes@[a].entities()[r].id as int].row == r
            }
    }

    /// A change to the registry that touches no record of an entity with a
    /// row, and gives no entity a row, leaves it in step with the archetypes.
    /// Creating an entity and marking one for removal are such changes.
    pub proof fn lemma_staging_keeps_consistent<C>(&self, next: &Entities, archetypes: &Archetypes<C>)
        requires
            self.consistent(archetypes),
            self@.len() <= next@.len(),
            forall|i: int| 0 <= i < self@.len() && (#[trigger] self@[i]).placed ==> next@[i] == self@[i],
            forall|i: int|
                0 <= i < next@.len() && (#[trigger] next@[i]).placed ==> i < self@.len()
                    && self@[i].placed,
        ensures
            next.consistent(archetypes),
    {
        assert forall|i: int| 0 <= i < next@.len() && (#[trigger] next@[i]).placed implies {
            &&& next@[i].archetype < archetypes@.len()
            &&& next@[i].row < archetypes@[next@[i].archetype as int].entities().len()
            &&& archetypes@[next@[i].archetype as int].entities()[next@[i].row as int]
                == next.handle(i)
        } by {
            assert(self@[i].placed);
        }
        assert forall|a: int, r: int|
            0 <= a < archetypes@.len() && 0 <= r < archetypes@[a].entities().len() implies {
            &&& next.placed(#[trigger] archetypes@[a].entities()[r])
            &&& next@[archetypes@[a].entities()[r].id as int].archetype == a
            &&& next@[archetypes@[a].entities()[r].id as int].row == r
        } by {
            let x = archetypes@[a].entities()[r];
            assert(self.placed(x));
            assert(self@[x.id as int].placed);
        }
    }

    /// Where registry and archetypes agree, the rows fix the records: no
    /// entity has two rows, an entity has a row exactly if its record says
    /// so, and it stands in the archetype and the row that its record names.
    pub proof fn lemma_rows_fix_records<C>(&self, archetypes: &Archetypes<C>)
        requires
            self.consistent(archetypes),
        ensures
            one_row_each(archetypes.rows()),
            forall|e: Entity| self.placed(e) <==> #[trigger] stands(archetypes.rows(), e),
            forall|e: Entity|
                self.placed(e) ==> #[trigger] place_of(archetypes.rows(), e) == (
                    self@[e.id as int].archetype as int,
                    self@[e.id as int].row as int,
                ),
            forall|e: Entity, a: int, r: int| #[trigger]
                stands_at(archetypes.rows(), e, a, r) ==> self.placed(e) && self@[e.id as int].archetype
                    == a && self@[e.id as int].row == r,
    {
        let rows = archetypes.rows();
        assert forall|e: Entity, a: int, r: int| #[trigger] stands_at(rows, e, a, r) implies self.placed(e)
            && self@[e.id as int].archetype == a && self@[e.id as int].row == r by {
            assert(archetypes@[a].entities()[r] == e);
        }
        assert forall|a: int, r: int, b: int, q: int|
            0 <= a < rows.len() && 0 <= r < rows[a].1.len() && 0 <= b < rows.len() && 0 <= q
                < rows[b].1.len() && #[trigger] rows[a].1[r] == #[trigger] rows[b].1[q] implies a == b
            && r == q by {
            assert(stands_at(rows, rows[a].1[r], a, r));
            assert(stands_at(rows, rows[a].1[r], b, q));
        }
        assert forall|e: Entity| self.placed(e) implies #[trigger] stands(rows, e) by {
            let a = self@[e.id as int].archetype as int;
            let r = self@[e.id as int].row as int;
            assert(archetypes@[a].entities()[r] == self.handle(e.id as int));
            assert(stands_at(rows, e, a, r));
        }
        assert forall|e: Entity| self.placed(e) implies #[trigger] place_of(rows, e) == (
            self@[e.id as int].archetype as int,
            self@[e.id as int].row as int,
        ) by {
            let a = self@[e.id as int].archetype as int;
            let r = self@[e.id as int].row as int;
            assert(archetypes@[a].entities()[r] == self.handle(e.id as int));
            assert(stands_at(rows, e, a, r));
            lemma_place(rows, e, a, r);
        }
        assert forall|e: Entity| #[trigger] stands(rows, e) implies self.placed(e) by {
            let (a, r) = place_of(rows, e);
            assert(stands_at(rows, e, a, r));
        }
    }

    /// Where registry and archetypes agree, rows and components fix the
    /// columns: what stands in a column at a row is the component of that
    /// type of the entity in that row.
    pub proof fn lemma_rows_fix_values<C>(&self, archetypes: &Archetypes<C>, a: int, r: int, i: int)
        requires
            self.consistent(archetypes),
            archetypes.wf(),
            0 <= a < archetypes@.len(),
            0 <= r < archetypes@[a].entities().len(),
            0 <= i < archetypes@[a].keys().len(),
        ensures
            archetypes@[a].columns()[i][r] == self.comps(archetypes, archetypes@[a].entities()[r])[archetypes@[a].keys()[i]],
            archetypes@[a].columns().len() == archetypes@[a].keys().len(),
            archetypes@[a].columns()[i].len() == archetypes@[a].entities().len(),
    {
        let e = archetypes@[a].entities()[r];
        assert(self.placed(e));
        assert(archetypes@[a].wf());
        archetypes@[a].lemma_wf();
        let keys = archetypes@[a].keys();
        assert(keys.contains(keys[i]));
        let j = keys.index_of(keys[i]);
        assert(0 <= j < keys.len() && keys[j] == keys[i]);
        if i < j {
            assert(keys[i] < keys[j]);
        } else if j < i {
            assert(keys[j] < keys[i]);
        }
    }

    /// `next` and `after` are this registry and `before` after the one
    /// entity `e` left its row: its archetype is `before`'s after a
    /// swap-remove of that row, no other archetype has changed, and the
    /// record of the entity that stood in the last row, if that was another
    /// one, names the vacated row.
    pub open spec fn one_left<C>(
        &self,
        before: &Archetypes<C>,
        next: &Entities,
        after: &Archetypes<C>,
        e: Entity,
    ) -> bool {
        let a = self@[e.id as int].archetype as int;
        let r = self@[e.id as int].row as int;
        let last = before@[a].entities().last();
        &&& after.same_but(*before, a)
        &&& after@[a].is_take_of(before@[a], r)
        &&& r + 1 < before@[a].entities().len() ==> {
            &&& next.placed(last)
            &&& next@[last.id as int].archetype == a
            &&& next@[last.id as int].row == r
        }
    }

    /// The component types of `e`, ascending. Meaningful where `e` has a row.
    pub open spec fn keys_of<C>(&self, archetypes: &Archetypes<C>, e: Entity) -> Seq<u64> {
        archetypes@[self@[e.id as int].archetype as int].keys()
    }

    /// The components of `e`, in the order of its types. Meaningful where `e` has a row.
    pub open spec fn row_of<C>(&self, archetypes: &Archetypes<C>, e: Entity) -> Seq<C> {
        archetypes@[self@[e.id as int].archetype as int].row(self@[e.id as int].row as int)
    }

    /// The components of `e` by type key. Meaningful where `e` has a row.
    pub open spec fn comps<C>(&self, archetypes: &Archetypes<C>, e: Entity) -> Map<u64, C> {
        components_map(self.keys_of(archetypes, e), self.row_of(archetypes, e))
    }

    /// Gives every staged creation its row in the archetype without components.
    fn place_created<C>(&mut self, archetypes: &mut Archetypes<C>)
        requires
            old(self).wf(),
            old(archetypes).wf(),
            old(self).consistent(old(archetypes)),
        ensures
            final(self).wf(),
            final(archetypes).wf(),
            final(self).consistent(final(archetypes)),
            old(self).evolves_to(final(self)),
            final(self).created().len() == 0,
            final(self).destroyed() == old(self).destroyed(),
            final(self).free() == old(self).free(),
            final(self)@.len() == old(self)@.len(),
            forall|i: int|
                0 <= i < old(self)@.len() ==> (#[trigger] final(self)@[i]).ver == old(self)@[i].ver,
            forall|x: Entity| final(self).alive(x) == old(self).alive(x),
            forall|x: Entity| final(self).placed(x) == old(self).alive(x),
            forall|x: Entity|
                old(self).placed(x) ==> #[trigger] final(self).comps(final(archetypes), x) == old(self).comps(old(archetypes), x),
            forall|x: Entity|
                old(self).alive(x) && !old(self).placed(x) ==> #[trigger] final(self).comps(
                    final(archetypes),
                    x,
                ) == Map::<u64, C>::empty(),
            final(archetypes).same_but(*old(archetypes), 0),
            final(archetypes)@[0].keys() == old(archetypes)@[0].keys(),
            final(archetypes).rows() == rows_placed(
                old(archetypes).rows(),
                old(self).created(),
                |x: Entity| old(self).alive(x),
            ),
            old(self).created().len() == 0 ==> *final(archetypes) == *old(archetypes) && final(self)@
                == old(self)@,
    {
        let ghost was_alive = |x: Entity| old(self).alive(x);
        proof {
            assert(self.created@.take(0) =~= Seq::<Entity>::empty());
        }
        let n = self.created.len();
        let mut j: usize = 0;
        while j < n
            invariant
                j <= n,
                n == self.created@.len(),
                self.created@ == old(self).created@,
                self.destroyed@ == old(self).destroyed@,
                self.free@ == old(self).free@,
                self.infos@.len() == old(self).infos@.len(),
                was_alive == (|x: Entity| old(self).alive(x)),
                archetypes.rows() == rows_placed(
                    old(archetypes).rows(),
                    self.created@.take(j as int),
                    was_alive,
                ),
                n == 0 ==> *archetypes == *old(archetypes) && self.infos@ == old(self).infos@,
                self.slots_ok(),
                self.free_ok(),
                self.created_ok(j as int),
                archetypes.wf(),
                old(archetypes).wf(),
                self.consistent(archetypes),
                old(self).consistent(old(archetypes)),
                archetypes.same_but(*old(archetypes), 0),
                archetypes@[0].keys() == old(archetypes)@[0].keys(),
                archetypes@[0].keys().len() == 0,
                old(archetypes)@[0].entities().len() <= archetypes@[0].entities().len(),
                forall|q: int|
                    0 <= q < old(archetypes)@[0].entities().len() ==> archetypes@[0].entities()[q]
                        == old(archetypes)@[0].entities()[q],
                forall|i: int|
                    0 <= i < self.infos@.len() ==> {
                        &&& (#[trigger] self.infos@[i]).ver == old(self).infos@[i].ver
                        &&& self.infos@[i].alive == old(self).infos@[i].alive
                        &&& old(self).infos@[i].placed ==> self.infos@[i] == old(self).infos@[i]
                        &&& self.infos@[i].placed && !old(self).infos@[i].placed
                            ==> self.infos@[i].archetype == 0
                    },
            decreases n - j,
        {
            let e = self.created[j];
            let i = e.id as usize;
            proof {
                self.lemma_rows_fix_records(archetypes);
                assert(self.created@.take(j + 1).drop_last() =~= self.created@.take(j as int));
                assert(self.created@.take(j + 1).last() == e);
                assert(was_alive(e) == self.alive(e));
            }
            if i < self.infos.len() && self.infos[i].alive && self.infos[i].ver == e.ver
                && !self.infos[i].placed {
                let ghost before = *self;
                let ghost arch_before = *archetypes;
                let row = archetypes.insert(0, e, Vec::new());
                let ver = self.infos[i].ver;
                self.infos[i] = EntityInfo { ver, alive: true, placed: true, archetype: 0, row };
                proof {
                    assert(archetypes@[0].entities() == arch_before@[0].entities().push(e));
                    assert(archetypes.rows() =~= rows_with(arch_before.rows(), e, 0)) by {
                        assert forall|c: int| 0 < c < arch_before@.len() implies archetypes.rows()[c]
                            == arch_before.rows()[c] by {
                            assert(archetypes@[c] == arch_before@[c]);
                        }
                    }
                    assert forall|k: int|
                        0 <= k < self.infos@.len() && (#[trigger] self.infos@[k]).placed implies {
                        &&& self.infos@[k].archetype < archetypes@.len()
                        &&& self.infos@[k].row < archetypes@[self.infos@[k].archetype as int].entities().len()
                        &&& archetypes@[self.infos@[k].archetype as int].entities()[self.infos@[k].row as int]
                            == self.handle(k)
                    } by {
                        if k != i {
                            assert(self.infos@[k] == before.infos@[k]);
                            assert(before.handle(k) == self.handle(k));
                            if before.infos@[k].archetype != 0 {
                                assert(archetypes@[before.infos@[k].archetype as int]
                                    == arch_before@[before.infos@[k].archetype as int]);
                            }
                        }
                    }
                    assert forall|a: int, r: int|
                        0 <= a < archetypes@.len() && 0 <= r < archetypes@[a].entities().len() implies {
                        &&& self.placed(#[trigger] archetypes@[a].entities()[r])
                        &&& self@[archetypes@[a].entities()[r].id as int].archetype == a
                        &&& self@[archetypes@[a].entities()[r].id as int].row == r
                    } by {
                        if a == 0 && r == row {
                        } else {
                            if a != 0 {
                                assert(archetypes@[a] == arch_before@[a]);
                            }
                            let x = arch_before@[a].entities()[r];
                            assert(before.placed(x));
                            assert(x.id != e.id);
                            assert(self.infos@[x.id as int] == before.infos@[x.id as int]);
                        }
                    }
                    assert forall|k: int|
                        0 <= k < self.infos@.len() && (#[trigger] self.infos@[k]).alive
                            && !self.infos@[k].placed implies exists|m: int|
                        j + 1 <= m < self.created@.len() && #[trigger] self.created@[m] == self.handle(k) by {
                        assert(self.infos@[k] == before.infos@[k]);
                        let m = choose|m: int|
                            j <= m < before.created@.len() && #[trigger] before.created@[m]
                                == before.handle(k);
                        assert(self.created@[m] == self.handle(k));
                        assert(m != j);
                    }
                    assert(self.free_ok()) by {
                        assert forall|f: int| 0 <= f < self.free@.len() implies {
                            &&& (#[trigger] self.free@[f]) < self.infos@.len()
                            &&& !self.infos@[self.free@[f] as int].alive
                            &&& self.infos@[self.free@[f] as int].ver < u32::MAX
                        } by {
                            assert(!before.infos@[before.free@[f] as int].alive);
                        }
                    }
                }
            } else {
                proof {
                    assert forall|k: int|
                        0 <= k < self.infos@.len() && (#[trigger] self.infos@[k]).alive
                            && !self.infos@[k].placed implies exists|m: int|
                        j + 1 <= m < self.created@.len() && #[trigger] self.created@[m] == self.handle(k) by {
                        let m = choose|m: int|
                            j <= m < self.created@.len() && #[trigger] self.created@[m] == self.handle(k);
                        assert(m != j);
                    }
                }
            }
            j += 1;
        }
        let ghost pre = *self;
        self.created.clear();
        proof {
            assert(pre.created@.take(n as int) =~= pre.created@);
            assert(self@ == pre@);
            assert(forall|i: int| self.handle(i) == pre.handle(i));
            assert(forall|x: Entity| self.placed(x) == pre.placed(x));
            assert(self.consistent(archetypes));
            assert forall|x: Entity| self.placed(x) == old(self).alive(x) by {
                if old(self).alive(x) {
                    let k = x.id as int;
                    if !self.infos@[k].placed {
                        let m = choose|m: int|
                            n <= m < old(self).created@.len() && #[trigger] old(self).created@[m]
                                == Entity { id: k as u32, ver: self.infos@[k].ver };
                    }
                }
            }
            assert(self.created_ok(0));
            archetypes@[0].lemma_wf();
            old(archetypes)@[0].lemma_wf();
            assert forall|x: Entity| old(self).placed(x) implies #[trigger] self.comps(archetypes, x)
                == old(self).comps(old(archetypes), x) by {
                let k = x.id as int;
                assert(self.infos@[k] == old(self).infos@[k]);
                let a = self.infos@[k].archetype as int;
                if a != 0 {
                    assert(archetypes@[a] == old(archetypes)@[a]);
                } else {
                    assert(self.row_of(archetypes, x) =~= old(self).row_of(old(archetypes), x));
                }
            }
            assert forall|x: Entity| old(self).alive(x) && !old(self).placed(x) implies #[trigger] self.comps(
                archetypes,
                x,
            ) == Map::<u64, C>::empty() by {
                assert(self.placed(x));
                assert(self.keys_of(archetypes, x).len() == 0);
                assert(self.comps(archetypes, x) =~= Map::<u64, C>::empty());
            }
        }
    }

    /// Moves the row of `e` to archetype `b` and keeps the records in step
    /// with the rows: that of `e`, and that of the entity which the
    /// swap-remove put in its old place.
    fn move_row<C>(
        &mut self,
        archetypes: &mut Archetypes<C>,
        e: Entity,
        b: usize,
        added_keys: &TypeSet,
        added: Vec<C>,
    )
        requires
            old(self).wf(),
            old(archetypes).wf(),
            old(self).consistent(old(archetypes)),
            old(self).placed(e),
            b < old(archetypes)@.len(),
            b != old(self)@[e.id as int].archetype,
            added_keys.wf(),
            added@.len() == added_keys.keys().len(),
            migration_fits(
                old(archetypes)@[b as int].keys(),
                old(self).keys_of(old(archetypes), e),
                added_keys.keys(),
            ),
        ensures
            final(self).wf(),
            final(archetypes).wf(),
            final(self).consistent(final(archetypes)),
            final(self).created() == old(self).created(),
            final(self).destroyed() == old(self).destroyed(),
            final(self).free() == old(self).free(),
            final(self)@.len() == old(self)@.len(),
            forall|i: int|
                0 <= i < old(self)@.len() ==> {
                    &&& (#[trigger] final(self)@[i]).ver == old(self)@[i].ver
                    &&& final(self)@[i].alive == old(self)@[i].alive
                    &&& final(self)@[i].placed == old(self)@[i].placed
                },
            final(archetypes)@.len() == old(archetypes)@.len(),
            forall|a: int|
                0 <= a < old(archetypes)@.len() ==> (#[trigger] final(archetypes)@[a]).keys() == old(
                    archetypes,
                )@[a].keys(),
            final(archetypes).rows() == rows_with(
                rows_without(old(archetypes).rows(), e),
                e,
                b as int,
            ),
            final(self)@[e.id as int].archetype == b,
            final(self).keys_of(final(archetypes), e) == old(archetypes)@[b as int].keys(),
            final(self).row_of(final(archetypes), e) == migrated_row(
                old(archetypes)@[b as int].keys(),
                old(self).keys_of(old(archetypes), e),
                old(self).row_of(old(archetypes), e),
                added_keys.keys(),
                added@,
            ),
            forall|x: Entity|
                x != e && old(self).placed(x) ==> {
                    &&& #[trigger] final(self).row_of(final(archetypes), x) == old(self).row_of(
                        old(archetypes),
                        x,
                    )
                    &&& final(self).keys_of(final(archetypes), x) == old(self).keys_of(
                        old(archetypes),
                        x,
                    )
                },
    {
        let i = e.id as usize;
        let a = self.infos[i].archetype;
        let r = self.infos[i].row;
        let ghost s0 = old(self).infos@;
        let ghost t0 = old(archetypes)@;
        let ghost n = t0[a as int].entities().len();
        let ghost values = migrated_row(
            t0[b as int].keys(),
            t0[a as int].keys(),
            t0[a as int].row(r as int),
            added_keys.keys(),
            added@,
        );
        proof {
            assert(t0[a as int].entities()[r as int] == e);
        }
        let (row, moved) = archetypes.migrate(a, r, b, added_keys, added);
        let ver = self.infos[i].ver;
        self.infos[i] = EntityInfo { ver, alive: true, placed: true, archetype: b, row };
        match moved {
            Some(m) => {
                proof {
                    assert(m == t0[a as int].entities()[n - 1]);
                    assert(old(self).placed(m));
                    assert(s0[m.id as int].row == n - 1);
                }
                let mi = m.id as usize;
                let info = self.infos[mi];
                self.infos[mi] = EntityInfo {
                    ver: info.ver,
                    alive: info.alive,
                    placed: info.placed,
                    archetype: info.archetype,
                    row: r,
                };
            },
            None => {},
        }
        proof {
            let s1 = self.infos@;
            let t1 = archetypes@;
            let last = n - 1;
            let lastent = t0[a as int].entities()[last];
            assert(old(self).placed(lastent));
            assert(s0[lastent.id as int].row == last && s0[lastent.id as int].archetype == a);
            assert(t1[a as int].entities() == swap_removed(t0[a as int].entities(), r as int));
            assert(t1[b as int].entities() == t0[b as int].entities().push(e));
            old(self).lemma_rows_fix_records(old(archetypes));
            assert(archetypes.rows() =~= rows_with(rows_without(old(archetypes).rows(), e), e, b as int)) by {
                assert(t1[a as int].is_take_of(t0[a as int], r as int));
                assert(t1[b as int].is_push_of(t0[b as int], e, values));
                assert forall|c: int| 0 <= c < t0.len() && c != a && c != b implies archetypes.rows()[c]
                    == old(archetypes).rows()[c] by {
                    assert(t1[c] == t0[c]);
                }
            }
            assert(forall|k: int| 0 <= k < s0.len() ==> self.handle(k) == old(self).handle(k));
            // the records point at the rows
            assert forall|k: int| 0 <= k < s1.len() && (#[trigger] s1[k]).placed implies {
                &&& s1[k].archetype < t1.len()
                &&& s1[k].row < t1[s1[k].archetype as int].entities().len()
                &&& t1[s1[k].archetype as int].entities()[s1[k].row as int] == self.handle(k)
            } by {
                if k == i {
                } else if r != last && k == lastent.id {
                } else {
                    assert(s1[k] == s0[k]);
                    let c = s0[k].archetype as int;
                    let q = s0[k].row as int;
                    assert(t0[c].entities()[q] == old(self).handle(k));
                    if c == a {
                        assert(q != r);
                        assert(q != last);
                    } else if c == b {
                    } else {
                        assert(t1[c] == t0[c]);
                    }
                }
            }
            // the rows point at the records
            assert forall|c: int, q: int|
                0 <= c < t1.len() && 0 <= q < t1[c].entities().len() implies {
                &&& self.placed(#[trigger] t1[c].entities()[q])
                &&& self@[t1[c].entities()[q].id as int].archetype == c
                &&& self@[t1[c].entities()[q].id as int].row == q
            } by {
                if c == a {
                    if q == r {
                        assert(t1[c].entities()[q] == lastent);
                    } else {
                        let x = t0[c].entities()[q];
                        assert(t1[c].entities()[q] == x);
                        assert(old(self).placed(x));
                        assert(s0[x.id as int].row == q);
                        assert(x.id != i);
                        assert(x.id != lastent.id);
                    }
                } else if c == b {
                    if q < t0[b as int].entities().len() {
                        let x = t0[c].entities()[q];
                        assert(t1[c].entities()[q] == x);
                        assert(old(self).placed(x));
                        assert(s0[x.id as int].archetype == c);
                    }
                } else {
                    assert(t1[c] == t0[c]);
                    let x = t0[c].entities()[q];
                    assert(old(self).placed(x));
                    assert(s0[x.id as int].archetype == c);
                }
            }
            assert(self.free_ok()) by {
                assert forall|f: int| 0 <= f < self.free@.len() implies {
                    &&& (#[trigger] self.free@[f]) < self.infos@.len()
                    &&& !self.infos@[self.free@[f] as int].alive
                    &&& self.infos@[self.free@[f] as int].ver < u32::MAX
                } by {
                    assert(!s0[old(self).free@[f] as int].alive);
                }
            }
            self.lemma_created_ok_kept(old(self), 0);
            assert forall|c: int| 0 <= c < t0.len() implies (#[trigger] t1[c]).keys() == t0[c].keys() by {
                if c != a && c != b {
                    assert(t1[c] == t0[c]);
                }
            }
            // the rows of the others
            assert(t0[a as int].wf());
            assert(t0[b as int].wf());
            t0[a as int].lemma_wf();
            t0[b as int].lemma_wf();
            assert(values.len() == t0[b as int].keys().len());
            t1[b as int].lemma_rows_after_push(t0[b as int], e, values, row as int);
            assert forall|x: Entity| x != e && old(self).placed(x) implies {
                &&& #[trigger] self.row_of(archetypes, x) == old(self).row_of(old(archetypes), x)
                &&& self.keys_of(archetypes, x) == old(self).keys_of(old(archetypes), x)
            } by {
                let k = x.id as int;
                assert(k != i);
                let c = s0[k].archetype as int;
                let q = s0[k].row as int;
                assert(t0[c].entities()[q] == old(self).handle(k));
                if r != last && k == lastent.id {
                    t1[a as int].lemma_rows_after_take(t0[a as int], r as int, r as int);
                } else {
                    assert(s1[k] == s0[k]);
                    if c == a {
                        assert(q != r);
                        assert(q != last);
                        t1[a as int].lemma_rows_after_take(t0[a as int], r as int, q);
                    } else if c == b {
                        t1[b as int].lemma_rows_after_push(t0[b as int], e, values, q);
                    } else {
                        assert(t1[c] == t0[c]);
                    }
                }
            }
        }
    }

    /// Moves `e` to archetype `to`, at once. The components of the types
    /// that `to` has too stay with `e` as they are, those of the other types
    /// are dropped, and the components `added`, one per key of `added_keys`
    /// in ascending order, fill the types that `e` did not have. Nothing
    /// changes for any other entity, whichever row it has afterwards.
    pub fn migrate<C>(
        &mut self,
        archetypes: &mut Archetypes<C>,
        e: Entity,
        to: usize,
        added_keys: &TypeSet,
        added: Vec<C>,
    )
        requires
            old(self).wf(),
            old(archetypes).wf(),
            old(self).consistent(old(archetypes)),
            old(self).placed(e),
            to < old(archetypes)@.len(),
            to != old(self)@[e.id as int].archetype,
            added_keys.wf(),
            added@.len() == added_keys.keys().len(),
            migration_fits(
                old(archetypes)@[to as int].keys(),
                old(self).keys_of(old(archetypes), e),
                added_keys.keys(),
            ),
        ensures
            final(self).wf(),
            final(archetypes).wf(),
            final(self).consistent(final(archetypes)),
            old(self).evolves_to(final(self)),
            final(self).created() == old(self).created(),
            final(self).destroyed() == old(self).destroyed(),
            final(self).free() == old(self).free(),
            forall|x: Entity| final(self).alive(x) == old(self).alive(x),
            forall|x: Entity| final(self).placed(x) == old(self).placed(x),
            final(archetypes).rows() == rows_with(
                rows_without(old(archetypes).rows(), e),
                e,
                to as int,
            ),
            final(self)@[e.id as int].archetype == to,
            final(self).comps(final(archetypes), e) == Map::new(
                |k: u64| old(archetypes)@[to as int].keys().contains(k),
                |k: u64|
                    if added_keys.keys().contains(k) {
                        added@[added_keys.keys().index_of(k)]
                    } else {
                        old(self).comps(old(archetypes), e)[k]
                    },
            ),
            forall|k: u64|
                old(self).comps(old(archetypes), e).contains_key(k) && final(self).comps(
                    final(archetypes),
                    e,
                ).contains_key(k) ==> final(self).comps(final(archetypes), e)[k] == old(self).comps(
                    old(archetypes),
                    e,
                )[k],
            forall|x: Entity|
                old(self).placed(x) && (x != e) ==> #[trigger] final(self).comps(
                    final(archetypes),
                    x,
                ) == old(self).comps(old(archetypes), x),
            final(archetypes)@.len() == old(archetypes)@.len(),
            old(archetypes).grows_to(final(archetypes)),
    {
        let ghost to_keys = archetypes@[to as int].keys();
        let ghost from_keys = self.keys_of(archetypes, e);
        let ghost from_row = self.row_of(archetypes, e);
        self.move_row(archetypes, e, to, added_keys, added);
        proof {
            lemma_migrated_components(to_keys, from_keys, from_row, added_keys.keys(), added@);
            let want = Map::new(
                |k: u64| to_keys.contains(k),
                |k: u64|
                    if added_keys.keys().contains(k) {
                        added@[added_keys.keys().index_of(k)]
                    } else {
                        old(self).comps(old(archetypes), e)[k]
                    },
            );
            assert(self.comps(archetypes, e) =~= want);
            assert forall|x: Entity| self.alive(x) == old(self).alive(x) by {
                if x.id < self@.len() {
                    assert(self@[x.id as int].ver == old(self)@[x.id as int].ver);
                }
            }
            assert forall|x: Entity| self.placed(x) == old(self).placed(x) by {
                if x.id < self@.len() {
                    assert(self@[x.id as int].ver == old(self)@[x.id as int].ver);
                }
            }
        }
    }

    /// Ends the life of `e`: its row leaves its archetype, its components
    /// are dropped, and its index becomes free for a later generation.
    fn retire<C>(&mut self, archetypes: &mut Archetypes<C>, e: Entity)
        requires
            old(self).wf(),
            old(archetypes).wf(),
            old(self).consistent(old(archetypes)),
            old(self).placed(e),
        ensures
            final(self).wf(),
            final(archetypes).wf(),
            final(self).consistent(final(archetypes)),
            old(self).evolves_to(final(self)),
            final(self).created() == old(self).created(),
            final(self).destroyed() == old(self).destroyed(),
            final(self).free() == (if e.ver < u32::MAX {
                old(self).free().push(e.id)
            } else {
                old(self).free()
            }),
            final(self)@.len() == old(self)@.len(),
            forall|i: int|
                0 <= i < old(self)@.len() ==> (#[trigger] final(self)@[i]).ver == old(self)@[i].ver,
            final(archetypes).rows() == rows_without(old(archetypes).rows(), e),
            old(self).one_left(old(archetypes), final(self), final(archetypes), e),
            final(self).retired(e),
            forall|x: Entity| final(self).alive(x) == (old(self).alive(x) && x != e),
            forall|x: Entity| final(self).placed(x) == (old(self).placed(x) && x != e),
            final(archetypes)@.len() == old(archetypes)@.len(),
            forall|a: int|
                0 <= a < old(archetypes)@.len() ==> (#[trigger] final(archetypes)@[a]).keys() == old(
                    archetypes,
                )@[a].keys(),
            forall|x: Entity|
                x != e && old(self).placed(x) ==> {
                    &&& #[trigger] final(self).row_of(final(archetypes), x) == old(self).row_of(
                        old(archetypes),
                        x,
                    )
                    &&& final(self).keys_of(final(archetypes), x) == old(self).keys_of(
                        old(archetypes),
                        x,
                    )
                },
    {
        let i = e.id as usize;
        let a = self.infos[i].archetype;
        let r = self.infos[i].row;
        let ghost s0 = old(self).infos@;
        let ghost t0 = old(archetypes)@;
        let ghost n = t0[a as int].entities().len();
        proof {
            assert(t0[a as int].entities()[r as int] == e);
        }
        let (dropped, moved) = archetypes.remove(a, r);
        let ver = self.infos[i].ver;
        self.infos[i] = EntityInfo { ver, alive: false, placed: false, archetype: 0, row: 0 };
        if ver < u32::MAX {
            self.free.push(e.id);
        }
        match moved {
            Some(m) => {
                proof {
                    assert(m == t0[a as int].entities()[n - 1]);
                    assert(old(self).placed(m));
                    assert(s0[m.id as int].row == n - 1);
                }
                let mi = m.id as usize;
                let info = self.infos[mi];
                self.infos[mi] = EntityInfo {
                    ver: info.ver,
                    alive: info.alive,
                    placed: info.placed,
                    archetype: info.archetype,
                    row: r,
                };
            },
            None => {},
        }
        proof {
            let s1 = self.infos@;
            let t1 = archetypes@;
            let last = n - 1;
            let lastent = t0[a as int].entities()[last];
            assert(old(self).placed(lastent));
            assert(s0[lastent.id as int].row == last && s0[lastent.id as int].archetype == a);
            assert(t1[a as int].entities() == swap_removed(t0[a as int].entities(), r as int));
            old(self).lemma_rows_fix_records(old(archetypes));
            assert(archetypes.rows() =~= rows_without(old(archetypes).rows(), e)) by {
                assert(t1[a as int].keys() == t0[a as int].keys());
                assert forall|c: int| 0 <= c < t0.len() && c != a implies archetypes.rows()[c] == old(
                    archetypes,
                ).rows()[c] by {
                    assert(t1[c] == t0[c]);
                }
            }
            assert(forall|k: int| 0 <= k < s0.len() ==> self.handle(k) == old(self).handle(k));
            assert forall|k: int| 0 <= k < s1.len() && (#[trigger] s1[k]).placed implies {
                &&& s1[k].archetype < t1.len()
                &&& s1[k].row < t1[s1[k].archetype as int].entities().len()
                &&& t1[s1[k].archetype as int].entities()[s1[k].row as int] == self.handle(k)
            } by {
                if k == i {
                } else if r != last && k == lastent.id {
                } else {
                    assert(s1[k] == s0[k]);
                    let c = s0[k].archetype as int;
                    let q = s0[k].row as int;
                    assert(t0[c].entities()[q] == old(self).handle(k));
                    if c == a {
                        assert(q != r);
                        assert(q != last);
                    } else {
                        assert(t1[c] == t0[c]);
                    }
                }
            }
            assert forall|c: int, q: int|
                0 <= c < t1.len() && 0 <= q < t1[c].entities().len() implies {
                &&& self.placed(#[trigger] t1[c].entities()[q])
                &&& self@[t1[c].entities()[q].id as int].archetype == c
                &&& self@[t1[c].entities()[q].id as int].row == q
            } by {
                if c == a {
                    if q == r {
                        assert(t1[c].entities()[q] == lastent);
                    } else {
                        let x = t0[c].entities()[q];
                        assert(t1[c].entities()[q] == x);
                        assert(old(self).placed(x));
                        assert(s0[x.id as int].row == q);
                        assert(x.id != i);
                        assert(x.id != lastent.id);
                    }
                } else {
                    assert(t1[c] == t0[c]);
                    let x = t0[c].entities()[q];
                    assert(old(self).placed(x));
                    assert(s0[x.id as int].archetype == c);
                }
            }
            assert(self.free_ok()) by {
                assert forall|f: int| 0 <= f < self.free@.len() implies {
                    &&& (#[trigger] self.free@[f]) < self.infos@.len()
                    &&& !self.infos@[self.free@[f] as int].alive
                    &&& self.infos@[self.free@[f] as int].ver < u32::MAX
                } by {
                    if f < old(self).free@.len() {
                        assert(self.free@[f] == old(self).free@[f]);
                        assert(!s0[old(self).free@[f] as int].alive);
                    }
                }
                assert forall|f: int, g: int| 0 <= f < g < self.free@.len() implies self.free@[f]
                    != self.free@[g] by {
                    if g == old(self).free@.len() {
                        assert(!s0[old(self).free@[f] as int].alive);
                    }
                }
            }
            self.lemma_created_ok_kept(old(self), 0);
            assert forall|c: int| 0 <= c < t0.len() implies (#[trigger] t1[c]).keys() == t0[c].keys() by {
                if c != a {
                    assert(t1[c] == t0[c]);
                }
            }
            assert(t0[a as int].wf());
            assert forall|x: Entity| x != e && old(self).placed(x) implies {
                &&& #[trigger] self.row_of(archetypes, x) == old(self).row_of(old(archetypes), x)
                &&& self.keys_of(archetypes, x) == old(self).keys_of(old(archetypes), x)
            } by {
                let k = x.id as int;
                assert(k != i);
                let c = s0[k].archetype as int;
                let q = s0[k].row as int;
                assert(t0[c].entities()[q] == old(self).handle(k));
                if r != last && k == lastent.id {
                    t1[a as int].lemma_rows_after_take(t0[a as int], r as int, r as int);
                } else {
                    assert(s1[k] == s0[k]);
                    if c == a {
                        assert(q != r);
                        assert(q != last);
                        t1[a as int].lemma_rows_after_take(t0[a as int], r as int, q);
                    } else {
                        assert(t1[c] == t0[c]);
                    }
                }
            }
            assert forall|x: Entity| self.alive(x) == (old(self).alive(x) && x != e) by {
                if x.id < s0.len() && x.id != i {
                    assert(s1[x.id as int].alive == s0[x.id as int].alive);
                    assert(s1[x.id as int].ver == s0[x.id as int].ver);
                }
            }
            assert forall|x: Entity| self.placed(x) == (old(self).placed(x) && x != e) by {
                if x.id < s0.len() && x.id != i {
                    assert(s1[x.id as int].placed == s0[x.id as int].placed);
                    assert(s1[x.id as int].alive == s0[x.id as int].alive);
                    assert(s1[x.id as int].ver == s0[x.id as int].ver);
                }
            }
            assert(t1[a as int].is_take_of(t0[a as int], r as int));
            assert(archetypes.same_but(*old(archetypes), a as int));
            if r + 1 < n {
                assert(lastent != e);
                assert(self.placed(lastent));
            }
        }
    }

    /// Gives `e` the component `value` of type `key`, at once. If `e` has a
    /// component of that type already, the value takes its place and the old
    /// one is dropped; else `e` moves to the archetype with the one type
    /// more, which is made if it is not there. Returns whether `e` has a row;
    /// if it has none (it is dead, or waits for its placement), nothing
    /// changes and `value` is dropped.
    pub fn attach<C>(&mut self, archetypes: &mut Archetypes<C>, e: Entity, key: u64, value: C) -> (done: bool)
        requires
            old(self).wf(),
            old(archetypes).wf(),
            old(self).consistent(old(archetypes)),
        ensures
            final(self).wf(),
            final(archetypes).wf(),
            final(self).consistent(final(archetypes)),
            old(self).evolves_to(final(self)),
            final(self).created() == old(self).created(),
            final(self).destroyed() == old(self).destroyed(),
            final(self).free() == old(self).free(),
            final(self)@.len() == old(self)@.len(),
            forall|i: int|
                0 <= i < old(self)@.len() ==> (#[trigger] final(self)@[i]).ver == old(self)@[i].ver,
            forall|x: Entity| final(self).alive(x) == old(self).alive(x),
            forall|x: Entity| final(self).placed(x) == old(self).placed(x),
            done == old(self).placed(e),
            done ==> final(self).comps(final(archetypes), e) == old(self).comps(
                old(archetypes),
                e,
            ).insert(key, value),
            forall|x: Entity|
                old(self).placed(x) && (x != e) ==> #[trigger] final(self).comps(
                    final(archetypes),
                    x,
                ) == old(self).comps(old(archetypes), x),
            final(archetypes).rows() == rows_after(old(archetypes).rows(), Command::Attach { entity: e, key, value }),
            old(archetypes).grows_to(final(archetypes)),
            final(archetypes)@.len() <= old(archetypes)@.len() + 1,
            final(archetypes)@.len() > old(archetypes)@.len() ==> done && !old(archetypes).has(
                final(self).keys_of(final(archetypes), e),
            ),
    {
        proof {
            self.lemma_rows_fix_records(archetypes);
        }
        let (a, r) = match self.location(e) {
            Some(loc) => loc,
            None => {
                return false;
            },
        };
        proof {
            assert(archetypes@[a as int].wf());
            archetypes@[a as int].lemma_wf();
            assert(archetypes.rows()[a as int].0 == archetypes@[a as int].keys());
        }
        match archetypes.table(a).type_set().position(key) {
            Some(i) => {
                let was = archetypes.replace(a, r, i, value);
                proof {
                    let t0 = old(archetypes)@;
                    let t1 = archetypes@;
                    assert(forall|c: int| 0 <= c < t0.len() ==> (#[trigger] t1[c]).entities() == t0[c].entities());
                    assert(forall|c: int| 0 <= c < t0.len() ==> (#[trigger] t1[c]).keys() == t0[c].keys());
                    assert(self.row_of(archetypes, e) =~= old(self).row_of(old(archetypes), e).update(
                        i as int,
                        value,
                    ));
                    assert(t0[a as int].keys().contains(key));
                    assert(archetypes.rows() =~= old(archetypes).rows());
                    lemma_replaced_components(
                        t0[a as int].keys(),
                        old(self).row_of(old(archetypes), e),
                        i as int,
                        value,
                    );
                    assert forall|x: Entity| old(self).placed(x) && (x != e) implies #[trigger] self.comps(
                        archetypes,
                        x,
                    ) == old(self).comps(old(archetypes), x) by {
                        let c = self@[x.id as int].archetype as int;
                        let q = self@[x.id as int].row as int;
                        assert(t0[c].entities()[q] == x);
                        if c == a {
                            assert(q != r);
                            assert(self.row_of(archetypes, x) =~= old(self).row_of(old(archetypes), x));
                        }
                    }
                }
                true
            },
            None => {
                let mut target = archetypes.table(a).type_set().duplicate();
                target.insert(key);
                let b = archetypes.get_or_create_archetype(&target);
                let ghost mid = *archetypes;
                let mut added_keys = TypeSet::new();
                added_keys.insert(key);
                let mut added: Vec<C> = Vec::new();
                added.push(value);
                proof {
                    let t0 = old(archetypes)@;
                    assert(forall|c: int| 0 <= c < t0.len() ==> (#[trigger] mid@[c]) == t0[c]) by {
                        if !old(archetypes).has(target.keys()) {
                            assert(forall|c: int| 0 <= c < t0.len() ==> mid@.take(t0.len() as int)[c] == mid@[c]);
                        }
                    }
                    assert(mid@[b as int].keys().contains(key)) by {
                        assert(target@.contains(key));
                    }
                    assert(!t0[a as int].keys().contains(key));
                    assert(b != a);
                    assert(added_keys.keys() =~= seq![key]);
                    assert(self.consistent(&mid)) by {
                        assert forall|c: int, q: int|
                            0 <= c < mid@.len() && 0 <= q < mid@[c].entities().len() implies {
                            &&& self.placed(#[trigger] mid@[c].entities()[q])
                            &&& self@[mid@[c].entities()[q].id as int].archetype == c
                            &&& self@[mid@[c].entities()[q].id as int].row == q
                        } by {
                            if c < t0.len() {
                                assert(mid@[c] == t0[c]);
                                assert(self.placed(t0[c].entities()[q]));
                            }
                        }
                    }
                    assert(migration_fits(mid@[b as int].keys(), self.keys_of(&mid, e), added_keys.keys())) by {
                        assert forall|k: u64| added_keys.keys().contains(k) implies mid@[b as int].keys().contains(k)
                            && !self.keys_of(&mid, e).contains(k) by {
                            assert(k == key);
                        }
                        assert forall|k: u64| mid@[b as int].keys().contains(k) implies self.keys_of(&mid, e).contains(k)
                            || added_keys.keys().contains(k) by {
                            assert(target@.contains(k));
                            if k == key {
                                assert(seq![key][0] == k);
                            } else {
                                assert(t0[a as int].keys().to_set().contains(k));
                            }
                        }
                    }
                }
                proof {
                    let t0 = old(archetypes)@;
                    let rows0 = old(archetypes).rows();
                    target.lemma_keys_ascending();
                    lemma_keys_with(t0[a as int].keys(), key, target.keys());
                    old(archetypes).lemma_rows_plot(target.keys());
                    assert(mid.rows() =~= rows_for(rows0, target.keys())) by {
                        if !old(archetypes).has(target.keys()) {
                            assert(mid@[b as int].entities() =~= Seq::<Entity>::empty());
                        }
                    }
                    assert(crate::rows::plot_of(rows0, target.keys()) == b);
                }
                self.move_row(archetypes, e, b, &added_keys, added);
                proof {
                    let t0 = old(archetypes)@;
                    let from_keys = t0[a as int].keys();
                    let from_row = old(self).row_of(old(archetypes), e);
                    let to_keys = mid@[b as int].keys();
                    assert(archetypes.rows() == rows_moved(old(archetypes).rows(), e, target.keys()));
                    lemma_migrated_components(to_keys, from_keys, from_row, seq![key], seq![value]);
                    assert(seq![key].contains(key)) by {
                        assert(seq![key][0] == key);
                    }
                    assert(added@ =~= seq![value]);
                    assert(self.comps(archetypes, e) =~= old(self).comps(old(archetypes), e).insert(key, value)) by {
                        assert forall|k: u64| to_keys.contains(k) == (from_keys.contains(k) || k == key) by {
                            assert(target@.contains(k) == (from_keys.to_set().contains(k) || k == key));
                        }
                        assert(seq![key].index_of(key) == 0);
                    }
                    assert forall|x: Entity| old(self).placed(x) && (x != e) implies #[trigger] self.comps(
                        archetypes,
                        x,
                    ) == old(self).comps(old(archetypes), x) by {
                        assert(self.row_of(archetypes, x) == old(self).row_of(&mid, x));
                        let c = old(self)@[x.id as int].archetype as int;
                        assert(mid@[c] == t0[c]);
                    }
                    assert forall|x: Entity| self.alive(x) == old(self).alive(x) by {
                        if x.id < self@.len() {
                            assert(self@[x.id as int].ver == old(self)@[x.id as int].ver);
                        }
                    }
                    assert forall|x: Entity| self.placed(x) == old(self).placed(x) by {
                        if x.id < self@.len() {
                            assert(self@[x.id as int].ver == old(self)@[x.id as int].ver);
                        }
                    }
                    assert(old(archetypes).grows_to(archetypes)) by {
                        assert forall|c: int| 0 <= c < t0.len() implies (#[trigger] archetypes@[c]).keys() == t0[c].keys() by {
                            assert(mid@[c] == t0[c]);
                        }
                    }
                    if archetypes@.len() > t0.len() {
                        assert(!old(archetypes).has(target.keys()));
                    }
                }
                true
            },
        }
    }

    /// Takes the component of type `key` from `e`, at once: `e` moves to the
    /// archetype with the one type less, which is made if it is not there,
    /// and the component is dropped. Returns whether that was done; if `e`
    /// has no row or no component of that type, nothing changes.
    pub fn detach<C>(&mut self, archetypes: &mut Archetypes<C>, e: Entity, key: u64) -> (done: bool)
        requires
            old(self).wf(),
            old(archetypes).wf(),
            old(self).consistent(old(archetypes)),
        ensures
            final(self).wf(),
            final(archetypes).wf(),
            final(self).consistent(final(archetypes)),
            old(self).evolves_to(final(self)),
            final(self).created() == old(self).created(),
            final(self).destroyed() == old(self).destroyed(),
            final(self).free() == old(self).free(),
            final(self)@.len() == old(self)@.len(),
            forall|i: int|
                0 <= i < old(self)@.len() ==> (#[trigger] final(self)@[i]).ver == old(self)@[i].ver,
            forall|x: Entity| final(self).alive(x) == old(self).alive(x),
            forall|x: Entity| final(self).placed(x) == old(self).placed(x),
            done == (old(self).placed(e) && old(self).comps(old(archetypes), e).contains_key(key)),
            old(self).placed(e) ==> final(self).comps(final(archetypes), e) == old(self).comps(
                old(archetypes),
                e,
            ).remove(key),
            forall|x: Entity|
                old(self).placed(x) && (x != e) ==> #[trigger] final(self).comps(
                    final(archetypes),
                    x,
                ) == old(self).comps(old(archetypes), x),
            final(archetypes).rows() == rows_after::<C>(old(archetypes).rows(), Command::Detach { entity: e, key }),
            old(archetypes).grows_to(final(archetypes)),
            final(archetypes)@.len() <= old(archetypes)@.len() + 1,
            final(archetypes)@.len() > old(archetypes)@.len() ==> done && !old(archetypes).has(
                final(self).keys_of(final(archetypes), e),
            ),
    {
        proof {
            self.lemma_rows_fix_records(archetypes);
        }
        let (a, r) = match self.location(e) {
            Some(loc) => loc,
            None => {
                return false;
            },
        };
        proof {
            assert(archetypes@[a as int].wf());
            archetypes@[a as int].lemma_wf();
            assert(archetypes.rows()[a as int].0 == archetypes@[a as int].keys());
        }
        match archetypes.table(a).type_set().position(key) {
            None => {
                proof {
                    assert(!archetypes@[a as int].keys().contains(key));
                    assert(!self.comps(archetypes, e).contains_key(key));
                    assert(self.comps(archetypes, e).remove(key) =~= self.comps(archetypes, e));
                }
                false
            },
            Some(i) => {
                let mut target = archetypes.table(a).type_set().duplicate();
                target.remove(key);
                let b = archetypes.get_or_create_archetype(&target);
                let ghost mid = *archetypes;
                let added_keys = TypeSet::new();
                let added: Vec<C> = Vec::new();
                proof {
                    let t0 = old(archetypes)@;
                    assert(t0[a as int].keys().contains(key));
                    assert(forall|c: int| 0 <= c < t0.len() ==> (#[trigger] mid@[c]) == t0[c]) by {
                        if !old(archetypes).has(target.keys()) {
                            assert(forall|c: int| 0 <= c < t0.len() ==> mid@.take(t0.len() as int)[c] == mid@[c]);
                        }
                    }
                    assert(!mid@[b as int].keys().contains(key)) by {
                        assert(!target@.contains(key));
                    }
                    assert(b != a);
                    assert(self.consistent(&mid)) by {
                        assert forall|c: int, q: int|
                            0 <= c < mid@.len() && 0 <= q < mid@[c].entities().len() implies {
                            &&& self.placed(#[trigger] mid@[c].entities()[q])
                            &&& self@[mid@[c].entities()[q].id as int].archetype == c
                            &&& self@[mid@[c].entities()[q].id as int].row == q
                        } by {
                            if c < t0.len() {
                                assert(mid@[c] == t0[c]);
                                assert(self.placed(t0[c].entities()[q]));
                            }
                        }
                    }
                    assert(migration_fits(mid@[b as int].keys(), self.keys_of(&mid, e), added_keys.keys())) by {
                        assert forall|k: u64| mid@[b as int].keys().contains(k) implies self.keys_of(&mid, e).contains(k)
                            || added_keys.keys().contains(k) by {
                            assert(target@.contains(k));
                            assert(t0[a as int].keys().to_set().contains(k));
                        }
                    }
                }
                proof {
                    let t0 = old(archetypes)@;
                    let rows0 = old(archetypes).rows();
                    target.lemma_keys_ascending();
                    lemma_keys_without(t0[a as int].keys(), key, target.keys());
                    old(archetypes).lemma_rows_plot(target.keys());
                    assert(mid.rows() =~= rows_for(rows0, target.keys())) by {
                        if !old(archetypes).has(target.keys()) {
                            assert(mid@[b as int].entities() =~= Seq::<Entity>::empty());
                        }
                    }
                    assert(crate::rows::plot_of(rows0, target.keys()) == b);
                }
                self.move_row(archetypes, e, b, &added_keys, added);
                proof {
                    let t0 = old(archetypes)@;
                    let from_keys = t0[a as int].keys();
                    let from_row = old(self).row_of(old(archetypes), e);
                    let to_keys = mid@[b as int].keys();
                    assert(archetypes.rows() == rows_moved(old(archetypes).rows(), e, target.keys()));
                    lemma_migrated_components(
                        to_keys,
                        from_keys,
                        from_row,
                        Seq::<u64>::empty(),
                        Seq::<C>::empty(),
                    );
                    assert(added@ =~= Seq::<C>::empty());
                    assert(self.comps(archetypes, e) =~= old(self).comps(old(archetypes), e).remove(key)) by {
                        assert forall|k: u64| to_keys.contains(k) == (from_keys.contains(k) && k != key) by {
                            assert(target@.contains(k) == (from_keys.to_set().contains(k) && k != key));
                        }
                    }
                    assert forall|x: Entity| old(self).placed(x) && (x != e) implies #[trigger] self.comps(
                        archetypes,
                        x,
                    ) == old(self).comps(old(archetypes), x) by {
                        assert(self.row_of(archetypes, x) == old(self).row_of(&mid, x));
                        let c = old(self)@[x.id as int].archetype as int;
                        assert(mid@[c] == t0[c]);
                    }
                    assert forall|x: Entity| self.alive(x) == old(self).alive(x) by {
                        if x.id < self@.len() {
                            assert(self@[x.id as int].ver == old(self)@[x.id as int].ver);
                        }
                    }
                    assert forall|x: Entity| self.placed(x) == old(self).placed(x) by {
                        if x.id < self@.len() {
                            assert(self@[x.id as int].ver == old(self)@[x.id as int].ver);
                        }
                    }
                    assert(old(archetypes).grows_to(archetypes)) by {
                        assert forall|c: int| 0 <= c < t0.len() implies (#[trigger] archetypes@[c]).keys() == t0[c].keys() by {
                            assert(mid@[c] == t0[c]);
                        }
                    }
                    if archetypes@.len() > t0.len() {
                        assert(!old(archetypes).has(target.keys()));
                    }
                }
                true
            },
        }
    }

    /// Removes every entity that is marked for removal and still alive,
    /// with its components and its tags.
    fn remove_destroyed<C>(&mut self, archetypes: &mut Archetypes<C>, tags: &mut Tags)
        requires
            old(self).wf(),
            old(archetypes).wf(),
            old(self).consistent(old(archetypes)),
            old(tags).wf(),
            old(self).created().len() == 0,
        ensures
            final(self).wf(),
            final(archetypes).wf(),
            final(self).consistent(final(archetypes)),
            final(tags).wf(),
            old(self).evolves_to(final(self)),
            final(self).created().len() == 0,
            final(self).destroyed().len() == 0,
            final(self)@.len() == old(self)@.len(),
            forall|i: int|
                0 <= i < old(self)@.len() ==> (#[trigger] final(self)@[i]).ver == old(self)@[i].ver,
            forall|x: Entity|
                final(self).alive(x) == (old(self).alive(x) && !old(self).destroyed().contains(x)),
            forall|x: Entity|
                final(self).placed(x) == (old(self).placed(x) && !old(self).destroyed().contains(x)),
            forall|x: Entity|
                old(self).alive(x) && old(self).destroyed().contains(x) ==> final(self).retired(x),
            forall|x: Entity|
                final(self).placed(x) ==> #[trigger] final(self).comps(final(archetypes), x) == old(self).comps(old(archetypes), x),
            final(archetypes)@.len() == old(archetypes)@.len(),
            old(archetypes).grows_to(final(archetypes)),
            forall|x: Entity, t: u64|
                #[trigger] final(tags).has(x, t) == (old(tags).has(x, t) && !(old(self).alive(x)
                    && old(self).destroyed().contains(x))),
            old(self).destroyed().len() == 1 && old(self).placed(old(self).destroyed()[0]) ==> old(self).one_left(old(archetypes), final(self), final(archetypes), old(self).destroyed()[0]),
            final(archetypes).rows() == rows_removed(old(archetypes).rows(), old(self).destroyed()),
            old(self).destroyed().len() == 0 ==> *final(archetypes) == *old(archetypes) && final(self)@
                == old(self)@ && *final(tags) == *old(tags),
            final(self).free() == old(self).free() + old(self).freed(old(self).destroyed()),
            forall|x: Entity|
                old(self).alive(x) && old(self).destroyed().contains(x) && x.ver < u32::MAX
                    ==> final(self).free().contains(x.id),
    {
        let n = self.destroyed.len();
        let ghost marked = self.destroyed@;
        let mut j: usize = 0;
        proof {
            assert(marked.take(0) =~= Seq::<Entity>::empty());
            old(self).lemma_wf();
            assert(self.free@ =~= old(self).free@ + old(self).freed(marked.take(0)));
        }
        while j < n
            invariant
                j <= n,
                n == marked.len(),
                marked == old(self).destroyed@,
                self.destroyed@ == marked,
                self.created@.len() == 0,
                self.infos@.len() == old(self).infos@.len(),
                self.wf(),
                archetypes.wf(),
                self.consistent(archetypes),
                tags.wf(),
                old(self).evolves_to(self),
                forall|x: Entity| self.alive(x) == (old(self).alive(x) && !marked.take(j as int).contains(x)),
                forall|x: Entity| self.placed(x) == (old(self).placed(x) && !marked.take(j as int).contains(x)),
                forall|x: Entity| old(self).alive(x) ==> old(self).placed(x),
                forall|x: Entity| old(self).alive(x) && marked.take(j as int).contains(x) ==> self.retired(x),
                forall|x: Entity|
                    self.placed(x) ==> #[trigger] self.comps(archetypes, x) == old(self).comps(
                        old(archetypes),
                        x,
                    ),
                archetypes@.len() == old(archetypes)@.len(),
                old(archetypes).grows_to(archetypes),
                forall|x: Entity, t: u64|
                    #[trigger] tags.has(x, t) == (old(tags).has(x, t) && !(old(self).alive(x)
                        && marked.take(j as int).contains(x))),
                n == 1 && j == 0 ==> *archetypes == *old(archetypes) && self.infos@ == old(self).infos@,
                n == 1 && j == 1 && old(self).placed(marked[0]) ==> old(self).one_left(
                    old(archetypes),
                    self,
                    archetypes,
                    marked[0],
                ),
                archetypes.rows() == rows_removed(old(archetypes).rows(), marked.take(j as int)),
                n == 0 ==> *archetypes == *old(archetypes) && self.infos@ == old(self).infos@ && *tags
                    == *old(tags),
                self.free@ == old(self).free@ + old(self).freed(marked.take(j as int)),
                forall|i: int|
                    0 <= i < old(self).infos@.len() ==> (#[trigger] self.infos@[i]).ver == old(self).infos@[i].ver,
                forall|x: Entity|
                    old(self).alive(x) && marked.take(j as int).contains(x) && x.ver < u32::MAX
                        ==> self.free@.contains(x.id),
            decreases n - j,
        {
            let e = self.destroyed[j];
            let ghost before = *self;
            let ghost arch_before = *archetypes;
            let ghost tags_before = *tags;
            proof {
                assert(marked.take(j + 1) =~= marked.take(j as int).push(e));
                assert forall|x: Entity| marked.take(j + 1).contains(x) == (marked.take(j as int).contains(x) || x == e) by {
                    vstd::seq_lib::lemma_seq_contains_after_push(marked.take(j as int), e, x);
                }
            }
            proof {
                assert(marked.take(j + 1).drop_last() =~= marked.take(j as int));
                assert(marked.take(j + 1).last() == e);
                self.lemma_rows_fix_records(archetypes);
            }
            if self.location(e).is_some() {
                self.retire(archetypes, e);
                tags.clear(e);
                proof {
                    assert(self.free@ =~= old(self).free@ + old(self).freed(marked.take(j + 1)));
                    old(self).lemma_evolves_transitive(&before, self);
                    assert forall|x: Entity| old(self).alive(x) && marked.take(j + 1).contains(x) implies self.retired(x) by {
                        if x != e {
                            before.lemma_retired_stays_dead(self, x);
                        }
                    }
                    assert forall|x: Entity| self.placed(x) implies #[trigger] self.comps(archetypes, x) == old(self).comps(
                        old(archetypes),
                        x,
                    ) by {
                        assert(before.placed(x) && x != e);
                        assert(self.row_of(archetypes, x) == before.row_of(&arch_before, x));
                        assert(before.comps(&arch_before, x) == old(self).comps(old(archetypes), x));
                    }
                    assert(old(archetypes).grows_to(archetypes));
                    assert forall|x: Entity, t: u64|
                        #[trigger] tags.has(x, t) == (old(tags).has(x, t) && !(old(self).alive(x)
                            && marked.take(j + 1).contains(x))) by {
                        assert(tags.has(x, t) == (tags_before.has(x, t) && x != e));
                    }
                    assert forall|x: Entity|
                        old(self).alive(x) && marked.take(j + 1).contains(x) && x.ver < u32::MAX
                        implies self.free@.contains(x.id) by {
                        if x == e {
                            assert(self.free@[self.free@.len() - 1] == e.id);
                        } else {
                            let k = choose|k: int| 0 <= k < before.free@.len() && before.free@[k] == x.id;
                            assert(self.free@[k] == x.id);
                        }
                    }
                }
            } else {
                proof {
                    assert(!self.alive(e));
                }
            }
            j += 1;
        }
        let ghost pre = *self;
        self.destroyed.clear();
        proof {
            assert(marked.take(n as int) =~= marked);
            assert(self@ == pre@);
            assert(forall|i: int| self.handle(i) == pre.handle(i));
            assert(forall|x: Entity| self.placed(x) == pre.placed(x));
            assert(forall|x: Entity| self.alive(x) == pre.alive(x));
            assert(forall|x: Entity| self.retired(x) == pre.retired(x));
            if n == 1 && old(self).placed(marked[0]) {
                assert(old(self).one_left(old(archetypes), &pre, archetypes, marked[0]));
                assert(old(self).one_left(old(archetypes), self, archetypes, marked[0]));
            }
            self.lemma_created_ok_kept(&pre, 0);
            assert(self.consistent(archetypes));
            assert forall|x: Entity| self.placed(x) implies #[trigger] self.comps(archetypes, x) == old(self).comps(
                old(archetypes),
                x,
            ) by {
                assert(pre.placed(x));
                assert(self.comps(archetypes, x) == pre.comps(archetypes, x));
            }
        }
    }

    /// The entities that have a row, with their components.
    pub open spec fn model<C>(&self, archetypes: &Archetypes<C>) -> Model<C> {
        Map::new(|e: Entity| self.placed(e), |e: Entity| self.comps(archetypes, e))
    }

    /// The live entities with their components, those that wait for their
    /// placement with none.
    pub open spec fn staged_model<C>(&self, archetypes: &Archetypes<C>) -> Model<C> {
        Map::new(
            |e: Entity| self.alive(e),
            |e: Entity|
                if self.placed(e) {
                    self.comps(archetypes, e)
                } else {
                    Map::<u64, C>::empty()
                },
        )
    }

    /// Applies the staged work: every created entity gets its row in the
    /// archetype without components, then the commands change components in
    /// the order in which they were given, then every entity that is marked
    /// for removal leaves with its components and its tags. A command for an
    /// entity that is not alive does nothing.
    pub fn process<C>(
        &mut self,
        archetypes: &mut Archetypes<C>,
        tags: &mut Tags,
        commands: Vec<Command<C>>,
    )
        requires
            old(self).wf(),
            old(archetypes).wf(),
            old(self).consistent(old(archetypes)),
            old(tags).wf(),
        ensures
            final(self).wf(),
            final(archetypes).wf(),
            final(self).consistent(final(archetypes)),
            final(tags).wf(),
            old(self).evolves_to(final(self)),
            final(self).created().len() == 0,
            final(self).destroyed().len() == 0,
            final(self)@.len() == old(self)@.len(),
            forall|i: int|
                0 <= i < old(self)@.len() ==> (#[trigger] final(self)@[i]).ver == old(self)@[i].ver,
            forall|x: Entity|
                final(self).alive(x) == (old(self).alive(x) && !old(self).destroyed().contains(x)),
            forall|x: Entity| final(self).placed(x) == final(self).alive(x),
            forall|x: Entity|
                old(self).alive(x) && old(self).destroyed().contains(x) ==> final(self).retired(x),
            final(self).model(final(archetypes)) == apply_all(
                old(self).staged_model(old(archetypes)),
                commands@,
            ).restrict(Set::new(|x: Entity| !old(self).destroyed().contains(x))),
            old(archetypes).grows_to(final(archetypes)),
            forall|x: Entity, t: u64|
                #[trigger] final(tags).has(x, t) == (old(tags).has(x, t) && !(old(self).alive(x)
                    && old(self).destroyed().contains(x))),
            final(archetypes).rows() == rows_removed(
                rows_after_all(
                    rows_placed(
                        old(archetypes).rows(),
                        old(self).created(),
                        |x: Entity| old(self).alive(x),
                    ),
                    commands@,
                ),
                old(self).destroyed(),
            ),
            old(self).created().len() == 0 && commands@.len() == 0 && old(self).destroyed().len() == 1
                && old(self).placed(old(self).destroyed()[0]) ==> old(self).one_left(
                old(archetypes),
                final(self),
                final(archetypes),
                old(self).destroyed()[0],
            ),
            final(archetypes)@.len() <= old(archetypes)@.len() + commands@.len(),
            old(self).created().len() == 0 && commands@.len() == 0 && old(self).destroyed().len() == 0
                ==> *final(archetypes) == *old(archetypes) && final(self)@ == old(self)@ && *final(tags)
                == *old(tags),
            final(self).free() == old(self).free() + old(self).freed(old(self).destroyed()),
            forall|x: Entity|
                old(self).alive(x) && old(self).destroyed().contains(x) && x.ver < u32::MAX
                    ==> final(self).free().contains(x.id),
    {
        self.place_created(archetypes);
        let ghost placed = *self;
        let ghost arch_placed = *archetypes;
        let ghost start = old(self).staged_model(old(archetypes));
        let ghost all = commands@;
        proof {
            assert(self.model(archetypes) =~= start);
        }
        let mut rest = reversed(commands);
        let total = rest.len();
        let mut j: usize = 0;
        proof {
            assert(all.take(0) =~= Seq::<Command<C>>::empty());
        }
        while j < total
            invariant
                j <= total,
                total == all.len(),
                rest@.len() == total - j,
                forall|k: int| 0 <= k < total - j ==> rest@[k] == all[total - 1 - k],
                self.wf(),
                archetypes.wf(),
                self.consistent(archetypes),
                placed.evolves_to(self),
                self.created@.len() == 0,
                self.destroyed@ == placed.destroyed@,
                self.infos@.len() == placed.infos@.len(),
                self.infos@.len() == old(self).infos@.len(),
                forall|x: Entity| self.alive(x) == placed.alive(x),
                forall|x: Entity| self.placed(x) == placed.placed(x),
                self.model(archetypes) == apply_all(start, all.take(j as int)),
                arch_placed.grows_to(archetypes),
                archetypes.rows() == rows_after_all(arch_placed.rows(), all.take(j as int)),
                archetypes@.len() <= arch_placed@.len() + j,
                total == 0 ==> *archetypes == arch_placed && self.infos@ == placed.infos@,
                self.free@ == old(self).free@,
                forall|i: int|
                    0 <= i < old(self).infos@.len() ==> (#[trigger] self.infos@[i]).ver == old(self).infos@[i].ver,
            decreases total - j,
        {
            let c = rest.pop().unwrap();
            let ghost before = *self;
            let ghost arch_before = *archetypes;
            let ghost step = c;
            proof {
                assert(c == all[j as int]);
                assert(all.take(j + 1).drop_last() =~= all.take(j as int));
                assert(all.take(j + 1).last() == c);
            }
            match c {
                Command::Attach { entity, key, value } => {
                    self.attach(archetypes, entity, key, value);
                },
                Command::Detach { entity, key } => {
                    self.detach(archetypes, entity, key);
                },
            }
            proof {
                placed.lemma_evolves_transitive(&before, self);
                assert(archetypes.rows() == rows_after(arch_before.rows(), step));
                assert(self.model(archetypes) =~= apply(before.model(&arch_before), c));
            }
            j += 1;
        }
        proof {
            assert(all.take(total as int) =~= all);
        }
        let ghost ran = *self;
        let ghost arch_ran = *archetypes;
        self.remove_destroyed(archetypes, tags);
        proof {
            old(self).lemma_evolves_transitive(&placed, &ran);
            old(self).lemma_evolves_transitive(&ran, self);
            ran.lemma_freed_same(old(self), old(self).destroyed());
            self.lemma_wf();
            assert(self.created() =~= Seq::<Entity>::empty());
            assert forall|x: Entity| self.placed(x) == self.alive(x) by {
                if self.alive(x) && !self.placed(x) {
                    assert(self.created().contains(x));
                }
            }
            assert forall|x: Entity| old(self).alive(x) && old(self).destroyed().contains(x) implies self.retired(x) by {
                assert(ran.alive(x));
            }
            assert(self.model(archetypes) =~= ran.model(&arch_ran).restrict(
                Set::new(|x: Entity| !old(self).destroyed().contains(x)),
            ));
            assert forall|x: Entity, t: u64|
                #[trigger] tags.has(x, t) == (old(tags).has(x, t) && !(old(self).alive(x)
                    && old(self).destroyed().contains(x))) by {
                assert(ran.alive(x) == old(self).alive(x));
            }
        }
    }
}

} // verus!
