//! The world: entities, their components and their tags.

use vstd::prelude::*;
use crate::archetype::Archetypes;
use crate::commands::Commands;
use crate::entities::{Command, Entities, Model, apply_all};
use crate::entity::Entity;
use crate::query::{Hit, Query, names};
use crate::rows::{rows_after_all, rows_placed, rows_removed};
use crate::tag::Tags;

verus! {

/// A world contains the data of the ECS. It is used to create entities and
/// to add and remove components from those entities.
///
/// Creating and destroying entities and adding and removing components are
/// staged, and take effect in `process_entities`. Until then every row stays
/// where it is.
pub struct World<C> {
    entities: Entities,
    archetypes: Archetypes<C>,
    tags: Tags,
    commands: Vec<Command<C>>,
}

impl<C> World<C> {
    /// The entity registry.
    pub closed spec fn registry(&self) -> Entities {
        self.entities
    }

    /// The archetypes and their storages.
    pub closed spec fn storage(&self) -> Archetypes<C> {
        self.archetypes
    }

    /// The tags and their storages.
    pub closed spec fn tag_storage(&self) -> Tags {
        self.tags
    }

    /// The staged changes of components, oldest first.
    pub closed spec fn staged(&self) -> Seq<Command<C>> {
        self.commands@
    }

    /// The registry, the archetypes and the tags are well formed, and the
    /// registry and the archetypes agree on where every entity is.
    pub open spec fn wf(&self) -> bool {
        &&& self.registry().wf()
        &&& self.storage().wf()
        &&& self.tag_storage().wf()
        &&& self.registry().consistent(&self.storage())
    }

    /// `e` is alive.
    pub open spec fn alive(&self, e: Entity) -> bool {
        self.registry().alive(e)
    }

    /// `e` is alive and stored in an archetype, where queries find it.
    pub open spec fn placed(&self, e: Entity) -> bool {
        self.registry().placed(e)
    }

    /// The components of `e` by type key. Meaningful where `e` is stored.
    pub open spec fn components(&self, e: Entity) -> Map<u64, C> {
        self.registry().comps(&self.storage(), e)
    }

    /// The stored entities with their components.
    pub open spec fn model(&self) -> Model<C> {
        self.registry().model(&self.storage())
    }

    /// `e` carries the tag `tag`.
    pub open spec fn tagged(&self, e: Entity, tag: u64) -> bool {
        self.tag_storage().has(e, tag)
    }

    /// The world without entities.
    pub fn new() -> (w: World<C>)
        ensures
            w.wf(),
            w.staged().len() == 0,
            w.registry()@.len() == 0,
            w.registry().free().len() == 0,
            w.registry().created().len() == 0,
            w.registry().destroyed().len() == 0,
            w.storage()@.len() == 1,
            forall|e: Entity| !w.alive(e),
            forall|e: Entity, t: u64| !w.tagged(e, t),
    {
        World {
            entities: Entities::new(),
            archetypes: Archetypes::new(),
            tags: Tags::new(),
            commands: Vec::new(),
        }
    }

    /// The entities belonging to the world.
    pub fn entities(&self) -> (r: &Entities)
        ensures
            *r == self.registry(),
    {
        &self.entities
    }

    /// The entities belonging to the world, to create and destroy some.
    /// What is done through the reference is done to the world's registry;
    /// nothing else in the world changes.
    pub fn entities_mut(&mut self) -> (r: &mut Entities)
        ensures
            *r == old(self).registry(),
            final(self).registry() == *final(r),
            final(self).storage() == old(self).storage(),
            final(self).tag_storage() == old(self).tag_storage(),
            final(self).staged() == old(self).staged(),
    {
        &mut self.entities
    }

    /// The archetypes and their storages.
    pub fn archetypes(&self) -> (r: &Archetypes<C>)
        ensures
            *r == self.storage(),
    {
        &self.archetypes
    }

    /// The tags and their storages.
    pub fn tags(&self) -> (r: &Tags)
        ensures
            *r == self.tag_storage(),
    {
        &self.tags
    }

    /// Whether `e` is alive.
    pub fn is_alive(&self, e: Entity) -> (r: bool)
        ensures
            r == self.alive(e),
    {
        self.entities.is_alive(e)
    }

    /// Creates an entity. The handle is alive at once; the entity is stored,
    /// without components, when the staged work is processed. Returns `None`,
    /// and changes nothing, when all 2^32 entity indices are taken.
    pub fn create(&mut self) -> (r: Option<Entity>)
        requires
            old(self).wf(),
        ensures
            final(self).wf(),
            old(self).registry().evolves_to(&final(self).registry()),
            final(self).storage() == old(self).storage(),
            final(self).tag_storage() == old(self).tag_storage(),
            final(self).staged() == old(self).staged(),
            final(self).registry().destroyed() == old(self).registry().destroyed(),
            final(self).registry().free() == (if old(self).registry().free().len() > 0 {
                old(self).registry().free().drop_last()
            } else {
                old(self).registry().free()
            }),
            final(self).model() == old(self).model(),
            match r {
                Some(e) => {
                    &&& e.ver >= 1
                    &&& !old(self).alive(e)
                    &&& !final(self).placed(e)
                    &&& forall|x: Entity| final(self).alive(x) == (old(self).alive(x) || x == e)
                    &&& final(self).registry().created() == old(self).registry().created().push(e)
                    &&& final(self).alive(e)
                    &&& if e.id < old(self).registry()@.len() {
                        &&& !old(self).registry()@[e.id as int].alive
                        &&& e.ver == old(self).registry()@[e.id as int].ver + 1
                        &&& final(self).registry()@ == old(self).registry()@.update(
                            e.id as int,
                            final(self).registry()@[e.id as int],
                        )
                    } else {
                        &&& e.id == old(self).registry()@.len()
                        &&& e.ver == 1
                        &&& final(self).registry()@ == old(self).registry()@.push(
                            final(self).registry()@[e.id as int],
                        )
                    }
                    &&& old(self).registry().free().len() > 0 ==> e.id == old(self).registry().free().last()
                    &&& old(self).registry().free().len() == 0 ==> e.id == old(self).registry()@.len() && e.ver == 1
                },
                None => {
                    &&& final(self).registry()@ == old(self).registry()@
                    &&& final(self).registry().created() == old(self).registry().created()
                    &&& old(self).registry().free().len() == 0
                    &&& old(self).registry()@.len() == 0x1_0000_0000
                },
            },
    {
        let r = self.entities.create();
        proof {
            old(self).entities.lemma_staging_keeps_consistent(&self.entities, &self.archetypes);
            assert(self.model() =~= old(self).model()) by {
                assert forall|x: Entity| self.placed(x) == old(self).placed(x) by {
                    if r.is_some() && x.id == r.unwrap().id {
                    }
                }
                assert forall|x: Entity| old(self).placed(x) implies self.components(x) == old(self).components(x) by {
                    assert(self.registry()@[x.id as int] == old(self).registry()@[x.id as int]);
                }
            }
            if r.is_some() {
                let e = r.unwrap();
                assert forall|x: Entity| self.alive(x) == (old(self).alive(x) || x == e) by {
                    if x.id != e.id && x.id < self.registry()@.len() {
                        assert(self.registry()@[x.id as int] == old(self).registry()@[x.id as int]);
                    }
                }
            }
        }
        r
    }

    /// Marks `e` for removal. It stays alive, and queries still find it,
    /// until the staged work is processed. Nothing happens if `e` is not
    /// alive.
    pub fn destroy(&mut self, e: Entity)
        requires
            old(self).wf(),
        ensures
            final(self).wf(),
            final(self).registry()@ == old(self).registry()@,
            final(self).storage() == old(self).storage(),
            final(self).tag_storage() == old(self).tag_storage(),
            final(self).staged() == old(self).staged(),
            final(self).registry().created() == old(self).registry().created(),
            final(self).registry().free() == old(self).registry().free(),
            final(self).registry().destroyed() == (if old(self).alive(e) {
                old(self).registry().destroyed().push(e)
            } else {
                old(self).registry().destroyed()
            }),
            old(self).alive(e) ==> final(self).registry().destroyed().contains(e),
            forall|x: Entity| final(self).alive(x) == old(self).alive(x),
            final(self).model() == old(self).model(),
    {
        self.entities.destroy(e);
        proof {
            old(self).entities.lemma_staging_keeps_consistent(&self.entities, &self.archetypes);
            assert(self.model() =~= old(self).model());
        }
    }

    /// Stages giving `e` the component `value` of type `key`.
    pub fn add_component(&mut self, e: Entity, key: u64, value: C)
        ensures
            final(self).registry() == old(self).registry(),
            final(self).storage() == old(self).storage(),
            final(self).tag_storage() == old(self).tag_storage(),
            final(self).staged() == old(self).staged().push(Command::Attach { entity: e, key, value }),
    {
        self.commands.push(Command::Attach { entity: e, key, value });
    }

    /// Stages taking the component of type `key` from `e`.
    pub fn remove_component(&mut self, e: Entity, key: u64)
        ensures
            final(self).registry() == old(self).registry(),
            final(self).storage() == old(self).storage(),
            final(self).tag_storage() == old(self).tag_storage(),
            final(self).staged() == old(self).staged().push(Command::Detach { entity: e, key }),
    {
        self.commands.push(Command::Detach { entity: e, key });
    }

    /// Stages what a system asked for: its changes of components go behind
    /// the staged ones, and every entity that it wants destroyed and that is
    /// alive is marked for removal.
    pub fn stage(&mut self, commands: Commands<C>)
        requires
            old(self).wf(),
        ensures
            final(self).wf(),
            final(self).registry()@ == old(self).registry()@,
            final(self).storage() == old(self).storage(),
            final(self).tag_storage() == old(self).tag_storage(),
            final(self).registry().created() == old(self).registry().created(),
            final(self).registry().free() == old(self).registry().free(),
            final(self).staged() == old(self).staged() + commands.ops(),
            final(self).registry().destroyed() == old(self).registry().destroyed()
                + commands.destroyed().filter(|e: Entity| old(self).alive(e)),
            forall|x: Entity| final(self).alive(x) == old(self).alive(x),
            final(self).model() == old(self).model(),
    {
        let (mut ops, marked) = commands.into_parts();
        self.commands.append(&mut ops);
        let ghost is_alive = |e: Entity| old(self).alive(e);
        let n = marked.len();
        let mut j: usize = 0;
        proof {
            reveal(Seq::filter);
            assert(marked@.take(0) =~= Seq::<Entity>::empty());
            assert(self.registry().destroyed() =~= old(self).registry().destroyed() + marked@.take(
                0,
            ).filter(is_alive));
        }
        while j < n
            invariant
                j <= n,
                n == marked@.len(),
                is_alive == (|e: Entity| old(self).alive(e)),
                self.entities.wf(),
                self.entities@ == old(self).entities@,
                self.archetypes == old(self).archetypes,
                self.tags == old(self).tags,
                self.commands@ == old(self).commands@ + commands.ops(),
                self.entities.created() == old(self).entities.created(),
                self.entities.free() == old(self).entities.free(),
                self.entities.destroyed() == old(self).entities.destroyed() + marked@.take(j as int).filter(
                    is_alive,
                ),
            decreases n - j,
        {
            let e = marked[j];
            proof {
                reveal(Seq::filter);
                assert(marked@.take(j + 1).drop_last() =~= marked@.take(j as int));
                assert(marked@.take(j + 1).last() == e);
                assert(is_alive(e) == self.entities.alive(e));
            }
            self.entities.destroy(e);
            proof {
                assert(self.entities.destroyed() =~= old(self).entities.destroyed() + marked@.take(
                    j + 1,
                ).filter(is_alive));
            }
            j += 1;
        }
        proof {
            assert(marked@.take(n as int) =~= marked@);
            old(self).entities.lemma_staging_keeps_consistent(&self.entities, &self.archetypes);
            assert(self.model() =~= old(self).model());
        }
    }

    /// The component of type `key` of `e`, if `e` is stored and has one.
    pub fn get(&self, e: Entity, key: u64) -> (r: Option<&C>)
        requires
            self.wf(),
        ensures
            match r {
                Some(c) => self.placed(e) && self.components(e).contains_key(key) && *c
                    == self.components(e)[key],
                None => !(self.placed(e) && self.components(e).contains_key(key)),
            },
    {
        match self.entities.location(e) {
            None => None,
            Some((a, row)) => {
                proof {
                    assert(self.archetypes@[a as int].wf());
                    self.archetypes@[a as int].lemma_wf();
                }
                self.archetypes.table(a).get(row, key)
            },
        }
    }

    /// Puts `value` in place of the component of type `key` that `e` has,
    /// and returns the old one. This moves no row, so it is done at once.
    /// If `e` is not stored or has no component of that type, nothing
    /// changes and `value` comes back as the error.
    pub fn set(&mut self, e: Entity, key: u64, value: C) -> (r: Result<C, C>)
        requires
            old(self).wf(),
        ensures
            final(self).wf(),
            final(self).registry() == old(self).registry(),
            final(self).tag_storage() == old(self).tag_storage(),
            final(self).staged() == old(self).staged(),
            final(self).storage()@.len() == old(self).storage()@.len(),
            match r {
                Ok(was) => {
                    &&& old(self).placed(e)
                    &&& old(self).components(e).contains_key(key)
                    &&& was == old(self).components(e)[key]
                    &&& final(self).model() == old(self).model().insert(
                        e,
                        old(self).components(e).insert(key, value),
                    )
                },
                Err(back) => {
                    &&& !(old(self).placed(e) && old(self).components(e).contains_key(key))
                    &&& back == value
                    &&& final(self).storage() == old(self).storage()
                },
            },
    {
        let (a, row) = match self.entities.location(e) {
            None => {
                return Err(value);
            },
            Some(loc) => loc,
        };
        proof {
            assert(self.archetypes@[a as int].wf());
            self.archetypes@[a as int].lemma_wf();
        }
        match self.archetypes.table(a).type_set().position(key) {
            None => Err(value),
            Some(i) => {
                let was = self.archetypes.replace(a, row, i, value);
                proof {
                    let t0 = old(self).archetypes@;
                    let t1 = self.archetypes@;
                    let keys = t0[a as int].keys();
                    assert(keys.contains(key));
                    let j = keys.index_of(key);
                    assert(0 <= j < keys.len() && keys[j] == key);
                    if i < j {
                        assert(keys[i as int] < keys[j]);
                    } else if j < i {
                        assert(keys[j] < keys[i as int]);
                    }
                    assert(forall|c: int| 0 <= c < t0.len() ==> (#[trigger] t1[c]).entities() == t0[c].entities());
                    assert(self.registry().row_of(&self.storage(), e) =~= old(self).registry().row_of(
                        &old(self).storage(),
                        e,
                    ).update(i as int, value));
                    crate::archetype::lemma_replaced_components(
                        keys,
                        old(self).registry().row_of(&old(self).storage(), e),
                        i as int,
                        value,
                    );
                    assert forall|x: Entity| self.placed(x) && x != e implies #[trigger] self.registry().comps(
                        &self.storage(),
                        x,
                    ) == old(self).registry().comps(&old(self).storage(), x) by {
                        let c = self.registry()@[x.id as int].archetype as int;
                        let q = self.registry()@[x.id as int].row as int;
                        assert(t0[c].entities()[q] == x);
                        if c == a {
                            assert(q != row);
                            assert(self.registry().row_of(&self.storage(), x) =~= old(self).registry().row_of(&old(self).storage(), x));
                        } else {
                            assert(t1[c] == t0[c]);
                        }
                    }
                    assert(i == j);
                    assert(t1[a as int].keys() == keys);
                    assert(self.registry().keys_of(&self.storage(), e) == keys);
                    assert(old(self).registry().keys_of(&old(self).storage(), e) == keys);
                    assert(self.components(e) == old(self).components(e).insert(key, value));
                    assert(forall|x: Entity| self.placed(x) == old(self).placed(x));
                    assert(self.model() =~= old(self).model().insert(
                        e,
                        old(self).components(e).insert(key, value),
                    ));
                }
                Ok(was)
            },
        }
    }

    /// Whether `e` carries the tag `tag`.
    pub fn has_tag(&self, e: Entity, tag: u64) -> (r: bool)
        requires
            self.wf(),
        ensures
            r == self.tagged(e, tag),
    {
        self.tags.has_tag(e, tag)
    }

    /// Gives `e` the tag `tag`, at once: a tag moves no row. Returns whether
    /// `e` is alive; nothing changes if it is not.
    pub fn add_tag(&mut self, e: Entity, tag: u64) -> (r: bool)
        requires
            old(self).wf(),
        ensures
            final(self).wf(),
            final(self).registry() == old(self).registry(),
            final(self).storage() == old(self).storage(),
            final(self).staged() == old(self).staged(),
            r == old(self).alive(e),
            forall|x: Entity, t: u64|
                #[trigger] final(self).tagged(x, t) == (if r && t == tag && x.id == e.id {
                    x.ver == e.ver
                } else {
                    old(self).tagged(x, t)
                }),
    {
        if self.entities.is_alive(e) {
            proof {
                self.entities.lemma_wf();
            }
            self.tags.set(e, tag);
            true
        } else {
            false
        }
    }

    /// Takes the tag `tag` from `e`, at once.
    pub fn remove_tag(&mut self, e: Entity, tag: u64)
        requires
            old(self).wf(),
        ensures
            final(self).wf(),
            final(self).registry() == old(self).registry(),
            final(self).storage() == old(self).storage(),
            final(self).staged() == old(self).staged(),
            forall|x: Entity, t: u64|
                #[trigger] final(self).tagged(x, t) == (old(self).tagged(x, t) && !(x == e && t
                    == tag)),
    {
        self.tags.unset(e, tag);
    }

    /// `e` is stored and matches the query: it has every component type
    /// that the query reads or writes, carries every tag that the query asks
    /// for, and none that it bars.
    pub open spec fn matches(&self, q: &Query, e: Entity) -> bool {
        &&& self.placed(e)
        &&& q.required().subset_of(self.components(e).dom())
        &&& q.fits_tags(&self.tag_storage(), e)
    }

    /// The matches of the query, in the order of the archetypes and of
    /// their rows: each stored entity that matches, once.
    pub fn query(&self, q: &Query) -> (hits: Vec<Hit>)
        requires
            self.wf(),
            q.wf(),
        ensures
            q.answered_by(&self.storage(), &self.tag_storage(), hits@),
            forall|e: Entity| self.matches(q, e) <==> names(hits@, e),
            forall|i: int, j: int|
                0 <= i < j < hits@.len() ==> (#[trigger] hits@[i]).entity != (#[trigger] hits@[j]).entity,
    {
        let hits = q.run(&self.archetypes, &self.tags);
        proof {
            assert forall|i: int, j: int| 0 <= i < j < hits@.len() implies (#[trigger] hits@[i]).entity != (
            #[trigger] hits@[j]).entity by {
                let a = hits@[i].archetype as int;
                let r = hits@[i].row as int;
                let b = hits@[j].archetype as int;
                let p = hits@[j].row as int;
                assert(q.hit(&self.storage(), &self.tag_storage(), a, r));
                assert(q.hit(&self.storage(), &self.tag_storage(), b, p));
                assert(crate::query::comes_before(a, r, b, p));
                let x = self.storage()@[a].entities()[r];
                let y = self.storage()@[b].entities()[p];
                assert(self.registry()@[x.id as int].archetype == a && self.registry()@[x.id as int].row == r);
                assert(self.registry()@[y.id as int].archetype == b && self.registry()@[y.id as int].row == p);
            }
            assert forall|e: Entity| self.matches(q, e) <==> names(hits@, e) by {
                if self.matches(q, e) {
                    let a = self.registry()@[e.id as int].archetype as int;
                    let r = self.registry()@[e.id as int].row as int;
                    assert(self.storage()@[a].entities()[r] == e);
                    assert(self.components(e).dom() =~= self.storage()@[a].keys().to_set());
                    assert(q.hit(&self.storage(), &self.tag_storage(), a, r));
                    let i = choose|i: int|
                        0 <= i < hits@.len() && (#[trigger] hits@[i]).archetype == a && hits@[i].row
                            == r;
                    assert(hits@[i].entity == e);
                }
                if names(hits@, e) {
                    let i = choose|i: int| 0 <= i < hits@.len() && (#[trigger] hits@[i]).entity == e;
                    let a = hits@[i].archetype as int;
                    let r = hits@[i].row as int;
                    assert(q.hit(&self.storage(), &self.tag_storage(), a, r));
                    assert(self.placed(self.storage()@[a].entities()[r]));
                    assert(self.components(e).dom() =~= self.storage()@[a].keys().to_set());
                }
            }
        }
        hits
    }

    /// The components of a match that the query asks for, one for each
    /// type that it reads or writes, in the ascending order of the type
    /// keys. If `hit` is no match of the query in this world, there are none.
    pub fn fetch(&self, q: &Query, hit: &Hit) -> (r: Option<Vec<&C>>)
        requires
            self.wf(),
            q.wf(),
        ensures
            r.is_some() == (self.matches(q, hit.entity) && hit.archetype == self.registry()@[hit.entity.id as int].archetype
                && hit.row == self.registry()@[hit.entity.id as int].row),
            r matches Some(out) ==> {
                &&& out@.len() == q.required_keys().len()
                &&& forall|i: int|
                    0 <= i < out@.len() ==> *(#[trigger] out@[i]) == self.components(hit.entity)[q.required_keys()[i]]
            },
    {
        match self.query_get(q, hit.entity) {
            None => None,
            Some(found) => {
                if found.archetype == hit.archetype && found.row == hit.row {
                    proof {
                        assert(self.storage()@[found.archetype as int].entities()[found.row as int]
                            == hit.entity);
                        assert(self.components(hit.entity).dom() =~= self.storage()@[found.archetype as int].keys().to_set());
                    }
                    Some(q.fetch(&self.archetypes, found.archetype, found.row))
                } else {
                    None
                }
            },
        }
    }

    /// The match of `e`, if `e` is stored and matches the query.
    pub fn query_get(&self, q: &Query, e: Entity) -> (r: Option<Hit>)
        requires
            self.wf(),
            q.wf(),
        ensures
            r.is_some() == self.matches(q, e),
            r matches Some(h) ==> h.entity == e && h.archetype == self.registry()@[e.id as int].archetype
                && h.row == self.registry()@[e.id as int].row,
    {
        let r = q.get(&self.entities, &self.archetypes, &self.tags, e);
        proof {
            if self.placed(e) {
                let a = self.registry()@[e.id as int].archetype as int;
                let row = self.registry()@[e.id as int].row as int;
                assert(self.storage()@[a].entities()[row] == e);
                assert(self.components(e).dom() =~= self.storage()@[a].keys().to_set());
            }
        }
        r
    }

    /// Processes all pending entities: every created entity is stored
    /// without components, then the staged component changes are applied in
    /// the order in which they were staged, then every entity that is marked
    /// for removal leaves with its components and its tags.
    ///
    /// The rows stand where these steps put them: a new row is the last of
    /// its archetype, and the last row takes the place of one that leaves. An
    /// archetype is added only for the types that an entity gets by a staged
    /// change and that no archetype has. With nothing pending nothing changes.
    pub fn process_entities(&mut self)
        requires
            old(self).wf(),
        ensures
            final(self).wf(),
            old(self).registry().evolves_to(&final(self).registry()),
            final(self).staged().len() == 0,
            final(self).registry().created().len() == 0,
            final(self).registry().destroyed().len() == 0,
            forall|x: Entity|
                final(self).alive(x) == (old(self).alive(x) && !old(self).registry().destroyed().contains(
                    x,
                )),
            forall|x: Entity| final(self).placed(x) == final(self).alive(x),
            forall|x: Entity|
                old(self).alive(x) && old(self).registry().destroyed().contains(x) ==> final(self).registry().retired(x),
            final(self).model() == apply_all(
                old(self).registry().staged_model(&old(self).storage()),
                old(self).staged(),
            ).restrict(Set::new(|x: Entity| !old(self).registry().destroyed().contains(x))),
            old(self).storage().grows_to(&final(self).storage()),
            forall|x: Entity, t: u64|
                #[trigger] final(self).tagged(x, t) == (old(self).tagged(x, t) && !(old(self).alive(x)
                    && old(self).registry().destroyed().contains(x))),
            final(self).storage().rows() == rows_removed(
                rows_after_all(
                    rows_placed(
                        old(self).storage().rows(),
                        old(self).registry().created(),
                        |x: Entity| old(self).registry().alive(x),
                    ),
                    old(self).staged(),
                ),
                old(self).registry().destroyed(),
            ),
            old(self).registry().created().len() == 0 && old(self).staged().len() == 0 && old(self).registry().destroyed().len()
                == 1 && old(self).placed(old(self).registry().destroyed()[0]) ==> old(self).registry().one_left(
                &old(self).storage(),
                &final(self).registry(),
                &final(self).storage(),
                old(self).registry().destroyed()[0],
            ),
            final(self).storage()@.len() <= old(self).storage()@.len() + old(self).staged().len(),
            old(self).registry().created().len() == 0 && old(self).staged().len() == 0 && old(self).registry().destroyed().len() == 0 ==> final(self).storage() == old(self).storage()
                && final(self).registry()@ == old(self).registry()@ && final(self).tag_storage() == old(self).tag_storage(),
            final(self).registry()@.len() == old(self).registry()@.len(),
            forall|i: int|
                0 <= i < old(self).registry()@.len() ==> (#[trigger] final(self).registry()@[i]).ver
                    == old(self).registry()@[i].ver,
            final(self).registry().free() == old(self).registry().free() + old(self).registry().freed(
                old(self).registry().destroyed(),
            ),
    {
        let mut commands: Vec<Command<C>> = Vec::new();
        core::mem::swap(&mut self.commands, &mut commands);
        self.entities.process(&mut self.archetypes, &mut self.tags, commands);
    }
}

impl<C> Default for World<C> {
    /// The world without entities.
    fn default() -> (w: World<C>)
        ensures
            w.wf(),
            w.staged().len() == 0,
            w.registry()@.len() == 0,
            w.registry().free().len() == 0,
            w.registry().created().len() == 0,
            w.registry().destroyed().len() == 0,
            w.storage()@.len() == 1,
            forall|e: Entity| !w.alive(e),
            forall|e: Entity, t: u64| !w.tagged(e, t),
    {
        World::new()
    }
}

} // verus!
