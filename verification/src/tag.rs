//! Tag storage: markers on entities, kept outside the archetypes.
//!
//! Each tag type has a sparse record with one place per entity index, found
//! through a hash map from the tag's key. The
//! place holds the generation of the entity that carries the tag, or 0 where
//! no entity does. Setting or clearing a tag therefore never moves an entity
//! between archetypes, and a record left by an earlier generation of an
//! index says nothing about a later one.

use vstd::prelude::*;
use std::collections::HashMap;
use crate::entity::Entity;

verus! {

/// The record of one tag type.
pub struct TagStorage {
    key: u64,
    holders: Vec<u32>,
}

impl TagStorage {
    /// The tag type.
    pub closed spec fn key(&self) -> u64 {
        self.key
    }

    /// Whether `e` carries the tag.
    pub closed spec fn holds(&self, e: Entity) -> bool {
        e.ver != 0 && e.id < self.holders@.len() && self.holders@[e.id as int] == e.ver
    }

    fn new(key: u64) -> (s: TagStorage)
        ensures
            s.key() == key,
            forall|e: Entity| !s.holds(e),
    {
        TagStorage { key, holders: Vec::new() }
    }

    fn test(&self, e: Entity) -> (r: bool)
        ensures
            r == self.holds(e),
    {
        e.ver != 0 && (e.id as usize) < self.holders.len() && self.holders[e.id as usize] == e.ver
    }

    fn put(&mut self, e: Entity)
        requires
            e.ver != 0,
        ensures
            final(self).key() == old(self).key(),
            forall|x: Entity|
                final(self).holds(x) == (if x.id == e.id {
                    x.ver == e.ver
                } else {
                    old(self).holds(x)
                }),
    {
        let id = e.id as usize;
        while self.holders.len() <= id
            invariant
                self.key == old(self).key,
                old(self).holders@.len() <= self.holders@.len(),
                forall|j: int| 0 <= j < old(self).holders@.len() ==> self.holders@[j] == old(self).holders@[j],
                forall|j: int| old(self).holders@.len() <= j < self.holders@.len() ==> self.holders@[j] == 0,
            decreases id + 1 - self.holders@.len(),
        {
            self.holders.push(0);
        }
        self.holders[id] = e.ver;
    }

    fn take(&mut self, e: Entity)
        ensures
            final(self).key() == old(self).key(),
            forall|x: Entity| final(self).holds(x) == (old(self).holds(x) && x != e),
    {
        let id = e.id as usize;
        if e.ver != 0 && id < self.holders.len() && self.holders[id] == e.ver {
            self.holders[id] = 0;
        }
    }
}

/// The tags of all entities.
pub struct Tags {
    index: HashMap<u64, usize>,
    storages: Vec<TagStorage>,
}

impl Tags {
    /// Every tag type with a record is found through the index, and the
    /// index leads to the record of the type that was asked for.
    pub closed spec fn wf(&self) -> bool {
        &&& forall|k: u64| #[trigger]
            self.index@.contains_key(k) ==> self.index@[k] < self.storages@.len()
                && self.storages@[self.index@[k] as int].key() == k
        &&& forall|i: int|
            0 <= i < self.storages@.len() ==> self.index@.contains_key(
                (#[trigger] self.storages@[i]).key(),
            ) && self.index@[self.storages@[i].key()] == i
    }

    /// Whether `e` carries the tag `tag`.
    pub closed spec fn has(&self, e: Entity, tag: u64) -> bool {
        self.index@.contains_key(tag) && self.storages@[self.index@[tag] as int].holds(e)
    }

    /// A handle with generation 0 carries no tag.
    pub proof fn lemma_no_tag_without_generation(&self, e: Entity, tag: u64)
        requires
            e.ver == 0,
        ensures
            !self.has(e, tag),
    {
    }

    /// The storage without any tag.
    pub fn new() -> (t: Tags)
        ensures
            t.wf(),
            forall|e: Entity, tag: u64| !t.has(e, tag),
    {
        Tags { index: HashMap::new(), storages: Vec::new() }
    }

    /// Index of the record of `tag`, if there is one.
    fn find(&self, tag: u64) -> (r: Option<usize>)
        ensures
            match r {
                Some(i) => self.index@.contains_key(tag) && self.index@[tag] == i,
                None => !self.index@.contains_key(tag),
            },
    {
        broadcast use vstd::std_specs::hash::group_hash_axioms;

        match self.index.get(&tag) {
            Some(i) => Some(*i),
            None => None,
        }
    }

    /// Whether `e` carries the tag `tag`.
    pub fn has_tag(&self, e: Entity, tag: u64) -> (r: bool)
        requires
            self.wf(),
        ensures
            r == self.has(e, tag),
    {
        match self.find(tag) {
            Some(i) => self.storages[i].test(e),
            None => false,
        }
    }

    /// Gives `e` the tag `tag`. The record of the tag has one place per
    /// entity index, so an earlier generation of the same index loses it.
    /// A handle with generation 0 names no entity: nothing changes for it.
    pub fn set(&mut self, e: Entity, tag: u64)
        requires
            old(self).wf(),
        ensures
            final(self).wf(),
            forall|x: Entity, t: u64|
                #[trigger] final(self).has(x, t) == (if e.ver != 0 && t == tag && x.id == e.id {
                    x.ver == e.ver
                } else {
                    old(self).has(x, t)
                }),
    {
        broadcast use vstd::std_specs::hash::group_hash_axioms;

        if e.ver == 0 {
            return ;
        }
        let i = match self.find(tag) {
            Some(i) => i,
            None => {
                let i = self.storages.len();
                self.index.insert(tag, i);
                self.storages.push(TagStorage::new(tag));
                i
            },
        };
        let ghost mid = *self;
        proof {
            assert(mid.wf()) by {
                assert forall|k: int| 0 <= k < mid.storages@.len() implies mid.index@.contains_key(
                    (#[trigger] mid.storages@[k]).key(),
                ) && mid.index@[mid.storages@[k].key()] == k by {
                    if k < old(self).storages@.len() {
                        assert(mid.storages@[k] == old(self).storages@[k]);
                    }
                }
            }
            assert forall|x: Entity, t: u64| #[trigger] mid.has(x, t) == old(self).has(x, t) by {
                if old(self).index@.contains_key(t) {
                    assert(mid.storages@[mid.index@[t] as int] == old(self).storages@[old(self).index@[t] as int]);
                }
            }
        }
        self.storages[i].put(e);
        proof {
            assert(forall|j: int| 0 <= j < self.storages@.len() && j != i ==> self.storages@[j] == mid.storages@[j]);
            assert(self.wf()) by {
                assert forall|k: int| 0 <= k < self.storages@.len() implies self.index@.contains_key(
                    (#[trigger] self.storages@[k]).key(),
                ) && self.index@[self.storages@[k].key()] == k by {
                    assert(self.storages@[k].key() == mid.storages@[k].key());
                }
            }
            assert forall|x: Entity, t: u64| #[trigger] self.has(x, t) == (if t == tag && x.id == e.id {
                x.ver == e.ver
            } else {
                mid.has(x, t)
            }) by {
                if self.index@.contains_key(t) {
                    let j = self.index@[t] as int;
                    if j != i {
                        assert(self.storages@[j] == mid.storages@[j]);
                        assert(t != tag);
                    } else {
                        assert(mid.storages@[i as int].key() == t);
                    }
                }
            }
        }
    }

    /// Takes the tag `tag` from `e`.
    pub fn unset(&mut self, e: Entity, tag: u64)
        requires
            old(self).wf(),
        ensures
            final(self).wf(),
            forall|x: Entity, t: u64|
                #[trigger] final(self).has(x, t) == (old(self).has(x, t) && !(x == e && t == tag)),
    {
        match self.find(tag) {
            Some(i) => {
                self.storages[i].take(e);
                proof {
                    assert(forall|j: int| 0 <= j < self.storages@.len() && j != i ==> self.storages@[j] == old(self).storages@[j]);
                    assert(self.wf()) by {
                        assert forall|k: int| 0 <= k < self.storages@.len() implies self.index@.contains_key(
                            (#[trigger] self.storages@[k]).key(),
                        ) && self.index@[self.storages@[k].key()] == k by {
                            assert(self.storages@[k].key() == old(self).storages@[k].key());
                        }
                    }
                    assert forall|x: Entity, t: u64| #[trigger] self.has(x, t) == (old(self).has(x, t) && !(x == e && t == tag)) by {
                        if self.index@.contains_key(t) {
                            let j = self.index@[t] as int;
                            if j != i {
                                assert(self.storages@[j] == old(self).storages@[j]);
                            }
                        }
                    }
                }
            },
            None => {},
        }
    }

    /// Takes every tag from `e`.
    pub fn clear(&mut self, e: Entity)
        requires
            old(self).wf(),
        ensures
            final(self).wf(),
            forall|x: Entity, t: u64| #[trigger] final(self).has(x, t) == (old(self).has(x, t) && x != e),
    {
        let n = self.storages.len();
        let mut i: usize = 0;
        while i < n
            invariant
                i <= n,
                n == self.storages@.len(),
                n == old(self).storages@.len(),
                self.index@ == old(self).index@,
                forall|j: int| 0 <= j < n ==> (#[trigger] self.storages@[j]).key() == old(self).storages@[j].key(),
                forall|j: int, x: Entity| 0 <= j < i ==> (#[trigger] self.storages@[j].holds(x)) == (old(self).storages@[j].holds(x) && x != e),
                forall|j: int| i <= j < n ==> (#[trigger] self.storages@[j]) == old(self).storages@[j],
            decreases n - i,
        {
            self.storages[i].take(e);
            i += 1;
        }
        proof {
            assert(self.wf()) by {
                assert forall|k: int| 0 <= k < self.storages@.len() implies self.index@.contains_key(
                    (#[trigger] self.storages@[k]).key(),
                ) && self.index@[self.storages@[k].key()] == k by {
                    assert(self.storages@[k].key() == old(self).storages@[k].key());
                }
            }
            assert forall|x: Entity, t: u64| #[trigger] self.has(x, t) == (old(self).has(x, t) && x != e) by {
                if self.index@.contains_key(t) {
                    let j = self.index@[t] as int;
                    assert(self.storages@[j].holds(x) == (old(self).storages@[j].holds(x) && x != e));
                }
            }
        }
    }
}

} // verus!
