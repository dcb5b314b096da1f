//! The resource store: one shared value per resource type.
//!
//! A resource is registered once, under the key of its type, and lives as
//! long as the store. A hash map leads from the key to the slot. Every resource sits behind its own lock, so that
//! access to it is counted like access to component storage: any number of
//! readers, or one writer.

use vstd::prelude::*;
use std::collections::HashMap;
use crate::prw_lock::{PrwLock, PrwReadLock, PrwWriteLock, WRITING, admits_reader, admits_writer};

verus! {

/// The resources of a world.
pub struct Resources<R> {
    index: HashMap<u64, usize>,
    keys: Vec<u64>,
    locks: Vec<PrwLock<R>>,
}

impl<R> Resources<R> {
    /// The value of every registered resource, by type key.
    pub closed spec fn view(&self) -> Map<u64, R> {
        Map::new(|k: u64| self.index@.contains_key(k), |k: u64| self.locks@[self.index@[k] as int]@)
    }

    /// The count of the guards of every registered resource, by type key:
    /// 0 for none, `WRITING` for one writer, else the number of readers.
    pub closed spec fn counters(&self) -> Map<u64, u32> {
        Map::new(
            |k: u64| self.index@.contains_key(k),
            |k: u64| self.locks@[self.index@[k] as int].counter(),
        )
    }

    /// Every registered type has its own slot, found through the index.
    pub closed spec fn wf(&self) -> bool {
        &&& self.keys@.len() == self.locks@.len()
        &&& forall|k: u64| #[trigger]
            self.index@.contains_key(k) ==> self.index@[k] < self.keys@.len()
                && self.keys@[self.index@[k] as int] == k
        &&& forall|i: int|
            0 <= i < self.keys@.len() ==> self.index@.contains_key(#[trigger] self.keys@[i])
                && self.index@[self.keys@[i]] == i
    }

    /// Values and counters are kept for the same resource types.
    pub proof fn lemma_same_keys(&self)
        ensures
            self@.dom() == self.counters().dom(),
    {
        assert(self@.dom() =~= self.counters().dom());
    }

    /// The store without resources.
    pub fn new() -> (s: Resources<R>)
        ensures
            s.wf(),
            s@ == Map::<u64, R>::empty(),
            s.counters() == Map::<u64, u32>::empty(),
    {
        let s = Resources { index: HashMap::new(), keys: Vec::new(), locks: Vec::new() };
        assert(s@ =~= Map::<u64, R>::empty());
        assert(s.counters() =~= Map::<u64, u32>::empty());
        s
    }

    /// Index of the slot of the resource type `key`, if it is registered.
    fn find(&self, key: u64) -> (r: Option<usize>)
        requires
            self.wf(),
        ensures
            match r {
                Some(i) => i < self.keys@.len() && self.keys@[i as int] == key && self.index@.contains_key(
                    key,
                ) && self.index@[key] == i,
                None => !self.index@.contains_key(key),
            },
    {
        broadcast use vstd::std_specs::hash::group_hash_axioms;

        match self.index.get(&key) {
            Some(i) => Some(*i),
            None => None,
        }
    }

    /// Whether a resource of the type `key` is registered.
    pub fn contains(&self, key: u64) -> (r: bool)
        requires
            self.wf(),
        ensures
            r == self@.contains_key(key),
    {
        self.find(key).is_some()
    }

    /// Registers `value` as the resource of the type `key`. A type can be
    /// registered once: for a second registration nothing changes and
    /// `value` comes back as the error.
    pub fn add(&mut self, key: u64, value: R) -> (r: Result<(), R>)
        requires
            old(self).wf(),
        ensures
            final(self).wf(),
            match r {
                Ok(()) => {
                    &&& !old(self)@.contains_key(key)
                    &&& final(self)@ == old(self)@.insert(key, value)
                    &&& final(self).counters() == old(self).counters().insert(key, 0)
                },
                Err(back) => {
                    &&& old(self)@.contains_key(key)
                    &&& back == value
                    &&& final(self)@ == old(self)@
                    &&& final(self).counters() == old(self).counters()
                },
            },
    {
        broadcast use vstd::std_specs::hash::group_hash_axioms;

        if self.find(key).is_some() {
            return Err(value);
        }
        let slot = self.keys.len();
        self.index.insert(key, slot);
        self.keys.push(key);
        self.locks.push(PrwLock::new(value));
        proof {
            assert forall|i: int| 0 <= i < self.keys@.len() implies self.index@.contains_key(
                #[trigger] self.keys@[i],
            ) && self.index@[self.keys@[i]] == i by {
                if i < slot {
                    assert(self.keys@[i] == old(self).keys@[i]);
                }
            }
            assert forall|k: u64| #[trigger] self.index@.contains_key(k) && k != key implies self.locks@[self.index@[k] as int]
                == old(self).locks@[old(self).index@[k] as int] by {}
            assert(self@ =~= old(self)@.insert(key, value));
            assert(self.counters() =~= old(self).counters().insert(key, 0));
        }
        Ok(())
    }

    /// A guard for reading the resource of the type `key`. There is none
    /// if the type is not registered or a writer has access; nothing
    /// changes then.
    pub fn get(&mut self, key: u64) -> (r: Option<PrwReadLock<R>>)
        requires
            old(self).wf(),
        ensures
            final(self).wf(),
            final(self)@ == old(self)@,
            r.is_some() == (old(self)@.contains_key(key) && admits_reader(old(self).counters()[key])),
            match r {
                Some(guard) => {
                    &&& guard@ == old(self)@[key]
                    &&& final(self).counters() == old(self).counters().insert(
                        key,
                        (old(self).counters()[key] + 1) as u32,
                    )
                },
                None => final(self).counters() == old(self).counters(),
            },
    {
        let i = match self.find(key) {
            Some(i) => i,
            None => {
                return None;
            },
        };
        let r = self.locks[i].try_read();
        proof {
            self.lemma_one_lock_changed(old(self), i as int);
        }
        r
    }

    /// A guard for writing the resource of the type `key`. There is none
    /// if the type is not registered or anybody has access; nothing changes
    /// then.
    pub fn get_mut(&mut self, key: u64) -> (r: Option<PrwWriteLock<R>>)
        requires
            old(self).wf(),
        ensures
            final(self).wf(),
            final(self)@ == old(self)@,
            r.is_some() == (old(self)@.contains_key(key) && admits_writer(old(self).counters()[key])),
            match r {
                Some(guard) => {
                    &&& guard@ == old(self)@[key]
                    &&& final(self).counters() == old(self).counters().insert(key, WRITING)
                },
                None => final(self).counters() == old(self).counters(),
            },
    {
        let i = match self.find(key) {
            Some(i) => i,
            None => {
                return None;
            },
        };
        let r = self.locks[i].try_write();
        proof {
            self.lemma_one_lock_changed(old(self), i as int);
        }
        r
    }

    /// Takes a read guard for the resource of the type `key` back: one
    /// reader less. Where the type is not registered or no reader has
    /// access, nothing changes.
    pub fn release_read(&mut self, key: u64, guard: PrwReadLock<R>)
        requires
            old(self).wf(),
        ensures
            final(self).wf(),
            final(self)@ == old(self)@,
            final(self).counters() == (if old(self)@.contains_key(key) && 0 < old(self).counters()[key]
                < WRITING {
                old(self).counters().insert(key, (old(self).counters()[key] - 1) as u32)
            } else {
                old(self).counters()
            }),
    {
        match self.find(key) {
            Some(i) => {
                self.locks[i].release_read(guard);
                proof {
                    self.lemma_one_lock_changed(old(self), i as int);
                }
            },
            None => {},
        }
    }

    /// Takes the write guard for the resource of the type `key` back: the
    /// resource has the value that the guard holds, and nobody has access.
    /// Where the type is not registered or no writer has access, nothing
    /// changes.
    pub fn release_write(&mut self, key: u64, guard: PrwWriteLock<R>)
        requires
            old(self).wf(),
        ensures
            final(self).wf(),
            if old(self)@.contains_key(key) && old(self).counters()[key] == WRITING {
                &&& final(self)@ == old(self)@.insert(key, guard@)
                &&& final(self).counters() == old(self).counters().insert(key, 0)
            } else {
                &&& final(self)@ == old(self)@
                &&& final(self).counters() == old(self).counters()
            },
    {
        match self.find(key) {
            Some(i) => {
                self.locks[i].release_write(guard);
                proof {
                    self.lemma_one_lock_changed(old(self), i as int);
                }
            },
            None => {},
        }
    }

    /// What the store holds after the lock in slot `i` changed.
    proof fn lemma_one_lock_changed(&self, before: &Resources<R>, i: int)
        requires
            before.wf(),
            self.index@ == before.index@,
            self.keys@ == before.keys@,
            self.locks@.len() == before.locks@.len(),
            0 <= i < self.locks@.len(),
            forall|j: int| 0 <= j < self.locks@.len() && j != i ==> self.locks@[j] == before.locks@[j],
        ensures
            self.wf(),
            self@ == before@.insert(self.keys@[i], self.locks@[i]@),
            self.counters() == before.counters().insert(self.keys@[i], self.locks@[i].counter()),
            before@.contains_key(self.keys@[i]),
            before@[self.keys@[i]] == before.locks@[i]@,
            before.counters()[self.keys@[i]] == before.locks@[i].counter(),
    {
        let key = self.keys@[i];
        assert(self.index@.contains_key(key) && self.index@[key] == i);
        assert forall|k: u64| #[trigger] self.index@.contains_key(k) && k != key implies self.index@[k] != i by {}
        assert(self@ =~= before@.insert(key, self.locks@[i]@));
        assert(self.counters() =~= before.counters().insert(key, self.locks@[i].counter()));
    }
}

} // verus!
