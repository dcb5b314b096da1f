//! A read/write lock that refuses instead of waiting.
//!
//! The lock counts who has access to its value: any number of readers, or
//! one writer, never both. It does not make a caller wait. An acquisition
//! that would break the rule is a fault of whoever scheduled the callers, so
//! it is refused on the spot. The guards are owning handles without a
//! lifetime: a read guard shares the value, a write guard holds the value
//! that the lock will have once the guard is handed back.

use vstd::prelude::*;
use std::sync::Arc;

verus! {

/// The counter value that stands for one writer.
pub const WRITING: u32 = 0xffff_ffff;

/// Who has access to the value of a lock.
#[derive(Clone, Copy, Debug, PartialEq, Eq, Structural)]
pub enum Access {
    /// Nobody.
    Idle,
    /// This many readers, at least one.
    Reading(u32),
    /// One writer.
    Writing,
}

/// What a counter value stands for.
pub open spec fn access_of(counter: u32) -> Access {
    if counter == 0 {
        Access::Idle
    } else if counter == WRITING {
        Access::Writing
    } else {
        Access::Reading(counter)
    }
}

/// One more reader can be let in: nobody writes, and the counter has room.
pub open spec fn admits_reader(counter: u32) -> bool {
    counter < WRITING - 1
}

/// A writer can be let in: nobody has access.
pub open spec fn admits_writer(counter: u32) -> bool {
    counter == 0
}

/// Whether one more reader can be let in at this count of guards.
pub fn reader_admitted(counter: u32) -> (r: bool)
    ensures
        r == admits_reader(counter),
{
    counter < WRITING - 1
}

/// Whether a writer can be let in at this count of guards.
pub fn writer_admitted(counter: u32) -> (r: bool)
    ensures
        r == admits_writer(counter),
{
    counter == 0
}

/// The lock may end at this count of guards: none is outstanding.
pub open spec fn admits_end(counter: u32) -> bool {
    counter == 0
}

/// Whether the lock may end at this count of guards.
pub fn end_admitted(counter: u32) -> (r: bool)
    ensures
        r == admits_end(counter),
        r == (access_of(counter) == Access::Idle),
{
    counter == 0
}

/// Readers and a writer never have access together, and neither do two
/// writers: whenever one more reader or a writer is let in, no writer has
/// access, and a writer is let in only when no reader has either.
pub proof fn lemma_access_exclusive(counter: u32)
    ensures
        admits_reader(counter) ==> access_of(counter) != Access::Writing,
        admits_reader(counter) ==> access_of((counter + 1) as u32) == Access::Reading(
            (counter + 1) as u32,
        ),
        admits_writer(counter) <==> access_of(counter) == Access::Idle,
        access_of(counter) is Reading ==> !admits_writer(counter),
        access_of(counter) is Writing ==> !admits_writer(counter) && !admits_reader(counter),
{
}

/// The value of a lock and the count of its guards.
#[derive(Debug)]
pub struct PrwLockInner<T> {
    data: Arc<T>,
    access_state: u32,
}

/// Panicy Read/Write Lock.
///
/// Behaves like a read/write lock, except that the handles to the interior
/// data have no lifetime, and that nobody ever waits: `read` and `write` ask
/// by their `requires` that the access is free, `try_read` and `try_write`
/// test it and refuse.
#[derive(Debug)]
pub struct PrwLock<T>(PrwLockInner<T>);

/// A handle for reading the value of a lock.
#[derive(Debug)]
pub struct PrwReadLock<T>(Arc<T>);

/// A handle for writing the value of a lock.
#[derive(Debug)]
pub struct PrwWriteLock<T>(Arc<T>);

impl<T> PrwReadLock<T> {
    /// The value that the handle shows.
    pub closed spec fn view(&self) -> T {
        *self.0
    }

    /// The value.
    pub fn get(&self) -> (r: &T)
        ensures
            *r == self@,
    {
        &*self.0
    }
}

impl<T> core::ops::Deref for PrwReadLock<T> {
    type Target = T;

    fn deref(&self) -> (r: &T)
        ensures
            *r == self@,
    {
        &*self.0
    }
}

impl<T> PrwWriteLock<T> {
    /// The value that the handle holds.
    pub closed spec fn view(&self) -> T {
        *self.0
    }

    /// The value.
    pub fn get(&self) -> (r: &T)
        ensures
            *r == self@,
    {
        &*self.0
    }

    /// Puts `value` in place of the value.
    pub fn set(&mut self, value: T)
        ensures
            final(self)@ == value,
    {
        self.0 = Arc::new(value);
    }
}

impl<T> core::ops::Deref for PrwWriteLock<T> {
    type Target = T;

    fn deref(&self) -> (r: &T)
        ensures
            *r == self@,
    {
        &*self.0
    }
}

impl<T> PrwLock<T> {
    /// The value of the lock. While a writer has access it is the value
    /// from before the writer came.
    pub closed spec fn view(&self) -> T {
        *self.0.data
    }

    /// The count of the guards: 0 for none, `WRITING` for one writer, else
    /// the number of readers.
    pub closed spec fn counter(&self) -> u32 {
        self.0.access_state
    }

    /// Who has access.
    pub open spec fn access(&self) -> Access {
        access_of(self.counter())
    }

    /// A lock for `data`, with nobody having access.
    pub fn new(data: T) -> (lock: PrwLock<T>)
        ensures
            lock@ == data,
            lock.counter() == 0,
            lock.access() == Access::Idle,
    {
        PrwLock(PrwLockInner { data: Arc::new(data), access_state: 0 })
    }

    /// Who has access.
    pub fn state(&self) -> (a: Access)
        ensures
            a == self.access(),
    {
        if self.0.access_state == 0 {
            Access::Idle
        } else if self.0.access_state == WRITING {
            Access::Writing
        } else {
            Access::Reading(self.0.access_state)
        }
    }

    /// Lets one more reader in. The caller has to know that no writer has
    /// access.
    pub fn read(&mut self) -> (guard: PrwReadLock<T>)
        requires
            admits_reader(old(self).counter()),
        ensures
            guard@ == old(self)@,
            final(self)@ == old(self)@,
            final(self).counter() == old(self).counter() + 1,
            final(self).access() == Access::Reading((old(self).counter() + 1) as u32),
    {
        self.0.access_state = self.0.access_state + 1;
        PrwReadLock(self.0.data.clone())
    }

    /// Lets one more reader in, unless a writer has access or the counter
    /// is full; nothing changes then.
    pub fn try_read(&mut self) -> (r: Option<PrwReadLock<T>>)
        ensures
            r.is_some() == admits_reader(old(self).counter()),
            final(self)@ == old(self)@,
            match r {
                Some(guard) => guard@ == old(self)@ && final(self).counter() == old(self).counter()
                    + 1,
                None => final(self).counter() == old(self).counter(),
            },
    {
        if reader_admitted(self.0.access_state) {
            Some(self.read())
        } else {
            None
        }
    }

    /// Lets a writer in. The caller has to know that nobody has access.
    pub fn write(&mut self) -> (guard: PrwWriteLock<T>)
        requires
            admits_writer(old(self).counter()),
        ensures
            guard@ == old(self)@,
            final(self)@ == old(self)@,
            final(self).counter() == WRITING,
            final(self).access() == Access::Writing,
    {
        self.0.access_state = WRITING;
        PrwWriteLock(self.0.data.clone())
    }

    /// Lets a writer in, unless somebody has access; nothing changes then.
    pub fn try_write(&mut self) -> (r: Option<PrwWriteLock<T>>)
        ensures
            r.is_some() == admits_writer(old(self).counter()),
            final(self)@ == old(self)@,
            match r {
                Some(guard) => guard@ == old(self)@ && final(self).counter() == WRITING,
                None => final(self).counter() == old(self).counter(),
            },
    {
        if writer_admitted(self.0.access_state) {
            Some(self.write())
        } else {
            None
        }
    }

    /// Takes a read guard back: one reader less. Where no reader has
    /// access, nothing changes.
    pub fn release_read(&mut self, guard: PrwReadLock<T>)
        ensures
            final(self)@ == old(self)@,
            final(self).counter() == (if old(self).access() is Reading {
                old(self).counter() - 1
            } else {
                old(self).counter() as int
            }),
    {
        if self.0.access_state != 0 && self.0.access_state != WRITING {
            self.0.access_state = self.0.access_state - 1;
        }
    }

    /// Takes the write guard back: the lock has the value that the guard
    /// holds, and nobody has access. Where no writer has access, nothing
    /// changes.
    pub fn release_write(&mut self, guard: PrwWriteLock<T>)
        ensures
            final(self)@ == (if old(self).access() is Writing {
                guard@
            } else {
                old(self)@
            }),
            final(self).counter() == (if old(self).access() is Writing {
                0
            } else {
                old(self).counter()
            }),
    {
        if self.0.access_state == WRITING {
            self.0.data = guard.0;
            self.0.access_state = 0;
        }
    }

    /// Ends the lock and hands its value out. The caller has to know that
    /// nobody has access: to end a lock while a guard is outstanding is a
    /// fault, and no lock that has one can be ended this way.
    pub fn end(self) -> (data: Arc<T>)
        requires
            self.access() == Access::Idle,
        ensures
            *data == self@,
    {
        self.0.data
    }

    /// Ends the lock and hands its value out, if nobody has access. With
    /// guards outstanding the lock does not end and comes back as it is.
    pub fn into_inner(self) -> (r: Result<Arc<T>, PrwLock<T>>)
        ensures
            match r {
                Ok(data) => self.access() == Access::Idle && *data == self@,
                Err(lock) => self.access() != Access::Idle && lock == self,
            },
    {
        if end_admitted(self.0.access_state) {
            Ok(self.end())
        } else {
            Err(self)
        }
    }
}

} // verus!
