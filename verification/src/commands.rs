//! Commands: structural changes that a system asks for while it runs.
//!
//! A system may not change the storage that others read. It notes what it
//! wants in a `Commands` value of its own, and the world stages all of it
//! when the system has finished.

use vstd::prelude::*;
use crate::entities::Command;
use crate::entity::Entity;

verus! {

/// The structural changes that one system asks for.
pub struct Commands<C> {
    ops: Vec<Command<C>>,
    destroyed: Vec<Entity>,
}

impl<C> Commands<C> {
    /// The changes of components, oldest first.
    pub closed spec fn ops(&self) -> Seq<Command<C>> {
        self.ops@
    }

    /// The entities to destroy, oldest first.
    pub closed spec fn destroyed(&self) -> Seq<Entity> {
        self.destroyed@
    }

    /// No changes.
    pub fn new() -> (c: Commands<C>)
        ensures
            c.ops().len() == 0,
            c.destroyed().len() == 0,
    {
        Commands { ops: Vec::new(), destroyed: Vec::new() }
    }

    /// Whether nothing is asked for.
    pub fn is_empty(&self) -> (r: bool)
        ensures
            r == (self.ops().len() == 0 && self.destroyed().len() == 0),
    {
        self.ops.len() == 0 && self.destroyed.len() == 0
    }

    /// Asks to give `e` the component `value` of type `key`.
    pub fn add_component(&mut self, e: Entity, key: u64, value: C)
        ensures
            final(self).ops() == old(self).ops().push(Command::Attach { entity: e, key, value }),
            final(self).destroyed() == old(self).destroyed(),
    {
        self.ops.push(Command::Attach { entity: e, key, value });
    }

    /// Asks to take the component of type `key` from `e`.
    pub fn remove_component(&mut self, e: Entity, key: u64)
        ensures
            final(self).ops() == old(self).ops().push(Command::Detach { entity: e, key }),
            final(self).destroyed() == old(self).destroyed(),
    {
        self.ops.push(Command::Detach { entity: e, key });
    }

    /// Asks to destroy `e`.
    pub fn destroy(&mut self, e: Entity)
        ensures
            final(self).ops() == old(self).ops(),
            final(self).destroyed() == old(self).destroyed().push(e),
    {
        self.destroyed.push(e);
    }

    /// Hands the changes out: those of components, and the entities to
    /// destroy.
    pub fn into_parts(self) -> (parts: (Vec<Command<C>>, Vec<Entity>))
        ensures
            parts.0@ == self.ops(),
            parts.1@ == self.destroyed(),
    {
        (self.ops, self.destroyed)
    }
}

} // verus!
