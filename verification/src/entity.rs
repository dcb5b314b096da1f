//! Entity handles.

use vstd::prelude::*;

verus! {

/// Handle of an entity: the index of its slot in the registry and the
/// generation the slot had when the handle was issued.
///
/// The registry issues generations from 1 upwards, so a handle with
/// generation 0 never names a live entity.
#[derive(Clone, Copy, Debug, PartialEq, Eq, Structural, Hash)]
pub struct Entity {
    /// Index of the slot.
    pub id: u32,
    /// Generation of the slot.
    pub ver: u32,
}

impl Entity {
    /// The handle with the given index and generation.
    pub fn new(id: u32, ver: u32) -> (e: Entity)
        ensures
            e == (Entity { id, ver }),
    {
        Entity { id, ver }
    }

    /// Index of the slot.
    pub fn id(&self) -> (id: u32)
        ensures
            id == self.id,
    {
        self.id
    }

    /// Generation of the slot.
    pub fn ver(&self) -> (ver: u32)
        ensures
            ver == self.ver,
    {
        self.ver
    }
}

} // verus!
