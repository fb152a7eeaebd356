use vstd::prelude::*;

verus! {

/// A live identity: an arena slot index together with the generation of that slot.
#[derive(Clone, Copy, Debug, PartialEq, Eq, Structural)]
pub struct Entity {
    pub index: u32,
    pub generation: u32,
}

impl Entity {
    pub fn from_raw(index: u32) -> (r: Entity)
        ensures
            r.index == index,
            r.generation == 0,
    {
        Entity { index, generation: 0 }
    }
}

/// The stable logical identity of a tracked entity; it survives despawn and respawn.
#[derive(Clone, Copy, Debug, PartialEq, Eq, Structural)]
pub struct Rollback {
    pub id: u32,
}

impl Rollback {
    pub fn new(id: u32) -> (r: Rollback)
        ensures
            r.id == id,
    {
        Rollback { id }
    }
}

} // verus!
