use vstd::prelude::*;

use crate::entity::{Entity, Rollback};
use crate::value::{Value, ValueModel, views};

verus! {

/// One arena slot of a world: the entity that lives there (if any), its tag and its components.
pub struct Slot {
    pub generation: u32,
    pub alive: bool,
    pub rollback: Option<Rollback>,
    pub components: Vec<Value>,
}

pub struct SlotModel {
    pub generation: u32,
    pub alive: bool,
    pub rollback: Option<Rollback>,
    pub components: Seq<ValueModel>,
}

impl View for Slot {
    type V = SlotModel;

    open spec fn view(&self) -> SlotModel {
        SlotModel {
            generation: self.generation,
            alive: self.alive,
            rollback: self.rollback,
            components: views(self.components@),
        }
    }
}

pub open spec fn slot_views(s: Seq<Slot>) -> Seq<SlotModel> {
    s.map_values(|x: Slot| x@)
}

pub proof fn lemma_slot_views_push(s: Seq<Slot>, x: Slot)
    ensures
        slot_views(s.push(x)) == slot_views(s).push(x@),
{
    assert(slot_views(s.push(x)) =~= slot_views(s).push(x@));
}

/// A live world: an arena of entity slots and a list of global singleton values.
pub struct World {
    pub slots: Vec<Slot>,
    pub resources: Vec<Value>,
}

pub struct WorldModel {
    pub slots: Seq<SlotModel>,
    pub resources: Seq<ValueModel>,
}

impl View for World {
    type V = WorldModel;

    open spec fn view(&self) -> WorldModel {
        WorldModel { slots: slot_views(self.slots@), resources: views(self.resources@) }
    }
}

/// A slot that holds a live entity carrying a Rollback Id.
pub open spec fn is_tracked(s: SlotModel) -> bool {
    s.alive && s.rollback is Some
}

/// Whether `e` names the entity living in its slot.
pub open spec fn is_live(w: WorldModel, e: Entity) -> bool {
    0 <= e.index < w.slots.len() && w.slots[e.index as int].alive
        && w.slots[e.index as int].generation == e.generation
}

/// The first value of the given type in a list.
pub open spec fn value_of_type(s: Seq<ValueModel>, type_id: u32) -> Option<ValueModel>
    decreases s.len(),
{
    if s.len() == 0 {
        None
    } else {
        match value_of_type(s.drop_last(), type_id) {
            Some(v) => Some(v),
            None => if s.last().type_id == type_id {
                Some(s.last())
            } else {
                None
            },
        }
    }
}

impl World {
    /// Every slot index fits an entity's index.
    pub open spec fn wf(&self) -> bool {
        self.slots.len() <= u32::MAX
    }

    pub fn new() -> (r: World)
        ensures
            r@.slots.len() == 0,
            r@.resources.len() == 0,
    {
        let r = World { slots: Vec::new(), resources: Vec::new() };
        assert(r@.slots =~= Seq::<SlotModel>::empty());
        assert(r@.resources =~= Seq::<ValueModel>::empty());
        r
    }

    /// Spawns a new entity in a fresh slot.
    pub fn spawn(&mut self, rollback: Option<Rollback>, components: Vec<Value>) -> (r: Entity)
        requires
            old(self).slots.len() < u32::MAX,
        ensures
            r.index == old(self).slots.len(),
            r.generation == 0,
            final(self)@.slots == old(self)@.slots.push(
                SlotModel { generation: 0, alive: true, rollback, components: views(components@) },
            ),
            final(self)@.resources == old(self)@.resources,
    {
        let index = self.slots.len() as u32;
        let slot = Slot { generation: 0, alive: true, rollback, components };
        proof {
            lemma_slot_views_push(self.slots@, slot);
        }
        self.slots.push(slot);
        Entity { index, generation: 0 }
    }

    /// Despawns a live entity, dropping its components; does nothing to a stale identity.
    pub fn despawn(&mut self, e: Entity)
        ensures
            is_live(old(self)@, e) ==> final(self)@.slots == old(self)@.slots.update(
                e.index as int,
                SlotModel {
                    generation: e.generation,
                    alive: false,
                    rollback: None,
                    components: Seq::empty(),
                },
            ),
            !is_live(old(self)@, e) ==> final(self)@.slots == old(self)@.slots,
            final(self)@.resources == old(self)@.resources,
    {
        let i = e.index as usize;
        if i < self.slots.len() && self.slots[i].alive && self.slots[i].generation == e.generation {
            let dead = Slot {
                generation: e.generation,
                alive: false,
                rollback: None,
                components: Vec::new(),
            };
            assert(dead@.components =~= Seq::empty());
            self.slots.set(i, dead);
            assert(slot_views(self.slots@) =~= old(self)@.slots.update(i as int, dead@));
        }
    }

    /// The Rollback Id of a live entity.
    pub fn rollback_of(&self, e: Entity) -> (r: Option<Rollback>)
        ensures
            r == (if is_live(self@, e) {
                self@.slots[e.index as int].rollback
            } else {
                None
            }),
    {
        let i = e.index as usize;
        if i < self.slots.len() && self.slots[i].alive && self.slots[i].generation == e.generation {
            self.slots[i].rollback
        } else {
            None
        }
    }

    /// The live entity tagged with the given Rollback Id, the first one in slot order.
    pub fn entity_with_rollback(&self, rollback: Rollback) -> (r: Option<Entity>)
        requires
            self.wf(),
        ensures
            r is None ==> forall|i: int|
                0 <= i < self@.slots.len() ==> !(is_tracked(#[trigger] self@.slots[i])
                    && self@.slots[i].rollback == Some(rollback)),
            r matches Some(e) ==> is_live(self@, e) && self@.slots[e.index as int].rollback
                == Some(rollback) && forall|i: int|
                0 <= i < e.index ==> !(is_tracked(#[trigger] self@.slots[i])
                    && self@.slots[i].rollback == Some(rollback)),
    {
        let mut i: usize = 0;
        while i < self.slots.len()
            invariant
                i <= self.slots.len(),
                self.slots.len() <= u32::MAX,
                forall|j: int|
                    0 <= j < i ==> !(is_tracked(#[trigger] self@.slots[j])
                        && self@.slots[j].rollback == Some(rollback)),
            decreases self.slots.len() - i,
        {
            if self.slots[i].alive && self.slots[i].rollback == Some(rollback) {
                return Some(Entity { index: i as u32, generation: self.slots[i].generation });
            }
            i = i + 1;
        }
        None
    }
}

} // verus!
