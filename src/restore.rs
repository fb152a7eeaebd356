use vstd::prelude::*;

use crate::entity::{Entity, Rollback};
use crate::registry::{Registration, TypeKind, TypeRegistry, has_kind, maps_entities};
use crate::snapshot::{
    RecordModel, RollbackEntity, SnapshotModel, WorldSnapshot, capture_values, kept, record_views,
};
use crate::value::{Value, ValueModel, copy_vec, duplicate_all, views, lemma_views_push};
use crate::world::{Slot, SlotModel, World, WorldModel, is_tracked, slot_views, lemma_slot_views_push};

verus! {

/// Why a snapshot could not be written to a world.
#[derive(Clone, Copy, Debug, PartialEq, Eq, Structural)]
pub enum RestoreError {
    /// Two live entities carry the same Rollback Id.
    DuplicateRollbackId,
    /// The world would hold more slots than an entity index can name.
    TooManyEntities,
}

/// Two live entities carry the same Rollback Id.
pub open spec fn has_duplicate_rollback(slots: Seq<SlotModel>) -> bool {
    exists|i: int, j: int|
        0 <= i < j < slots.len() && is_tracked(slots[i]) && is_tracked(slots[j]) && slots[i].rollback
            == slots[j].rollback
}

/// The first tracked slot at or after `from` that carries `id`.
pub open spec fn first_tracked(slots: Seq<SlotModel>, id: Rollback, from: int) -> Option<int>
    decreases slots.len() - from,
{
    if from < 0 || from >= slots.len() {
        None
    } else if is_tracked(slots[from]) && slots[from].rollback == Some(id) {
        Some(from)
    } else {
        first_tracked(slots, id, from + 1)
    }
}

/// The first record at or after `from` that carries `id`.
pub open spec fn record_index(recs: Seq<RecordModel>, id: Rollback, from: int) -> Option<int>
    decreases recs.len() - from,
{
    if from < 0 || from >= recs.len() {
        None
    } else if recs[from].rollback_id == id {
        Some(from)
    } else {
        record_index(recs, id, from + 1)
    }
}

/// The values of a list whose type is not registered with the given kind, in list order.
pub open spec fn unmanaged(s: Seq<ValueModel>, reg: Seq<Registration>, kind: TypeKind) -> Seq<
    ValueModel,
>
    decreases s.len(),
{
    if s.len() == 0 {
        Seq::empty()
    } else if has_kind(reg, s.last().type_id, kind) {
        unmanaged(s.drop_last(), reg, kind)
    } else {
        unmanaged(s.drop_last(), reg, kind).push(s.last())
    }
}

/// A live list reconciled against a saved one: values of managed types come from the saved
/// list alone (present there: put back whole; absent there: removed), the others stay.
pub open spec fn reconciled(
    live: Seq<ValueModel>,
    saved: Seq<ValueModel>,
    reg: Seq<Registration>,
    kind: TypeKind,
) -> Seq<ValueModel> {
    unmanaged(live, reg, kind) + kept(saved, reg, kind)
}

/// A live slot after the snapshot's records were applied: tracked entities found in the
/// snapshot get their components reconciled, tracked ones absent from it are despawned.
pub open spec fn restored_slot(s: SlotModel, recs: Seq<RecordModel>, reg: Seq<Registration>) -> SlotModel {
    if is_tracked(s) {
        match record_index(recs, s.rollback->Some_0, 0) {
            Some(k) => SlotModel {
                generation: s.generation,
                alive: true,
                rollback: s.rollback,
                components: reconciled(s.components, recs[k].components, reg, TypeKind::Component),
            },
            None => SlotModel {
                generation: s.generation,
                alive: false,
                rollback: None,
                components: Seq::empty(),
            },
        }
    } else {
        s
    }
}

/// The slots spawned for the records whose Rollback Id no live entity carries, in record order.
pub open spec fn spawned(recs: Seq<RecordModel>, slots: Seq<SlotModel>, reg: Seq<Registration>) -> Seq<
    SlotModel,
>
    decreases recs.len(),
{
    if recs.len() == 0 {
        Seq::empty()
    } else {
        let prev = spawned(recs.drop_last(), slots, reg);
        let r = recs.last();
        if first_tracked(slots, r.rollback_id, 0) is None {
            prev.push(
                SlotModel {
                    generation: 0,
                    alive: true,
                    rollback: Some(r.rollback_id),
                    components: kept(r.components, reg, TypeKind::Component),
                },
            )
        } else {
            prev
        }
    }
}

/// The old-to-new identity pairs, one per record: the live entity found for its Rollback Id,
/// or the one spawned for it.
pub open spec fn entity_pairs(recs: Seq<RecordModel>, slots: Seq<SlotModel>, reg: Seq<Registration>) -> Seq<
    (Entity, Entity),
>
    decreases recs.len(),
{
    if recs.len() == 0 {
        Seq::empty()
    } else {
        let prev = entity_pairs(recs.drop_last(), slots, reg);
        let r = recs.last();
        match first_tracked(slots, r.rollback_id, 0) {
            Some(i) => prev.push((r.entity, Entity { index: i as u32, generation: slots[i].generation })),
            None => prev.push(
                (
                    r.entity,
                    Entity {
                        index: (slots.len() + spawned(recs.drop_last(), slots, reg).len()) as u32,
                        generation: 0,
                    },
                ),
            ),
        }
    }
}

/// Where the pairs send an identity: the first pair whose old identity it is, else nowhere.
pub open spec fn mapped(pairs: Seq<(Entity, Entity)>, e: Entity) -> Option<Entity>
    decreases pairs.len(),
{
    if pairs.len() == 0 {
        None
    } else if pairs[0].0 == e {
        Some(pairs[0].1)
    } else {
        mapped(pairs.drop_first(), e)
    }
}

pub open spec fn remap_entity(pairs: Seq<(Entity, Entity)>, e: Entity) -> Entity {
    match mapped(pairs, e) {
        Some(n) => n,
        None => e,
    }
}

/// A value with its references rewritten, if its type declares references.
pub open spec fn remap_value(v: ValueModel, pairs: Seq<(Entity, Entity)>, reg: Seq<Registration>) -> ValueModel {
    if maps_entities(reg, v.type_id) {
        ValueModel {
            type_id: v.type_id,
            words: v.words,
            refs: v.refs.map_values(|e: Entity| remap_entity(pairs, e)),
        }
    } else {
        v
    }
}

pub open spec fn remap_values(s: Seq<ValueModel>, pairs: Seq<(Entity, Entity)>, reg: Seq<Registration>) -> Seq<ValueModel> {
    s.map_values(|v: ValueModel| remap_value(v, pairs, reg))
}

pub open spec fn remap_slot(s: SlotModel, pairs: Seq<(Entity, Entity)>, reg: Seq<Registration>) -> SlotModel {
    SlotModel {
        generation: s.generation,
        alive: s.alive,
        rollback: s.rollback,
        components: remap_values(s.components, pairs, reg),
    }
}

/// The world after a snapshot was written to it.
pub open spec fn restored(w: WorldModel, snap: SnapshotModel, reg: Seq<Registration>) -> WorldModel {
    let recs = snap.entities;
    let pairs = entity_pairs(recs, w.slots, reg);
    let slots = w.slots.map_values(|s: SlotModel| restored_slot(s, recs, reg)) + spawned(
        recs,
        w.slots,
        reg,
    );
    WorldModel {
        slots: slots.map_values(|s: SlotModel| remap_slot(s, pairs, reg)),
        resources: remap_values(
            reconciled(w.resources, snap.resources, reg, TypeKind::Resource),
            pairs,
            reg,
        ),
    }
}

/// Whether two live entities carry the same Rollback Id.
fn find_duplicate(slots: &Vec<Slot>) -> (r: bool)
    ensures
        r == has_duplicate_rollback(slot_views(slots@)),
{
    let ghost v = slot_views(slots@);
    let mut j: usize = 0;
    while j < slots.len()
        invariant
            j <= slots.len(),
            v == slot_views(slots@),
            forall|a: int, b: int|
                0 <= a < b < j ==> !(is_tracked(#[trigger] v[a]) && is_tracked(#[trigger] v[b])
                    && v[a].rollback == v[b].rollback),
        decreases slots.len() - j,
    {
        if slots[j].alive && slots[j].rollback.is_some() {
            let mut i: usize = 0;
            while i < j
                invariant
                    i <= j < slots.len(),
                    v == slot_views(slots@),
                    is_tracked(v[j as int]),
                    forall|a: int|
                        0 <= a < i ==> !(is_tracked(#[trigger] v[a]) && v[a].rollback
                            == v[j as int].rollback),
                decreases j - i,
            {
                if slots[i].alive && slots[i].rollback == slots[j].rollback {
                    assert(is_tracked(v[i as int]) && is_tracked(v[j as int]));
                    return true;
                }
                i = i + 1;
            }
        }
        j = j + 1;
    }
    false
}

/// The first tracked slot that carries `id`.
fn find_tracked(slots: &Vec<Slot>, id: Rollback) -> (r: Option<usize>)
    ensures
        r matches Some(i) ==> first_tracked(slot_views(slots@), id, 0) == Some(i as int) && i
            < slots.len(),
        r is None ==> first_tracked(slot_views(slots@), id, 0) is None,
{
    let ghost v = slot_views(slots@);
    let mut i: usize = 0;
    while i < slots.len()
        invariant
            i <= slots.len(),
            v == slot_views(slots@),
            first_tracked(v, id, 0) == first_tracked(v, id, i as int),
        decreases slots.len() - i,
    {
        if slots[i].alive && slots[i].rollback == Some(id) {
            return Some(i);
        }
        i = i + 1;
    }
    None
}

/// The first record that carries `id`.
fn find_record(recs: &Vec<RollbackEntity>, id: Rollback) -> (r: Option<usize>)
    ensures
        r matches Some(k) ==> record_index(record_views(recs@), id, 0) == Some(k as int)
            && k < recs.len(),
        r is None ==> record_index(record_views(recs@), id, 0) is None,
{
    let ghost v = record_views(recs@);
    let mut i: usize = 0;
    while i < recs.len()
        invariant
            i <= recs.len(),
            v == record_views(recs@),
            record_index(v, id, 0) == record_index(v, id, i as int),
        decreases recs.len() - i,
    {
        if recs[i].rollback_id == id {
            return Some(i);
        }
        i = i + 1;
    }
    None
}

/// Where the pairs send an identity, the identity itself if nowhere.
fn remap_one(pairs: &Vec<(Entity, Entity)>, e: Entity) -> (r: Entity)
    ensures
        r == remap_entity(pairs@, e),
{
    let mut i: usize = 0;
    assert(pairs@.subrange(0, pairs@.len() as int) =~= pairs@);
    while i < pairs.len()
        invariant
            i <= pairs.len(),
            mapped(pairs@, e) == mapped(pairs@.subrange(i as int, pairs@.len() as int), e),
        decreases pairs.len() - i,
    {
        proof {
            let rest = pairs@.subrange(i as int, pairs@.len() as int);
            assert(rest.drop_first() =~= pairs@.subrange(i + 1, pairs@.len() as int));
        }
        if pairs[i].0 == e {
            return pairs[i].1;
        }
        i = i + 1;
    }
    e
}

/// Copies the values of a list whose type is not registered with the given kind.
fn unmanaged_values(src: &Vec<Value>, registry: &TypeRegistry, kind: TypeKind) -> (r: Vec<Value>)
    ensures
        views(r@) == unmanaged(views(src@), registry.registrations@, kind),
{
    let ghost reg = registry.registrations@;
    let mut r: Vec<Value> = Vec::new();
    let mut i: usize = 0;
    while i < src.len()
        invariant
            i <= src.len(),
            views(r@) == unmanaged(views(src@).subrange(0, i as int), reg, kind),
            reg == registry.registrations@,
        decreases src.len() - i,
    {
        proof {
            assert(views(src@).subrange(0, i + 1).drop_last() =~= views(src@).subrange(0, i as int));
        }
        if !registry.kind_registered(src[i].type_id, kind) {
            let d = src[i].duplicate();
            proof {
                lemma_views_push(r@, d);
            }
            r.push(d);
        }
        i = i + 1;
    }
    assert(views(src@).subrange(0, i as int) =~= views(src@));
    r
}

/// A live list reconciled against a saved one (see `reconciled`).
fn reconcile(live: &Vec<Value>, saved: &Vec<Value>, registry: &TypeRegistry, kind: TypeKind) -> (r: Vec<Value>)
    ensures
        views(r@) == reconciled(views(live@), views(saved@), registry.registrations@, kind),
{
    let mut r = unmanaged_values(live, registry, kind);
    let mut from_saved = capture_values(saved, registry, kind);
    let ghost a = r@;
    let ghost b = from_saved@;
    r.append(&mut from_saved);
    assert(views(r@) =~= views(a) + views(b));
    r
}

/// A copy of a value with its references rewritten, if its type declares references.
fn remapped_value(v: &Value, pairs: &Vec<(Entity, Entity)>, registry: &TypeRegistry) -> (r: Value)
    ensures
        r@ == remap_value(v@, pairs@, registry.registrations@),
{
    if registry.entity_mapping(v.type_id) {
        let mut refs: Vec<Entity> = Vec::new();
        let mut i: usize = 0;
        while i < v.refs.len()
            invariant
                i <= v.refs.len(),
                refs@.len() == i,
                forall|j: int| 0 <= j < i ==> refs@[j] == remap_entity(pairs@, #[trigger] v.refs@[j]),
            decreases v.refs.len() - i,
        {
            refs.push(remap_one(pairs, v.refs[i]));
            i = i + 1;
        }
        let r = Value { type_id: v.type_id, words: copy_vec(&v.words), refs };
        assert(r@.refs =~= v@.refs.map_values(|e: Entity| remap_entity(pairs@, e)));
        r
    } else {
        v.duplicate()
    }
}

/// Copies of values with their references rewritten.
fn remapped_values(s: &Vec<Value>, pairs: &Vec<(Entity, Entity)>, registry: &TypeRegistry) -> (r: Vec<Value>)
    ensures
        views(r@) == remap_values(views(s@), pairs@, registry.registrations@),
{
    let mut r: Vec<Value> = Vec::new();
    let mut i: usize = 0;
    while i < s.len()
        invariant
            i <= s.len(),
            r@.len() == i,
            forall|j: int|
                0 <= j < i ==> (#[trigger] r@[j])@ == remap_value(s@[j]@, pairs@, registry.registrations@),
        decreases s.len() - i,
    {
        r.push(remapped_value(&s[i], pairs, registry));
        i = i + 1;
    }
    assert(views(r@) =~= remap_values(views(s@), pairs@, registry.registrations@));
    r
}

impl WorldSnapshot {
    /// Makes a world match this snapshot: tracked entities found by Rollback Id are
    /// reconciled, missing ones respawned, those absent from the snapshot despawned, registered
    /// resources reconciled, and every stored reference of a reference-holding type rewritten
    /// from captured identities to the identities they have now.
    pub fn write_to_world(&self, world: &mut World, registry: &TypeRegistry) -> (r: Result<
        (),
        RestoreError,
    >)
        requires
            old(world).wf(),
        ensures
            has_duplicate_rollback(old(world)@.slots) ==> r == Err::<(), RestoreError>(
                RestoreError::DuplicateRollbackId,
            ),
            !has_duplicate_rollback(old(world)@.slots) && old(world)@.slots.len()
                + self@.entities.len() > u32::MAX ==> r == Err::<(), RestoreError>(
                RestoreError::TooManyEntities,
            ),
            r is Err ==> final(world)@ == old(world)@,
            r is Ok ==> final(world)@ == restored(old(world)@, self@, registry.registrations@),
            final(world).wf(),
            r is Ok <==> !has_duplicate_rollback(old(world)@.slots) && old(world)@.slots.len()
                + self@.entities.len() <= u32::MAX,
    {
        if find_duplicate(&world.slots) {
            return Err(RestoreError::DuplicateRollbackId);
        }
        if self.entities.len() > u32::MAX as usize - world.slots.len() {
            return Err(RestoreError::TooManyEntities);
        }
        let ghost w0 = world@;
        let ghost reg = registry.registrations@;
        let ghost recs = self@.entities;
        let ghost live = w0.slots.map_values(|x: SlotModel| restored_slot(x, recs, reg));

        // Reconcile the live slots with the records.
        let mut slots: Vec<Slot> = Vec::new();
        let mut i: usize = 0;
        while i < world.slots.len()
            invariant
                i <= world.slots.len(),
                w0 == world@,
                recs == self@.entities,
                reg == registry.registrations@,
                slots@.len() == i,
                forall|j: int|
                    0 <= j < i ==> (#[trigger] slots@[j])@ == restored_slot(w0.slots[j], recs, reg),
            decreases world.slots.len() - i,
        {
            let s = &world.slots[i];
            let next = if s.alive && s.rollback.is_some() {
                match find_record(&self.entities, s.rollback.unwrap()) {
                    Some(k) => Slot {
                        generation: s.generation,
                        alive: true,
                        rollback: s.rollback,
                        components: reconcile(
                            &s.components,
                            &self.entities[k].components,
                            registry,
                            TypeKind::Component,
                        ),
                    },
                    None => {
                        let dead = Slot {
                            generation: s.generation,
                            alive: false,
                            rollback: None,
                            components: Vec::new(),
                        };
                        assert(dead@.components =~= Seq::empty());
                        dead
                    },
                }
            } else {
                Slot {
                    generation: s.generation,
                    alive: s.alive,
                    rollback: s.rollback,
                    components: duplicate_all(&s.components),
                }
            };
            slots.push(next);
            i = i + 1;
        }
        assert(slot_views(slots@) =~= live);

        // Respawn the entities that are missing, and pair captured identities with live ones.
        let mut pairs: Vec<(Entity, Entity)> = Vec::new();
        let mut k: usize = 0;
        while k < self.entities.len()
            invariant
                k <= self.entities.len(),
                w0 == world@,
                w0.slots.len() + recs.len() <= u32::MAX,
                recs == self@.entities,
                reg == registry.registrations@,
                slot_views(slots@) == live + spawned(recs.subrange(0, k as int), w0.slots, reg),
                spawned(recs.subrange(0, k as int), w0.slots, reg).len() <= k,
                live.len() == w0.slots.len(),
                slots@.len() == w0.slots.len() + spawned(recs.subrange(0, k as int), w0.slots, reg).len(),
                pairs@ == entity_pairs(recs.subrange(0, k as int), w0.slots, reg),
            decreases self.entities.len() - k,
        {
            let ghost prefix = recs.subrange(0, k as int);
            proof {
                assert(recs.subrange(0, k + 1).drop_last() =~= prefix);
            }
            let rec = &self.entities[k];
            match find_tracked(&world.slots, rec.rollback_id) {
                Some(at) => {
                    pairs.push(
                        (rec.entity, Entity { index: at as u32, generation: world.slots[at].generation }),
                    );
                },
                None => {
                    let index = slots.len() as u32;
                    let fresh = Slot {
                        generation: 0,
                        alive: true,
                        rollback: Some(rec.rollback_id),
                        components: capture_values(&rec.components, registry, TypeKind::Component),
                    };
                    proof {
                        lemma_slot_views_push(slots@, fresh);
                        let sp = spawned(prefix, w0.slots, reg);
                        assert((live + sp).push(fresh@) =~= live + sp.push(fresh@));
                    }
                    slots.push(fresh);
                    pairs.push((rec.entity, Entity { index, generation: 0 }));
                },
            }
            k = k + 1;
        }
        assert(recs.subrange(0, k as int) =~= recs);
        let resources = reconcile(&world.resources, &self.resources, registry, TypeKind::Resource);

        // Rewrite references everywhere from captured identities to live ones.
        let ghost all = slot_views(slots@);
        let mut done: Vec<Slot> = Vec::new();
        let mut j: usize = 0;
        while j < slots.len()
            invariant
                j <= slots.len(),
                all == slot_views(slots@),
                done@.len() == j,
                forall|a: int|
                    0 <= a < j ==> (#[trigger] done@[a])@ == remap_slot(all[a], pairs@, reg),
                reg == registry.registrations@,
            decreases slots.len() - j,
        {
            let s = &slots[j];
            done.push(
                Slot {
                    generation: s.generation,
                    alive: s.alive,
                    rollback: s.rollback,
                    components: remapped_values(&s.components, &pairs, registry),
                },
            );
            j = j + 1;
        }
        let resources = remapped_values(&resources, &pairs, registry);
        *world = World { slots: done, resources };
        assert(world@.slots =~= all.map_values(|x: SlotModel| remap_slot(x, pairs@, reg)));
        Ok(())
    }
}

} // verus!
