use vstd::prelude::*;

use crate::entity::{Entity, Rollback};
use crate::registry::{TypeKind, TypeRegistry, Registration, has_kind, is_hashable};
use crate::value::{Value, ValueModel, views, value_hash, u64_range, lemma_views_push};
use crate::world::{Slot, SlotModel, World, WorldModel, is_tracked};

verus! {

/// The state of one tracked entity at capture time.
pub struct RollbackEntity {
    pub entity: Entity,
    pub rollback_id: Rollback,
    pub components: Vec<Value>,
}

pub struct RecordModel {
    pub entity: Entity,
    pub rollback_id: Rollback,
    pub components: Seq<ValueModel>,
}

impl View for RollbackEntity {
    type V = RecordModel;

    open spec fn view(&self) -> RecordModel {
        RecordModel {
            entity: self.entity,
            rollback_id: self.rollback_id,
            components: views(self.components@),
        }
    }
}

pub open spec fn record_views(s: Seq<RollbackEntity>) -> Seq<RecordModel> {
    s.map_values(|x: RollbackEntity| x@)
}

pub proof fn lemma_record_views_push(s: Seq<RollbackEntity>, x: RollbackEntity)
    ensures
        record_views(s.push(x)) == record_views(s).push(x@),
{
    assert(record_views(s.push(x)) =~= record_views(s).push(x@));
}

/// The tracked entities and registered resources of a world at one moment, with a checksum
/// that is the wrapping sum of the hashes of every hashable value held.
pub struct WorldSnapshot {
    pub entities: Vec<RollbackEntity>,
    pub resources: Vec<Value>,
    pub checksum: u64,
}

pub struct SnapshotModel {
    pub entities: Seq<RecordModel>,
    pub resources: Seq<ValueModel>,
    pub checksum: u64,
}

impl View for WorldSnapshot {
    type V = SnapshotModel;

    open spec fn view(&self) -> SnapshotModel {
        SnapshotModel {
            entities: record_views(self.entities@),
            resources: views(self.resources@),
            checksum: self.checksum,
        }
    }
}

/// The values of a list whose type is registered with the given kind, in list order.
pub open spec fn kept(s: Seq<ValueModel>, reg: Seq<Registration>, kind: TypeKind) -> Seq<
    ValueModel,
>
    decreases s.len(),
{
    if s.len() == 0 {
        Seq::empty()
    } else if has_kind(reg, s.last().type_id, kind) {
        kept(s.drop_last(), reg, kind).push(s.last())
    } else {
        kept(s.drop_last(), reg, kind)
    }
}

/// The hashes of the values of a list whose type supports hashing.
pub open spec fn hashes(s: Seq<ValueModel>, reg: Seq<Registration>) -> Seq<u64>
    decreases s.len(),
{
    if s.len() == 0 {
        Seq::empty()
    } else if is_hashable(reg, s.last().type_id) {
        hashes(s.drop_last(), reg).push(value_hash(s.last()))
    } else {
        hashes(s.drop_last(), reg)
    }
}

/// The sum of a list of hashes, as an unbounded integer.
pub open spec fn sum(s: Seq<u64>) -> int
    decreases s.len(),
{
    if s.len() == 0 {
        0
    } else {
        sum(s.drop_last()) + s.last()
    }
}

/// The sum of the hashes of every component held by a list of records.
pub open spec fn records_hash_total(recs: Seq<RecordModel>, reg: Seq<Registration>) -> int
    decreases recs.len(),
{
    if recs.len() == 0 {
        0
    } else {
        records_hash_total(recs.drop_last(), reg) + sum(hashes(recs.last().components, reg))
    }
}

/// The checksum of a snapshot's content: the wrap-around sum of all hashes.
pub open spec fn checksum_of(recs: Seq<RecordModel>, res: Seq<ValueModel>, reg: Seq<Registration>) -> u64 {
    ((records_hash_total(recs, reg) + sum(hashes(res, reg))) % (u64_range() as int)) as u64
}

/// The records that a capture builds: one per tracked entity, in slot order, with the
/// entity's registered components.
pub open spec fn captured_records(slots: Seq<SlotModel>, reg: Seq<Registration>) -> Seq<
    RecordModel,
>
    decreases slots.len(),
{
    if slots.len() == 0 {
        Seq::empty()
    } else {
        let prev = captured_records(slots.drop_last(), reg);
        let s = slots.last();
        if is_tracked(s) {
            prev.push(
                RecordModel {
                    entity: Entity { index: (slots.len() - 1) as u32, generation: s.generation },
                    rollback_id: s.rollback->Some_0,
                    components: kept(s.components, reg, TypeKind::Component),
                },
            )
        } else {
            prev
        }
    }
}

/// What a capture of world `w` holds.
pub open spec fn capture(w: WorldModel, reg: Seq<Registration>) -> SnapshotModel {
    let recs = captured_records(w.slots, reg);
    let res = kept(w.resources, reg, TypeKind::Resource);
    SnapshotModel { entities: recs, resources: res, checksum: checksum_of(recs, res, reg) }
}

pub proof fn lemma_sum_push(s: Seq<u64>, x: u64)
    ensures
        sum(s.push(x)) == sum(s) + x,
{
    assert(s.push(x).drop_last() =~= s);
}

pub proof fn lemma_total_push(recs: Seq<RecordModel>, r: RecordModel, reg: Seq<Registration>)
    ensures
        records_hash_total(recs.push(r), reg) == records_hash_total(recs, reg) + sum(
            hashes(r.components, reg),
        ),
{
    assert(recs.push(r).drop_last() =~= recs);
}

proof fn lemma_mod_add_left(a: int, b: int, m: int)
    requires
        0 < m,
    ensures
        ((a % m) + b) % m == (a + b) % m,
{
    vstd::arithmetic::div_mod::lemma_add_mod_noop_right(b, a, m);
}

proof fn lemma_wrapping_step(acc: int, h: u64, x: u64)
    requires
        h as int == acc % (u64_range() as int),
    ensures
        h.wrapping_add(x) as int == (acc + x) % (u64_range() as int),
{
    let m = u64_range() as int;
    let t = h as int + x as int;
    if t > u64::MAX {
        vstd::arithmetic::div_mod::lemma_fundamental_div_mod_converse(t, m, 1, t - m);
    } else {
        vstd::arithmetic::div_mod::lemma_fundamental_div_mod_converse(t, m, 0, t);
    }
    lemma_mod_add_left(acc, x as int, m);
}

/// Copies the values of a list whose type is registered with the given kind.
pub(crate) fn capture_values(src: &Vec<Value>, registry: &TypeRegistry, kind: TypeKind) -> (r: Vec<Value>)
    ensures
        views(r@) == kept(views(src@), registry.registrations@, kind),
{
    let ghost reg = registry.registrations@;
    let mut r: Vec<Value> = Vec::new();
    let mut i: usize = 0;
    while i < src.len()
        invariant
            i <= src.len(),
            views(r@) == kept(views(src@).subrange(0, i as int), reg, kind),
            reg == registry.registrations@,
        decreases src.len() - i,
    {
        proof {
            assert(views(src@).subrange(0, i + 1).drop_last() =~= views(src@).subrange(0, i as int));
        }
        if registry.kind_registered(src[i].type_id, kind) {
            let d = src[i].duplicate();
            proof {
                lemma_views_push(r@, d);
            }
            r.push(d);
        }
        i = i + 1;
    }
    assert(views(src@).subrange(0, i as int) =~= views(src@));
    r
}

/// Adds the hashes of the hashable values of a list to an accumulator, wrapping around.
fn fold_hashes(vals: &Vec<Value>, registry: &TypeRegistry, acc: u64) -> (r: u64)
    ensures
        r as int == (acc + sum(hashes(views(vals@), registry.registrations@))) % (
        u64_range() as int),
{
    let ghost reg = registry.registrations@;
    let ghost m = u64_range() as int;
    let mut h: u64 = acc;
    let mut i: usize = 0;
    while i < vals.len()
        invariant
            i <= vals.len(),
            m == u64_range() as int,
            h as int == (acc + sum(hashes(views(vals@).subrange(0, i as int), reg))) % m,
            reg == registry.registrations@,
        decreases vals.len() - i,
    {
        proof {
            assert(views(vals@).subrange(0, i + 1).drop_last() =~= views(vals@).subrange(0, i as int));
        }
        if registry.hash_supported(vals[i].type_id) {
            let x = vals[i].structural_hash();
            proof {
                let prefix = hashes(views(vals@).subrange(0, i as int), reg);
                lemma_wrapping_step(acc + sum(prefix), h, x);
                lemma_sum_push(prefix, x);
                assert(hashes(views(vals@).subrange(0, i + 1), reg) == prefix.push(x));
            }
            h = h.wrapping_add(x);
        }
        i = i + 1;
    }
    assert(views(vals@).subrange(0, i as int) =~= views(vals@));
    h
}

impl WorldSnapshot {
    /// Captures the tracked entities and registered resources of a world.
    pub fn from_world(world: &World, registry: &TypeRegistry) -> (r: WorldSnapshot)
        requires
            world.wf(),
        ensures
            r@ == capture(world@, registry.registrations@),
    {
        let ghost reg = registry.registrations@;
        let ghost m = u64_range() as int;
        let mut entities: Vec<RollbackEntity> = Vec::new();
        let mut total: u64 = 0;
        let mut i: usize = 0;
        while i < world.slots.len()
            invariant
                i <= world.slots.len(),
                world.slots.len() <= u32::MAX,
                m == u64_range() as int,
                reg == registry.registrations@,
                record_views(entities@) == captured_records(world@.slots.subrange(0, i as int), reg),
                total as int == records_hash_total(
                    captured_records(world@.slots.subrange(0, i as int), reg),
                    reg,
                ) % m,
            decreases world.slots.len() - i,
        {
            proof {
                assert(world@.slots.subrange(0, i + 1).drop_last() =~= world@.slots.subrange(0, i as int));
            }
            let slot = &world.slots[i];
            if slot.alive && slot.rollback.is_some() {
                let components = capture_values(&slot.components, registry, TypeKind::Component);
                let ghost before = records_hash_total(
                    captured_records(world@.slots.subrange(0, i as int), reg),
                    reg,
                );
                let next = fold_hashes(&components, registry, total);
                proof {
                    lemma_mod_add_left(before, sum(hashes(views(components@), reg)), m);
                    lemma_total_push(
                        captured_records(world@.slots.subrange(0, i as int), reg),
                        RecordModel {
                            entity: Entity { index: i as u32, generation: slot.generation },
                            rollback_id: slot.rollback->Some_0,
                            components: views(components@),
                        },
                        reg,
                    );
                }
                total = next;
                let rec = RollbackEntity {
                    entity: Entity { index: i as u32, generation: slot.generation },
                    rollback_id: slot.rollback.unwrap(),
                    components,
                };
                proof {
                    lemma_record_views_push(entities@, rec);
                }
                entities.push(rec);
            }
            i = i + 1;
        }
        assert(world@.slots.subrange(0, i as int) =~= world@.slots);
        let resources = capture_values(&world.resources, registry, TypeKind::Resource);
        let checksum = fold_hashes(&resources, registry, total);
        proof {
            let rt = records_hash_total(captured_records(world@.slots, reg), reg);
            let hs = sum(hashes(views(resources@), reg));
            lemma_mod_add_left(rt, hs, m);
        }
        WorldSnapshot { entities, resources, checksum }
    }
}

} // verus!
