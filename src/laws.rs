use vstd::prelude::*;
use vstd::seq_lib::{to_multiset_build, to_multiset_contains, to_multiset_len, to_multiset_remove};

use crate::entity::{Entity, Rollback};
use crate::registry::{Registration, TypeKind, has_kind, is_component, is_resource, maps_entities};
use crate::restore::{
    reconciled, remap_slot, remap_value, remap_values, restored, restored_slot, unmanaged,
    entity_pairs, record_index, spawned,
};
use crate::snapshot::{
    captured_records, capture, hashes, kept, lemma_total_push, records_hash_total, sum, RecordModel,
    SnapshotModel,
};
use crate::value::{ValueModel, u64_range};
use crate::restore::{first_tracked, has_duplicate_rollback, mapped, remap_entity};
use crate::world::{SlotModel, WorldModel, is_live, is_tracked, value_of_type};

verus! {

proof fn lemma_sum_remove(s: Seq<u64>, j: int)
    requires
        0 <= j < s.len(),
    ensures
        sum(s) == sum(s.remove(j)) + s[j],
    decreases s.len(),
{
    if j == s.len() - 1 {
        assert(s.remove(j) =~= s.drop_last());
    } else {
        lemma_sum_remove(s.drop_last(), j);
        assert(s.remove(j).drop_last() =~= s.drop_last().remove(j));
    }
}

/// The sum of a list of hashes does not depend on the order in which they were added.
pub proof fn lemma_sum_permutation(a: Seq<u64>, b: Seq<u64>)
    requires
        a.to_multiset() == b.to_multiset(),
    ensures
        sum(a) == sum(b),
    decreases a.len(),
{
    broadcast use vstd::multiset::group_multiset_axioms;

    to_multiset_len(a);
    to_multiset_len(b);
    if a.len() > 0 {
        let x = a.last();
        let rest = a.drop_last();
        assert(rest.push(x) =~= a);
        to_multiset_build(rest, x);
        to_multiset_contains(a, x);
        assert(a.contains(x)) by {
            assert(a[a.len() - 1] == x);
        }
        to_multiset_contains(b, x);
        let j = choose|j: int| 0 <= j < b.len() && b[j] == x;
        to_multiset_remove(b, j);
        assert(rest.to_multiset() =~= b.remove(j).to_multiset());
        lemma_sum_permutation(rest, b.remove(j));
        lemma_sum_remove(b, j);
    }
}

/// Checksum order-independence: two captures that meet the same hashable values in different
/// orders arrive at the same wrap-around checksum.
pub proof fn lemma_checksum_order_independent(a: Seq<u64>, b: Seq<u64>)
    requires
        a.to_multiset() == b.to_multiset(),
    ensures
        sum(a) % (u64_range() as int) == sum(b) % (u64_range() as int),
{
    lemma_sum_permutation(a, b);
}

proof fn lemma_lookup_unmanaged(s: Seq<ValueModel>, reg: Seq<Registration>, kind: TypeKind, t: u32)
    ensures
        value_of_type(unmanaged(s, reg, kind), t) == (if has_kind(reg, t, kind) {
            None
        } else {
            value_of_type(s, t)
        }),
    decreases s.len(),
{
    if s.len() > 0 {
        lemma_lookup_unmanaged(s.drop_last(), reg, kind, t);
        let p = unmanaged(s.drop_last(), reg, kind);
        assert(p.push(s.last()).drop_last() =~= p);
    }
}

proof fn lemma_lookup_kept(s: Seq<ValueModel>, reg: Seq<Registration>, kind: TypeKind, t: u32)
    ensures
        value_of_type(kept(s, reg, kind), t) == (if has_kind(reg, t, kind) {
            value_of_type(s, t)
        } else {
            None
        }),
    decreases s.len(),
{
    if s.len() > 0 {
        lemma_lookup_kept(s.drop_last(), reg, kind, t);
        let p = kept(s.drop_last(), reg, kind);
        assert(p.push(s.last()).drop_last() =~= p);
    }
}

proof fn lemma_lookup_concat(a: Seq<ValueModel>, b: Seq<ValueModel>, t: u32)
    ensures
        value_of_type(a + b, t) == (match value_of_type(a, t) {
            Some(v) => Some(v),
            None => value_of_type(b, t),
        }),
    decreases b.len(),
{
    if b.len() == 0 {
        assert(a + b =~= a);
    } else {
        lemma_lookup_concat(a, b.drop_last(), t);
        assert((a + b).drop_last() =~= a + b.drop_last());
    }
}

proof fn lemma_lookup_reconciled(
    live: Seq<ValueModel>,
    saved: Seq<ValueModel>,
    reg: Seq<Registration>,
    kind: TypeKind,
    t: u32,
)
    ensures
        value_of_type(reconciled(live, saved, reg, kind), t) == (if has_kind(reg, t, kind) {
            value_of_type(saved, t)
        } else {
            value_of_type(live, t)
        }),
{
    lemma_lookup_unmanaged(live, reg, kind, t);
    lemma_lookup_kept(saved, reg, kind, t);
    lemma_lookup_concat(unmanaged(live, reg, kind), kept(saved, reg, kind), t);
}

proof fn lemma_lookup_remapped(
    s: Seq<ValueModel>,
    pairs: Seq<(Entity, Entity)>,
    reg: Seq<Registration>,
    t: u32,
)
    ensures
        value_of_type(remap_values(s, pairs, reg), t) == (match value_of_type(s, t) {
            Some(v) => Some(remap_value(v, pairs, reg)),
            None => None,
        }),
    decreases s.len(),
{
    if s.len() > 0 {
        lemma_lookup_remapped(s.drop_last(), pairs, reg, t);
        assert(remap_values(s, pairs, reg).drop_last() =~= remap_values(s.drop_last(), pairs, reg));
    }
}

/// Resource reconciliation: after a restore, a registered resource type holds the snapshot's
/// value (with its references rewritten) when the snapshot has one and is absent when it does
/// not, whatever the world held before; other resources are left as they were.
pub proof fn lemma_resources_reconciled(w: WorldModel, snap: SnapshotModel, reg: Seq<Registration>, t: u32)
    ensures
        ({
            let after = restored(w, snap, reg);
            let pairs = entity_pairs(snap.entities, w.slots, reg);
            let from = if is_resource(reg, t) {
                value_of_type(snap.resources, t)
            } else {
                value_of_type(w.resources, t)
            };
            value_of_type(after.resources, t) == match from {
                Some(v) => Some(remap_value(v, pairs, reg)),
                None => None,
            }
        }),
{
    let pairs = entity_pairs(snap.entities, w.slots, reg);
    let mid = reconciled(w.resources, snap.resources, reg, TypeKind::Resource);
    lemma_lookup_reconciled(w.resources, snap.resources, reg, TypeKind::Resource, t);
    lemma_lookup_remapped(mid, pairs, reg, t);
}

/// No merge: when a tracked entity found in the snapshot already holds a component of a
/// registered type, the restored component is the snapshot's one, replaced whole (its payload,
/// of whatever length, is the snapshot's), never combined with what the entity held.
pub proof fn lemma_component_replaced(
    w: WorldModel,
    snap: SnapshotModel,
    reg: Seq<Registration>,
    i: int,
    k: int,
    t: u32,
)
    requires
        0 <= i < w.slots.len(),
        is_tracked(w.slots[i]),
        record_index(snap.entities, w.slots[i].rollback->Some_0, 0) == Some(k),
        is_component(reg, t),
    ensures
        ({
            let after = restored(w, snap, reg);
            let pairs = entity_pairs(snap.entities, w.slots, reg);
            value_of_type(after.slots[i].components, t) == match value_of_type(
                snap.entities[k].components,
                t,
            ) {
                Some(v) => Some(remap_value(v, pairs, reg)),
                None => None,
            }
        }),
{
    let recs = snap.entities;
    let pairs = entity_pairs(recs, w.slots, reg);
    let live = w.slots.map_values(|x| restored_slot(x, recs, reg));
    let all = live + spawned(recs, w.slots, reg);
    assert(all[i] == restored_slot(w.slots[i], recs, reg));
    let rs = restored_slot(w.slots[i], recs, reg);
    lemma_lookup_reconciled(w.slots[i].components, recs[k].components, reg, TypeKind::Component, t);
    lemma_lookup_remapped(rs.components, pairs, reg, t);
}

proof fn lemma_record_index(recs: Seq<RecordModel>, id: Rollback, from: int)
    requires
        0 <= from,
    ensures
        record_index(recs, id, from) matches Some(k) ==> from <= k < recs.len()
            && recs[k].rollback_id == id,
        record_index(recs, id, from) is None <==> forall|k: int|
            from <= k < recs.len() ==> #[trigger] recs[k].rollback_id != id,
    decreases recs.len() - from,
{
    if from < recs.len() {
        lemma_record_index(recs, id, from + 1);
    }
}

proof fn lemma_first_tracked(slots: Seq<SlotModel>, id: Rollback, from: int)
    requires
        0 <= from,
    ensures
        first_tracked(slots, id, from) matches Some(i) ==> from <= i < slots.len() && is_tracked(
            slots[i],
        ) && slots[i].rollback == Some(id),
    decreases slots.len() - from,
{
    if from < slots.len() {
        lemma_first_tracked(slots, id, from + 1);
    }
}

proof fn lemma_spawned_ids(recs: Seq<RecordModel>, slots: Seq<SlotModel>, reg: Seq<Registration>)
    ensures
        forall|j: int|
            0 <= j < spawned(recs, slots, reg).len() ==> exists|k: int|
                0 <= k < recs.len() && #[trigger] spawned(recs, slots, reg)[j].rollback == Some(
                    recs[k].rollback_id,
                ),
        spawned(recs, slots, reg).len() <= recs.len(),
    decreases recs.len(),
{
    if recs.len() > 0 {
        let prev = recs.drop_last();
        lemma_spawned_ids(prev, slots, reg);
        let sp = spawned(recs, slots, reg);
        assert forall|j: int| 0 <= j < sp.len() implies exists|k: int|
            0 <= k < recs.len() && #[trigger] sp[j].rollback == Some(recs[k].rollback_id) by {
            if j < spawned(prev, slots, reg).len() {
                let k = choose|k: int|
                    0 <= k < prev.len() && spawned(prev, slots, reg)[j].rollback == Some(
                        prev[k].rollback_id,
                    );
                assert(recs[k] == prev[k]);
            } else {
                assert(sp[j].rollback == Some(recs[recs.len() - 1].rollback_id));
            }
        }
    }
}

proof fn lemma_spawned_has(recs: Seq<RecordModel>, slots: Seq<SlotModel>, reg: Seq<Registration>, k: int)
    requires
        0 <= k < recs.len(),
        first_tracked(slots, recs[k].rollback_id, 0) is None,
    ensures
        exists|j: int|
            0 <= j < spawned(recs, slots, reg).len() && #[trigger] spawned(recs, slots, reg)[j].alive
                && spawned(recs, slots, reg)[j].rollback == Some(recs[k].rollback_id),
    decreases recs.len(),
{
    let sp = spawned(recs, slots, reg);
    if k == recs.len() - 1 {
        assert(sp[sp.len() - 1].alive);
    } else {
        let prev = recs.drop_last();
        assert(prev[k] == recs[k]);
        lemma_spawned_has(prev, slots, reg, k);
        let j = choose|j: int|
            0 <= j < spawned(prev, slots, reg).len() && #[trigger] spawned(prev, slots, reg)[j].alive
                && spawned(prev, slots, reg)[j].rollback == Some(prev[k].rollback_id);
        assert(sp[j] == spawned(prev, slots, reg)[j]);
    }
}

/// Id preservation: after a restore, every Rollback Id of the snapshot is carried by a live
/// entity.
pub proof fn lemma_snapshot_ids_live(w: WorldModel, snap: SnapshotModel, reg: Seq<Registration>, k: int)
    requires
        0 <= k < snap.entities.len(),
    ensures
        exists|j: int|
            0 <= j < restored(w, snap, reg).slots.len() && is_tracked(
                #[trigger] restored(w, snap, reg).slots[j],
            ) && restored(w, snap, reg).slots[j].rollback == Some(snap.entities[k].rollback_id),
{
    let recs = snap.entities;
    let id = recs[k].rollback_id;
    let after = restored(w, snap, reg);
    let live = w.slots.map_values(|x| restored_slot(x, recs, reg));
    let sp = spawned(recs, w.slots, reg);
    lemma_first_tracked(w.slots, id, 0);
    match first_tracked(w.slots, id, 0) {
        Some(i) => {
            lemma_record_index(recs, id, 0);
            assert(after.slots[i] == remap_slot((live + sp)[i], entity_pairs(recs, w.slots, reg), reg));
            assert(is_tracked(after.slots[i]));
        },
        None => {
            lemma_spawned_has(recs, w.slots, reg, k);
            let j = choose|j: int| 0 <= j < sp.len() && #[trigger] sp[j].alive && sp[j].rollback == Some(id);
            let at = w.slots.len() + j;
            assert((live + sp)[at] == sp[j]);
            assert(is_tracked(after.slots[at]));
        },
    }
}

/// Id preservation: after a restore, no live entity carries a Rollback Id that the snapshot
/// lacks; the entities that carried one before are despawned.
pub proof fn lemma_absent_ids_despawned(w: WorldModel, snap: SnapshotModel, reg: Seq<Registration>, id: Rollback)
    requires
        forall|k: int| 0 <= k < snap.entities.len() ==> #[trigger] snap.entities[k].rollback_id != id,
    ensures
        forall|j: int|
            0 <= j < restored(w, snap, reg).slots.len() ==> !(is_tracked(
                #[trigger] restored(w, snap, reg).slots[j],
            ) && restored(w, snap, reg).slots[j].rollback == Some(id)),
{
    let recs = snap.entities;
    let after = restored(w, snap, reg);
    let live = w.slots.map_values(|x| restored_slot(x, recs, reg));
    let sp = spawned(recs, w.slots, reg);
    lemma_record_index(recs, id, 0);
    lemma_spawned_ids(recs, w.slots, reg);
    assert forall|j: int| 0 <= j < after.slots.len() implies !(is_tracked(
        #[trigger] after.slots[j],
    ) && after.slots[j].rollback == Some(id)) by {
        if j < w.slots.len() {
            assert((live + sp)[j] == restored_slot(w.slots[j], recs, reg));
        } else {
            assert((live + sp)[j] == sp[j - w.slots.len()]);
            let k = choose|k: int|
                0 <= k < recs.len() && #[trigger] sp[j - w.slots.len()].rollback == Some(
                    recs[k].rollback_id,
                );
        }
    }
}

proof fn lemma_prefix_step(recs: Seq<RecordModel>, slots: Seq<SlotModel>, reg: Seq<Registration>, m: int)
    requires
        0 <= m <= recs.len(),
    ensures
        spawned(recs.subrange(0, m), slots, reg).len() <= spawned(recs, slots, reg).len(),
        forall|j: int|
            0 <= j < spawned(recs.subrange(0, m), slots, reg).len() ==> #[trigger] spawned(
                recs.subrange(0, m),
                slots,
                reg,
            )[j] == spawned(recs, slots, reg)[j],
        entity_pairs(recs, slots, reg).len() == recs.len(),
        forall|j: int|
            0 <= j < m ==> #[trigger] entity_pairs(recs.subrange(0, m), slots, reg)[j]
                == entity_pairs(recs, slots, reg)[j],
        entity_pairs(recs.subrange(0, m), slots, reg).len() == m,
    decreases recs.len(),
{
    if m == recs.len() {
        assert(recs.subrange(0, m) =~= recs);
        lemma_pairs_len(recs, slots, reg);
    } else {
        let prev = recs.drop_last();
        assert(prev.subrange(0, m) =~= recs.subrange(0, m));
        lemma_prefix_step(prev, slots, reg, m);
        lemma_pairs_len(recs, slots, reg);
    }
}

proof fn lemma_pairs_len(recs: Seq<RecordModel>, slots: Seq<SlotModel>, reg: Seq<Registration>)
    ensures
        entity_pairs(recs, slots, reg).len() == recs.len(),
        forall|k: int|
            0 <= k < recs.len() ==> (#[trigger] entity_pairs(recs, slots, reg)[k]).0 == recs[k].entity,
    decreases recs.len(),
{
    if recs.len() > 0 {
        lemma_pairs_len(recs.drop_last(), slots, reg);
        assert forall|k: int| 0 <= k < recs.len() implies (#[trigger] entity_pairs(
            recs,
            slots,
            reg,
        )[k]).0 == recs[k].entity by {
            if k < recs.len() - 1 {
                assert(recs.drop_last()[k] == recs[k]);
            }
        }
    }
}

proof fn lemma_mapped_at(pairs: Seq<(Entity, Entity)>, e: Entity, k: int)
    requires
        0 <= k < pairs.len(),
        pairs[k].0 == e,
        forall|j: int| 0 <= j < k ==> #[trigger] pairs[j].0 != e,
    ensures
        mapped(pairs, e) == Some(pairs[k].1),
    decreases k,
{
    if k > 0 {
        assert forall|j: int| 0 <= j < k - 1 implies #[trigger] pairs.drop_first()[j].0 != e by {
            assert(pairs.drop_first()[j] == pairs[j + 1]);
        }
        lemma_mapped_at(pairs.drop_first(), e, k - 1);
    }
}

/// Reference remap: when the identities captured in a snapshot are distinct, the rewrite applied
/// by a restore sends each captured identity to the live entity that now carries the same
/// Rollback Id, so a stored reference to a tracked entity resolves to its new identity.
pub proof fn lemma_reference_remapped(w: WorldModel, snap: SnapshotModel, reg: Seq<Registration>, k: int)
    requires
        0 <= k < snap.entities.len(),
        w.slots.len() + snap.entities.len() <= u32::MAX,
        forall|a: int, b: int|
            0 <= a < b < snap.entities.len() ==> #[trigger] snap.entities[a].entity
                != #[trigger] snap.entities[b].entity,
    ensures
        ({
            let after = restored(w, snap, reg);
            let n = remap_entity(entity_pairs(snap.entities, w.slots, reg), snap.entities[k].entity);
            is_live(after, n) && after.slots[n.index as int].rollback == Some(
                snap.entities[k].rollback_id,
            )
        }),
{
    let recs = snap.entities;
    let id = recs[k].rollback_id;
    let after = restored(w, snap, reg);
    let pairs = entity_pairs(recs, w.slots, reg);
    let live = w.slots.map_values(|x| restored_slot(x, recs, reg));
    let sp = spawned(recs, w.slots, reg);
    lemma_pairs_len(recs, w.slots, reg);
    assert forall|j: int| 0 <= j < k implies #[trigger] pairs[j].0 != recs[k].entity by {
        assert(recs[j].entity != recs[k].entity);
    }
    lemma_mapped_at(pairs, recs[k].entity, k);
    let upto = recs.subrange(0, k + 1);
    lemma_prefix_step(recs, w.slots, reg, k + 1);
    assert(upto.drop_last() =~= recs.subrange(0, k));
    assert(upto.last() == recs[k]);
    lemma_first_tracked(w.slots, id, 0);
    lemma_spawned_ids(recs, w.slots, reg);
    match first_tracked(w.slots, id, 0) {
        Some(i) => {
            lemma_record_index(recs, id, 0);
            assert(pairs[k] == entity_pairs(upto, w.slots, reg)[k]);
            assert(after.slots[i] == remap_slot((live + sp)[i], pairs, reg));
        },
        None => {
            let before = spawned(recs.subrange(0, k), w.slots, reg);
            let at = before.len() as int;
            assert(pairs[k] == entity_pairs(upto, w.slots, reg)[k]);
            assert(spawned(upto, w.slots, reg)[at] == sp[at]);
            let idx = (w.slots.len() + at) as int;
            assert((live + sp)[idx] == sp[at]);
            assert(after.slots[idx] == remap_slot(sp[at], pairs, reg));
        },
    }
}

proof fn lemma_kept_concat(a: Seq<ValueModel>, b: Seq<ValueModel>, reg: Seq<Registration>, kind: TypeKind)
    ensures
        kept(a + b, reg, kind) == kept(a, reg, kind) + kept(b, reg, kind),
    decreases b.len(),
{
    if b.len() == 0 {
        assert(a + b =~= a);
        assert(kept(a, reg, kind) + kept(b, reg, kind) =~= kept(a, reg, kind));
    } else {
        lemma_kept_concat(a, b.drop_last(), reg, kind);
        assert((a + b).drop_last() =~= a + b.drop_last());
        let ka = kept(a, reg, kind);
        let kb = kept(b.drop_last(), reg, kind);
        assert((ka + kb).push(b.last()) =~= ka + kb.push(b.last()));
    }
}

proof fn lemma_kept_unmanaged(s: Seq<ValueModel>, reg: Seq<Registration>, kind: TypeKind)
    ensures
        kept(unmanaged(s, reg, kind), reg, kind) == Seq::<ValueModel>::empty(),
    decreases s.len(),
{
    if s.len() > 0 {
        lemma_kept_unmanaged(s.drop_last(), reg, kind);
        let p = unmanaged(s.drop_last(), reg, kind);
        assert(p.push(s.last()).drop_last() =~= p);
    }
}

proof fn lemma_kept_twice(s: Seq<ValueModel>, reg: Seq<Registration>, kind: TypeKind)
    ensures
        kept(kept(s, reg, kind), reg, kind) == kept(s, reg, kind),
    decreases s.len(),
{
    if s.len() > 0 {
        lemma_kept_twice(s.drop_last(), reg, kind);
        let p = kept(s.drop_last(), reg, kind);
        assert(p.push(s.last()).drop_last() =~= p);
    }
}

proof fn lemma_hashes_remapped(
    s: Seq<ValueModel>,
    pairs: Seq<(Entity, Entity)>,
    reg: Seq<Registration>,
    kind: TypeKind,
)
    ensures
        hashes(kept(remap_values(s, pairs, reg), reg, kind), reg) == hashes(kept(s, reg, kind), reg),
    decreases s.len(),
{
    if s.len() > 0 {
        lemma_hashes_remapped(s.drop_last(), pairs, reg, kind);
        assert(remap_values(s, pairs, reg).drop_last() =~= remap_values(s.drop_last(), pairs, reg));
        let a = kept(remap_values(s.drop_last(), pairs, reg), reg, kind);
        let b = kept(s.drop_last(), reg, kind);
        let x = remap_value(s.last(), pairs, reg);
        assert(a.push(x).drop_last() =~= a);
        assert(b.push(s.last()).drop_last() =~= b);
    }
}

/// Capturing a reconciled and rewritten list sees the same hashes as capturing the saved one.
proof fn lemma_reconciled_hashes(
    live: Seq<ValueModel>,
    x: Seq<ValueModel>,
    pairs: Seq<(Entity, Entity)>,
    reg: Seq<Registration>,
    kind: TypeKind,
)
    ensures
        hashes(kept(remap_values(reconciled(live, kept(x, reg, kind), reg, kind), pairs, reg), reg, kind), reg)
            == hashes(kept(x, reg, kind), reg),
{
    let y = reconciled(live, kept(x, reg, kind), reg, kind);
    lemma_hashes_remapped(y, pairs, reg, kind);
    lemma_kept_concat(unmanaged(live, reg, kind), kept(kept(x, reg, kind), reg, kind), reg, kind);
    lemma_kept_unmanaged(live, reg, kind);
    lemma_kept_twice(x, reg, kind);
    lemma_kept_twice(kept(x, reg, kind), reg, kind);
    assert(Seq::<ValueModel>::empty() + kept(x, reg, kind) =~= kept(x, reg, kind));
}

proof fn lemma_first_tracked_none(slots: Seq<SlotModel>, id: Rollback, from: int, i: int)
    requires
        0 <= from <= i < slots.len(),
        is_tracked(slots[i]),
        slots[i].rollback == Some(id),
    ensures
        first_tracked(slots, id, from) is Some,
    decreases i - from,
{
    if from < i {
        lemma_first_tracked_none(slots, id, from + 1, i);
    }
}

/// Slot `i` is the tracked entity that record `r` was captured from.
pub open spec fn captured_from(slots: Seq<SlotModel>, reg: Seq<Registration>, r: RecordModel, i: int) -> bool {
    0 <= i < slots.len() && is_tracked(slots[i]) && slots[i].rollback == Some(r.rollback_id)
        && r.components == kept(slots[i].components, reg, TypeKind::Component)
}

proof fn lemma_captured_at(slots: Seq<SlotModel>, reg: Seq<Registration>, k: int)
    requires
        0 <= k < captured_records(slots, reg).len(),
    ensures
        exists|i: int| #[trigger] captured_from(slots, reg, captured_records(slots, reg)[k], i),
    decreases slots.len(),
{
    let prev = slots.drop_last();
    let recs = captured_records(slots, reg);
    let pr = captured_records(prev, reg);
    if k < pr.len() {
        lemma_captured_at(prev, reg, k);
        assert(recs[k] == pr[k]);
        let i = choose|i: int| #[trigger] captured_from(prev, reg, pr[k], i);
        assert(prev[i] == slots[i]);
        assert(captured_from(slots, reg, recs[k], i));
    } else {
        let n = slots.len() - 1;
        assert(slots[n] == slots.last());
        assert(captured_from(slots, reg, recs[k], n));
    }
}

proof fn lemma_tracked_captured(slots: Seq<SlotModel>, reg: Seq<Registration>, i: int)
    requires
        0 <= i < slots.len(),
        is_tracked(slots[i]),
    ensures
        exists|k: int|
            0 <= k < captured_records(slots, reg).len() && slots[i].rollback == Some(
                #[trigger] captured_records(slots, reg)[k].rollback_id,
            ),
    decreases slots.len(),
{
    let prev = slots.drop_last();
    let recs = captured_records(slots, reg);
    let pr = captured_records(prev, reg);
    if i < prev.len() {
        assert(prev[i] == slots[i]);
        lemma_tracked_captured(prev, reg, i);
        let k = choose|k: int| 0 <= k < pr.len() && prev[i].rollback == Some(#[trigger] pr[k].rollback_id);
        assert(recs[k] == pr[k]);
    } else {
        assert(recs[recs.len() - 1].rollback_id == slots.last().rollback->Some_0);
    }
}

proof fn lemma_same_record_hashes(s1: Seq<SlotModel>, s2: Seq<SlotModel>, reg: Seq<Registration>)
    requires
        s1.len() == s2.len(),
        forall|i: int| 0 <= i < s1.len() ==> is_tracked(#[trigger] s1[i]) == is_tracked(s2[i]),
        forall|i: int|
            0 <= i < s1.len() && is_tracked(#[trigger] s1[i]) ==> hashes(
                kept(s1[i].components, reg, TypeKind::Component),
                reg,
            ) == hashes(kept(s2[i].components, reg, TypeKind::Component), reg),
    ensures
        records_hash_total(captured_records(s1, reg), reg) == records_hash_total(
            captured_records(s2, reg),
            reg,
        ),
    decreases s1.len(),
{
    if s1.len() > 0 {
        let n = s1.len() - 1;
        assert(s1[n] == s1.last());
        assert(s2[n] == s2.last());
        assert forall|i: int| 0 <= i < n implies is_tracked(#[trigger] s1.drop_last()[i])
            == is_tracked(s2.drop_last()[i]) by {
            assert(s1.drop_last()[i] == s1[i]);
        }
        lemma_same_record_hashes(s1.drop_last(), s2.drop_last(), reg);
        let prev1 = captured_records(s1.drop_last(), reg);
        let prev2 = captured_records(s2.drop_last(), reg);
        if is_tracked(s1.last()) {
            let r1 = captured_records(s1, reg).last();
            let r2 = captured_records(s2, reg).last();
            lemma_total_push(prev1, r1, reg);
            lemma_total_push(prev2, r2, reg);
            assert(prev1.push(r1) == captured_records(s1, reg));
            assert(prev2.push(r2) == captured_records(s2, reg));
        }
    }
}

/// Round trip: writing a world's snapshot back to that world, then capturing again, gives the
/// checksum of the first capture.
#[verifier::rlimit(50)]
pub proof fn lemma_round_trip_checksum(w: WorldModel, reg: Seq<Registration>)
    requires
        !has_duplicate_rollback(w.slots),
    ensures
        capture(restored(w, capture(w, reg), reg), reg).checksum == capture(w, reg).checksum,
{
    let snap = capture(w, reg);
    let recs = snap.entities;
    let after = restored(w, snap, reg);
    let pairs = entity_pairs(recs, w.slots, reg);
    let live = w.slots.map_values(|x| restored_slot(x, recs, reg));
    // Every record's Rollback Id is live, so nothing is spawned.
    assert forall|k: int| 0 <= k < recs.len() implies id_live(w.slots, #[trigger] recs[k].rollback_id) by {
        lemma_captured_at(w.slots, reg, k);
        let i = choose|i: int| #[trigger] captured_from(w.slots, reg, recs[k], i);
        assert(0 <= i < w.slots.len() && is_tracked(w.slots[i]));
    }
    lemma_spawned_ids(recs, w.slots, reg);
    assert(spawned(recs, w.slots, reg).len() == 0) by {
        if spawned(recs, w.slots, reg).len() > 0 {
            lemma_no_spawn(recs, w.slots, reg);
        }
    }
    assert(live + spawned(recs, w.slots, reg) =~= live);
    assert forall|i: int| 0 <= i < w.slots.len() implies is_tracked(#[trigger] w.slots[i])
        == is_tracked(after.slots[i]) && (is_tracked(w.slots[i]) ==> hashes(
        kept(w.slots[i].components, reg, TypeKind::Component),
        reg,
    ) == hashes(kept(after.slots[i].components, reg, TypeKind::Component), reg)) by {
        assert(after.slots[i] == remap_slot(live[i], pairs, reg));
        if is_tracked(w.slots[i]) {
            let id = w.slots[i].rollback->Some_0;
            lemma_tracked_captured(w.slots, reg, i);
            lemma_record_index(recs, id, 0);
            let k = record_index(recs, id, 0)->Some_0;
            lemma_captured_at(w.slots, reg, k);
            let i2 = choose|i2: int| #[trigger] captured_from(w.slots, reg, recs[k], i2);
            if i2 != i {
                assert(has_duplicate_rollback(w.slots)) by {
                    if i < i2 {
                        assert(is_tracked(w.slots[i]) && is_tracked(w.slots[i2]));
                    } else {
                        assert(is_tracked(w.slots[i2]) && is_tracked(w.slots[i]));
                    }
                }
            }
            lemma_reconciled_hashes(
                w.slots[i].components,
                w.slots[i].components,
                pairs,
                reg,
                TypeKind::Component,
            );
        }
    }
    lemma_same_record_hashes(w.slots, after.slots, reg);
    lemma_reconciled_hashes(w.resources, w.resources, pairs, reg, TypeKind::Resource);
}

/// Some live entity carries the Rollback Id.
pub open spec fn id_live(slots: Seq<SlotModel>, id: Rollback) -> bool {
    exists|i: int| 0 <= i < slots.len() && is_tracked(slots[i]) && slots[i].rollback == Some(id)
}

proof fn lemma_no_spawn(recs: Seq<RecordModel>, slots: Seq<SlotModel>, reg: Seq<Registration>)
    requires
        forall|k: int| 0 <= k < recs.len() ==> id_live(slots, #[trigger] recs[k].rollback_id),
    ensures
        spawned(recs, slots, reg).len() == 0,
    decreases recs.len(),
{
    if recs.len() > 0 {
        let prev = recs.drop_last();
        assert forall|k: int| 0 <= k < prev.len() implies id_live(slots, #[trigger] prev[k].rollback_id) by {
            assert(prev[k] == recs[k]);
        }
        lemma_no_spawn(prev, slots, reg);
        let last = recs.len() - 1;
        assert(id_live(slots, recs[last].rollback_id));
        let i = choose|i: int|
            0 <= i < slots.len() && is_tracked(slots[i]) && slots[i].rollback == Some(recs[last].rollback_id);
        lemma_first_tracked_none(slots, recs[last].rollback_id, 0, i);
    }
}

/// The snapshot's records carry pairwise distinct Rollback Ids.
pub open spec fn distinct_ids(recs: Seq<RecordModel>) -> bool {
    forall|a: int, b: int|
        0 <= a < b < recs.len() ==> #[trigger] recs[a].rollback_id != #[trigger] recs[b].rollback_id
}

proof fn lemma_spawned_fresh(recs: Seq<RecordModel>, slots: Seq<SlotModel>, reg: Seq<Registration>)
    requires
        distinct_ids(recs),
    ensures
        forall|j: int|
            0 <= j < spawned(recs, slots, reg).len() ==> (#[trigger] spawned(recs, slots, reg)[j]).rollback
                is Some && first_tracked(
                slots,
                spawned(recs, slots, reg)[j].rollback->Some_0,
                0,
            ) is None && exists|k: int|
                0 <= k < recs.len() && spawned(recs, slots, reg)[j].rollback == Some(
                    recs[k].rollback_id,
                ),
        forall|a: int, b: int|
            0 <= a < b < spawned(recs, slots, reg).len() ==> (#[trigger] spawned(recs, slots, reg)[a]).rollback
                != (#[trigger] spawned(recs, slots, reg)[b]).rollback,
    decreases recs.len(),
{
    if recs.len() > 0 {
        let prev = recs.drop_last();
        assert forall|a: int, b: int| 0 <= a < b < prev.len() implies #[trigger] prev[a].rollback_id
            != #[trigger] prev[b].rollback_id by {
            assert(prev[a] == recs[a] && prev[b] == recs[b]);
        }
        lemma_spawned_fresh(prev, slots, reg);
        let sp = spawned(recs, slots, reg);
        let pp = spawned(prev, slots, reg);
        let last = recs.len() - 1;
        assert forall|j: int| 0 <= j < sp.len() implies (#[trigger] sp[j]).rollback is Some
            && first_tracked(slots, sp[j].rollback->Some_0, 0) is None && exists|k: int|
            0 <= k < recs.len() && sp[j].rollback == Some(recs[k].rollback_id) by {
            if j < pp.len() {
                assert(sp[j] == pp[j]);
                let k = choose|k: int| 0 <= k < prev.len() && pp[j].rollback == Some(prev[k].rollback_id);
                assert(recs[k] == prev[k]);
            } else {
                assert(sp[j].rollback == Some(recs[last].rollback_id));
            }
        }
        assert forall|a: int, b: int| 0 <= a < b < sp.len() implies (#[trigger] sp[a]).rollback
            != (#[trigger] sp[b]).rollback by {
            if b < pp.len() {
                assert(sp[a] == pp[a] && sp[b] == pp[b]);
            } else {
                assert(sp[a] == pp[a]);
                let k = choose|k: int| 0 <= k < prev.len() && pp[a].rollback == Some(prev[k].rollback_id);
                assert(recs[k] == prev[k]);
                assert(sp[b].rollback == Some(recs[last].rollback_id));
                assert(recs[k].rollback_id != recs[last].rollback_id);
            }
        }
    }
}

/// Id preservation, uniqueness: when the live Rollback Ids are distinct before a restore and the
/// snapshot's are distinct, no two live entities carry the same Rollback Id after it.
pub proof fn lemma_restored_ids_unique(w: WorldModel, snap: SnapshotModel, reg: Seq<Registration>)
    requires
        !has_duplicate_rollback(w.slots),
        distinct_ids(snap.entities),
    ensures
        !has_duplicate_rollback(restored(w, snap, reg).slots),
{
    let recs = snap.entities;
    let after = restored(w, snap, reg);
    let pairs = entity_pairs(recs, w.slots, reg);
    let live = w.slots.map_values(|x| restored_slot(x, recs, reg));
    let sp = spawned(recs, w.slots, reg);
    let n = w.slots.len() as int;
    lemma_spawned_fresh(recs, w.slots, reg);
    assert forall|a: int, b: int|
        0 <= a < b < after.slots.len() && is_tracked(after.slots[a]) && is_tracked(after.slots[b])
            implies after.slots[a].rollback != after.slots[b].rollback by {
        assert(after.slots[a] == remap_slot((live + sp)[a], pairs, reg));
        assert(after.slots[b] == remap_slot((live + sp)[b], pairs, reg));
        if b < n {
            assert((live + sp)[a] == restored_slot(w.slots[a], recs, reg));
            assert((live + sp)[b] == restored_slot(w.slots[b], recs, reg));
        } else if a < n {
            assert((live + sp)[a] == restored_slot(w.slots[a], recs, reg));
            assert((live + sp)[b] == sp[b - n]);
            if after.slots[a].rollback == after.slots[b].rollback {
                let id = w.slots[a].rollback->Some_0;
                lemma_first_tracked_none(w.slots, id, 0, a);
            }
        } else {
            assert((live + sp)[a] == sp[a - n]);
            assert((live + sp)[b] == sp[b - n]);
        }
    }
}

/// The slot that a record's captured identity is sent to holds, for each registered component
/// type, the record's value of that type with its references rewritten.
proof fn lemma_record_slot(w: WorldModel, snap: SnapshotModel, reg: Seq<Registration>, k: int, t: u32)
    requires
        0 <= k < snap.entities.len(),
        w.slots.len() + snap.entities.len() <= u32::MAX,
        distinct_ids(snap.entities),
        forall|a: int, b: int|
            0 <= a < b < snap.entities.len() ==> #[trigger] snap.entities[a].entity
                != #[trigger] snap.entities[b].entity,
        is_component(reg, t),
    ensures
        ({
            let after = restored(w, snap, reg);
            let pairs = entity_pairs(snap.entities, w.slots, reg);
            let n = remap_entity(pairs, snap.entities[k].entity);
            0 <= n.index < after.slots.len() && value_of_type(after.slots[n.index as int].components, t)
                == match value_of_type(snap.entities[k].components, t) {
                Some(v) => Some(remap_value(v, pairs, reg)),
                None => None,
            }
        }),
{
    let recs = snap.entities;
    let id = recs[k].rollback_id;
    let after = restored(w, snap, reg);
    let pairs = entity_pairs(recs, w.slots, reg);
    let live = w.slots.map_values(|x| restored_slot(x, recs, reg));
    let sp = spawned(recs, w.slots, reg);
    lemma_reference_remapped(w, snap, reg, k);
    lemma_pairs_len(recs, w.slots, reg);
    assert forall|j: int| 0 <= j < k implies #[trigger] pairs[j].0 != recs[k].entity by {
        assert(recs[j].entity != recs[k].entity);
    }
    lemma_mapped_at(pairs, recs[k].entity, k);
    let upto = recs.subrange(0, k + 1);
    lemma_prefix_step(recs, w.slots, reg, k + 1);
    assert(upto.drop_last() =~= recs.subrange(0, k));
    assert(upto.last() == recs[k]);
    lemma_first_tracked(w.slots, id, 0);
    match first_tracked(w.slots, id, 0) {
        Some(i) => {
            lemma_record_index(recs, id, 0);
            let k2 = record_index(recs, id, 0)->Some_0;
            if k2 != k {
                if k2 < k {
                    assert(recs[k2].rollback_id != recs[k].rollback_id);
                } else {
                    assert(recs[k].rollback_id != recs[k2].rollback_id);
                }
            }
            assert(pairs[k] == entity_pairs(upto, w.slots, reg)[k]);
            assert(entity_pairs(upto, w.slots, reg) == entity_pairs(recs.subrange(0, k), w.slots, reg).push(
                (recs[k].entity, Entity { index: i as u32, generation: w.slots[i].generation }),
            ));
            assert(remap_entity(pairs, recs[k].entity).index as int == i);
            lemma_component_replaced(w, snap, reg, i, k, t);
        },
        None => {
            let before = spawned(recs.subrange(0, k), w.slots, reg);
            let at = before.len() as int;
            assert(pairs[k] == entity_pairs(upto, w.slots, reg)[k]);
            assert(spawned(upto, w.slots, reg)[at] == sp[at]);
            let idx = (w.slots.len() + at) as int;
            assert((live + sp)[idx] == sp[at]);
            assert(after.slots[idx] == remap_slot(sp[at], pairs, reg));
            assert(spawned(upto, w.slots, reg) == before.push(
                SlotModel {
                    generation: 0,
                    alive: true,
                    rollback: Some(id),
                    components: kept(recs[k].components, reg, TypeKind::Component),
                },
            ));
            assert(sp[at].components == kept(recs[k].components, reg, TypeKind::Component));
            lemma_spawned_ids(recs.subrange(0, k), w.slots, reg);
            assert(entity_pairs(upto, w.slots, reg) == entity_pairs(recs.subrange(0, k), w.slots, reg).push(
                (recs[k].entity, Entity { index: (w.slots.len() + before.len()) as u32, generation: 0 }),
            ));
            assert(remap_entity(pairs, recs[k].entity).index as int == idx);
            lemma_lookup_kept(recs[k].components, reg, TypeKind::Component, t);
            lemma_lookup_remapped(kept(recs[k].components, reg, TypeKind::Component), pairs, reg, t);
        },
    }
}

proof fn lemma_lookup_type(s: Seq<ValueModel>, t: u32)
    ensures
        value_of_type(s, t) matches Some(v) ==> v.type_id == t,
    decreases s.len(),
{
    if s.len() > 0 {
        lemma_lookup_type(s.drop_last(), t);
    }
}

/// Reference remap: if tracked entity A's captured component of a reference-holding type refers
/// to tracked entity B, then after a restore the entity now carrying A's Rollback Id holds that
/// component with the reference pointing at the live entity now carrying B's Rollback Id.
pub proof fn lemma_reference_follows(
    w: WorldModel,
    snap: SnapshotModel,
    reg: Seq<Registration>,
    ka: int,
    kb: int,
    t: u32,
    v: ValueModel,
    q: int,
)
    requires
        0 <= ka < snap.entities.len(),
        0 <= kb < snap.entities.len(),
        w.slots.len() + snap.entities.len() <= u32::MAX,
        distinct_ids(snap.entities),
        forall|a: int, b: int|
            0 <= a < b < snap.entities.len() ==> #[trigger] snap.entities[a].entity
                != #[trigger] snap.entities[b].entity,
        is_component(reg, t),
        maps_entities(reg, t),
        value_of_type(snap.entities[ka].components, t) == Some(v),
        0 <= q < v.refs.len(),
        v.refs[q] == snap.entities[kb].entity,
    ensures
        ({
            let after = restored(w, snap, reg);
            let pairs = entity_pairs(snap.entities, w.slots, reg);
            let na = remap_entity(pairs, snap.entities[ka].entity);
            let nb = remap_entity(pairs, snap.entities[kb].entity);
            is_live(after, na) && after.slots[na.index as int].rollback == Some(
                snap.entities[ka].rollback_id,
            ) && is_live(after, nb) && after.slots[nb.index as int].rollback == Some(
                snap.entities[kb].rollback_id,
            ) && (value_of_type(after.slots[na.index as int].components, t) matches Some(u)
                && u.refs[q] == nb)
        }),
{
    lemma_reference_remapped(w, snap, reg, ka);
    lemma_reference_remapped(w, snap, reg, kb);
    lemma_record_slot(w, snap, reg, ka, t);
    let pairs = entity_pairs(snap.entities, w.slots, reg);
    lemma_lookup_type(snap.entities[ka].components, t);
    let u = remap_value(v, pairs, reg);
    assert(u.refs[q] == remap_entity(pairs, v.refs[q]));
}

} // verus!


