use bevy_ggrs::entity::{Entity, Rollback};
use bevy_ggrs::registry::{TypeKind, TypeRegistry};
use bevy_ggrs::restore::RestoreError;
use bevy_ggrs::snapshot::WorldSnapshot;
use bevy_ggrs::value::Value;
use bevy_ggrs::world::World;

const POSITION: u32 = 1;
const VELOCITY: u32 = 2;
const PATH: u32 = 3;
const TARGET: u32 = 4;
const SCORE: u32 = 10;
const CLOCK: u32 = 11;

fn value(type_id: u32, words: Vec<u64>) -> Value {
    Value::new(type_id, words, Vec::new())
}

fn registry() -> TypeRegistry {
    let mut r = TypeRegistry::new();
    r.register_rollback_component(POSITION, true, false);
    r.register_rollback_component(VELOCITY, true, false);
    r.register_rollback_component(PATH, true, false);
    r.register_rollback_component(TARGET, false, true);
    r.register_rollback_resource(SCORE, true, false);
    r.register_rollback_resource(CLOCK, false, false);
    r
}

fn live_by_id(world: &World, id: u32) -> Option<Entity> {
    world.entity_with_rollback(Rollback::new(id))
}

fn component(world: &World, e: Entity, type_id: u32) -> Option<Vec<u64>> {
    let slot = &world.slots[e.index as usize];
    slot.components.iter().find(|v| v.type_id == type_id).map(|v| v.words.clone())
}

fn resource(world: &World, type_id: u32) -> Option<Vec<u64>> {
    world.resources.iter().find(|v| v.type_id == type_id).map(|v| v.words.clone())
}

#[test]
fn register() {
    let mut r = TypeRegistry::new();
    r.register_type_dependency(7, true, false);
    assert_eq!(r.registrations.len(), 1);
    assert_eq!(r.registrations[0].kind, TypeKind::Dependency);
    assert!(r.kind_registered(7, TypeKind::Dependency));
    assert!(!r.component_registered(7));
    assert!(r.hash_supported(7));
}

#[test]
fn structural_hash_exact() {
    assert_eq!(value(POSITION, vec![2]).structural_hash(), 33);
    assert_eq!(value(VELOCITY, vec![5]).structural_hash(), 67);
    assert_eq!(value(POSITION, vec![]).structural_hash(), 1);
    assert_eq!(value(POSITION, vec![u64::MAX, 1]).structural_hash(), 31u64.wrapping_mul(31).wrapping_add(u64::MAX.wrapping_mul(31)).wrapping_add(1));
}

#[test]
fn scenario_restore_reproduces_checksum() {
    let reg = registry();
    let mut world = World::new();
    let e1 = world.spawn(Some(Rollback::new(1)), vec![value(POSITION, vec![1])]);
    let e2 = world.spawn(
        Some(Rollback::new(2)),
        vec![value(POSITION, vec![2]), value(VELOCITY, vec![5])],
    );
    let snapshot = WorldSnapshot::from_world(&world, &reg);
    assert_eq!(snapshot.entities.len(), 2);
    assert_eq!(snapshot.checksum, 32 + 33 + 67);
    let c = snapshot.checksum;

    world.despawn(e2);
    world.slots[e1.index as usize].components[0].words = vec![99];
    world.spawn(Some(Rollback::new(3)), vec![value(POSITION, vec![7])]);
    assert_ne!(WorldSnapshot::from_world(&world, &reg).checksum, c);

    assert_eq!(snapshot.write_to_world(&mut world, &reg), Ok(()));
    let n1 = live_by_id(&world, 1).unwrap();
    assert_eq!(component(&world, n1, POSITION), Some(vec![1]));
    let n2 = live_by_id(&world, 2).unwrap();
    assert_eq!(component(&world, n2, VELOCITY), Some(vec![5]));
    assert_eq!(component(&world, n2, POSITION), Some(vec![2]));
    assert_eq!(live_by_id(&world, 3), None);
    assert_eq!(WorldSnapshot::from_world(&world, &reg).checksum, c);
}

#[test]
fn entity_without_components_still_recorded() {
    let reg = registry();
    let mut world = World::new();
    world.spawn(Some(Rollback::new(5)), Vec::new());
    world.spawn(None, vec![value(POSITION, vec![4])]);
    let snapshot = WorldSnapshot::from_world(&world, &reg);
    assert_eq!(snapshot.entities.len(), 1);
    assert_eq!(snapshot.entities[0].components.len(), 0);
    assert_eq!(snapshot.checksum, 0);
}

#[test]
fn ids_preserved_and_absent_ids_despawned() {
    let reg = registry();
    let mut source = World::new();
    source.spawn(Some(Rollback::new(1)), Vec::new());
    source.spawn(Some(Rollback::new(2)), Vec::new());
    let snapshot = WorldSnapshot::from_world(&source, &reg);

    let mut world = World::new();
    let stray = world.spawn(Some(Rollback::new(9)), vec![value(POSITION, vec![3])]);
    let untracked = world.spawn(None, vec![value(POSITION, vec![8])]);
    assert_eq!(snapshot.write_to_world(&mut world, &reg), Ok(()));
    assert!(live_by_id(&world, 1).is_some());
    assert!(live_by_id(&world, 2).is_some());
    assert_eq!(live_by_id(&world, 9), None);
    assert_eq!(world.rollback_of(stray), None);
    assert_eq!(component(&world, untracked, POSITION), Some(vec![8]));
}

#[test]
fn sequence_component_is_replaced_not_merged() {
    let reg = registry();
    let mut world = World::new();
    let e = world.spawn(Some(Rollback::new(1)), vec![value(PATH, vec![1, 2])]);
    let snapshot = WorldSnapshot::from_world(&world, &reg);
    world.slots[e.index as usize].components[0].words = vec![4, 5, 6, 7, 8];
    assert_eq!(snapshot.write_to_world(&mut world, &reg), Ok(()));
    assert_eq!(component(&world, e, PATH), Some(vec![1, 2]));
}

#[test]
fn component_only_live_is_removed_only_saved_is_inserted() {
    let reg = registry();
    let mut world = World::new();
    let e = world.spawn(Some(Rollback::new(1)), vec![value(POSITION, vec![1]), value(77, vec![3])]);
    let snapshot = WorldSnapshot::from_world(&world, &reg);
    world.slots[e.index as usize].components = vec![value(VELOCITY, vec![9]), value(77, vec![4])];
    assert_eq!(snapshot.write_to_world(&mut world, &reg), Ok(()));
    assert_eq!(component(&world, e, POSITION), Some(vec![1]));
    assert_eq!(component(&world, e, VELOCITY), None);
    assert_eq!(component(&world, e, 77), Some(vec![4]));
}

#[test]
fn resources_reconciled() {
    let reg = registry();
    let mut world = World::new();
    world.resources.push(value(SCORE, vec![3]));
    let snapshot = WorldSnapshot::from_world(&world, &reg);
    assert_eq!(snapshot.checksum, 10 * 31 + 3);

    world.resources = vec![value(SCORE, vec![40]), value(CLOCK, vec![12]), value(99, vec![1])];
    assert_eq!(snapshot.write_to_world(&mut world, &reg), Ok(()));
    assert_eq!(resource(&world, SCORE), Some(vec![3]));
    assert_eq!(resource(&world, CLOCK), None);
    assert_eq!(resource(&world, 99), Some(vec![1]));

    let mut empty = World::new();
    assert_eq!(snapshot.write_to_world(&mut empty, &reg), Ok(()));
    assert_eq!(resource(&empty, SCORE), Some(vec![3]));
}

#[test]
fn references_follow_recreated_entities() {
    let reg = registry();
    let mut source = World::new();
    let b = source.spawn(Some(Rollback::new(2)), vec![value(POSITION, vec![1])]);
    source.spawn(Some(Rollback::new(1)), vec![Value::new(TARGET, Vec::new(), vec![b])]);
    let snapshot = WorldSnapshot::from_world(&source, &reg);

    let mut world = World::new();
    world.spawn(None, Vec::new());
    world.spawn(None, Vec::new());
    world.spawn(None, Vec::new());
    assert_eq!(snapshot.write_to_world(&mut world, &reg), Ok(()));
    let new_a = live_by_id(&world, 1).unwrap();
    let new_b = live_by_id(&world, 2).unwrap();
    assert_ne!(new_b, b);
    let target = world.slots[new_a.index as usize].components.iter().find(|v| v.type_id == TARGET).unwrap();
    assert_eq!(target.refs, vec![new_b]);
}

#[test]
fn duplicate_rollback_id_is_refused() {
    let reg = registry();
    let mut world = World::new();
    world.spawn(Some(Rollback::new(4)), vec![value(POSITION, vec![1])]);
    world.spawn(Some(Rollback::new(4)), vec![value(POSITION, vec![2])]);
    let snapshot = WorldSnapshot::from_world(&World::new(), &reg);
    assert_eq!(
        snapshot.write_to_world(&mut world, &reg),
        Err(RestoreError::DuplicateRollbackId)
    );
    assert_eq!(world.slots.len(), 2);
    assert!(world.slots[1].alive);
}

#[test]
fn checksum_ignores_capture_order() {
    let reg = registry();
    let mut a = World::new();
    a.spawn(Some(Rollback::new(1)), vec![value(POSITION, vec![1]), value(VELOCITY, vec![2])]);
    a.spawn(Some(Rollback::new(2)), vec![value(POSITION, vec![3])]);
    let mut b = World::new();
    b.spawn(Some(Rollback::new(2)), vec![value(POSITION, vec![3])]);
    b.spawn(Some(Rollback::new(1)), vec![value(VELOCITY, vec![2]), value(POSITION, vec![1])]);
    let sa = WorldSnapshot::from_world(&a, &reg);
    let sb = WorldSnapshot::from_world(&b, &reg);
    assert_eq!(sa.checksum, sb.checksum);
}

#[test]
fn unhashable_values_do_not_count() {
    let reg = registry();
    let mut world = World::new();
    world.resources.push(value(CLOCK, vec![12]));
    world.spawn(Some(Rollback::new(1)), vec![Value::new(TARGET, vec![5], Vec::new())]);
    assert_eq!(WorldSnapshot::from_world(&world, &reg).checksum, 0);
}
