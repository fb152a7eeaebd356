use bevy_ggrs::codec::{DecodeError, ValueFault};
use bevy_ggrs::entity::{Entity, Rollback};
use bevy_ggrs::registry::TypeRegistry;
use bevy_ggrs::snapshot::{RollbackEntity, WorldSnapshot};
use bevy_ggrs::value::Value;
use bevy_ggrs::world::World;

fn registry() -> TypeRegistry {
    let mut r = TypeRegistry::new();
    r.register_rollback_component(1, true, false);
    r.register_rollback_component(4, false, true);
    r.register_rollback_resource(10, true, false);
    r
}

#[test]
fn text_of_small_snapshot_is_exact() {
    let snapshot = WorldSnapshot {
        entities: vec![RollbackEntity {
            entity: Entity { index: 2, generation: 1 },
            rollback_id: Rollback::new(26),
            components: vec![Value::new(1, vec![255], Vec::new())],
        }],
        resources: Vec::new(),
        checksum: 0xabc,
    };
    let text = String::from_utf8(snapshot.to_text()).unwrap();
    let expected = [
        "0000000000000001",
        "00000002",
        "00000001",
        "0000001a",
        "0000000000000001",
        "0000000000000038",
        "00000001",
        "0000000000000001",
        "00000000000000ff",
        "0000000000000000",
        "0000000000000000",
        "0000000000000abc",
    ]
    .concat();
    assert_eq!(text, expected);
}

#[test]
fn text_round_trip_keeps_snapshot() {
    let reg = registry();
    let mut world = World::new();
    let b = world.spawn(Some(Rollback::new(2)), vec![Value::new(1, vec![1, 2, 3], Vec::new())]);
    world.spawn(Some(Rollback::new(1)), vec![Value::new(4, Vec::new(), vec![b])]);
    world.resources.push(Value::new(10, vec![u64::MAX], Vec::new()));
    let snapshot = WorldSnapshot::from_world(&world, &reg);
    let text = snapshot.to_text();
    let back = WorldSnapshot::from_text(&text, &reg).unwrap();
    assert_eq!(back.checksum, snapshot.checksum);
    assert_eq!(back.entities.len(), 2);
    assert_eq!(back.entities[0].entity, b);
    assert_eq!(back.entities[0].components[0].words, vec![1, 2, 3]);
    assert_eq!(back.entities[1].components[0].refs, vec![b]);
    assert_eq!(back.resources[0].words, vec![u64::MAX]);
    assert_eq!(back.to_text(), text);

    let mut fresh = World::new();
    assert_eq!(back.write_to_world(&mut fresh, &reg), Ok(()));
    assert_eq!(WorldSnapshot::from_world(&fresh, &reg).checksum, snapshot.checksum);
}

#[test]
fn malformed_text_is_refused() {
    let reg = registry();
    let snapshot = WorldSnapshot::from_world(&World::new(), &reg);
    let mut text = snapshot.to_text();
    assert!(WorldSnapshot::from_text(&text, &reg).is_ok());
    text.push(b'0');
    assert_eq!(WorldSnapshot::from_text(&text, &reg).err(), Some(DecodeError::Malformed));
    assert_eq!(WorldSnapshot::from_text(&b"zz".to_vec(), &reg).err(), Some(DecodeError::Malformed));
    assert_eq!(WorldSnapshot::from_text(&Vec::new(), &reg).err(), Some(DecodeError::Malformed));
}

#[test]
fn unregistered_type_is_refused() {
    let reg = registry();
    let mut world = World::new();
    world.resources.push(Value::new(10, vec![5], Vec::new()));
    let text = WorldSnapshot::from_world(&world, &reg).to_text();
    assert_eq!(
        WorldSnapshot::from_text(&text, &TypeRegistry::new()).err(),
        Some(DecodeError::Resource { index: 0, fault: ValueFault::Unregistered })
    );
}

#[test]
fn unregistered_component_is_named() {
    let reg = registry();
    let mut world = World::new();
    world.spawn(Some(Rollback::new(1)), vec![Value::new(1, vec![1], Vec::new())]);
    world.spawn(
        Some(Rollback::new(2)),
        vec![Value::new(1, vec![2], Vec::new()), Value::new(4, Vec::new(), Vec::new())],
    );
    let text = WorldSnapshot::from_world(&world, &reg).to_text();
    let mut narrow = TypeRegistry::new();
    narrow.register_rollback_component(1, true, false);
    assert_eq!(
        WorldSnapshot::from_text(&text, &narrow).err(),
        Some(DecodeError::Component { record: 1, index: 1, fault: ValueFault::Unregistered })
    );
}

#[test]
fn malformed_value_is_named() {
    let reg = registry();
    let mut world = World::new();
    world.spawn(
        Some(Rollback::new(1)),
        vec![Value::new(1, vec![7], Vec::new()), Value::new(4, Vec::new(), Vec::new())],
    );
    let mut text = WorldSnapshot::from_world(&world, &reg).to_text();
    // The first component's only word starts after the count (16), the record head (40),
    // the value's length (16), its type (8) and its word count (16).
    let at = 16 + 40 + 16 + 8 + 16;
    assert_eq!(text[at], b'0');
    text[at] = b'x';
    assert_eq!(
        WorldSnapshot::from_text(&text, &reg).err(),
        Some(DecodeError::Component { record: 0, index: 0, fault: ValueFault::Malformed })
    );
}
