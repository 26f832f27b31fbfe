use titan::bundle::{Bundle, BundleKind};
use titan::query::{AccessMode, Parameter, Query};
use titan::value::{ComponentValue, Scalar, ScalarShape, Shape};
use titan::registry::Registry;
use titan::serialization::{deserialize, serialize};
use titan::storage::Storage;
use titan::{ComponentKind, EcsError, ECS};

fn kind(name: &str) -> ComponentKind {
    ComponentKind(name.to_string())
}

fn num(n: u64) -> ComponentValue {
    ComponentValue::Single(Scalar::Num(n))
}

fn text(s: &str) -> ComponentValue {
    ComponentValue::Single(Scalar::Text(s.to_string()))
}

fn bundle(parts: Vec<(&str, ComponentValue)>) -> Bundle {
    Bundle {
        parts: parts.into_iter().map(|(k, v)| (kind(k), v)).collect(),
    }
}

fn query_of(params: Vec<(&str, AccessMode)>) -> Query {
    Query {
        params: params
            .into_iter()
            .map(|(k, mode)| Parameter { kind: kind(k), mode })
            .collect(),
    }
}

#[test]
fn bundle_kind_sorts_case_insensitively() {
    let kinds = vec![kind("Beta"), kind("alpha")];
    let bk = BundleKind::from_component_kinds(&kinds);
    assert_eq!(bk.0, "alphaBeta");

    let kinds = vec![kind("alpha"), kind("Beta")];
    let bk = BundleKind::from_component_kinds(&kinds);
    assert_eq!(bk.0, "alphaBeta");
}

#[test]
fn auto_spawn_ids_count_up_from_zero() {
    let mut ecs = ECS::default();
    ecs.register_component(kind("Age"), Shape::Single(ScalarShape::Num)).unwrap();
    ecs.register_archetype(vec![kind("Age")]).unwrap();
    for n in 0..4u64 {
        ecs.spawn_bundle(bundle(vec![("Age", num(n))])).unwrap();
    }
    let serial = ecs.serialize().unwrap();
    let expected = r#"[{"bundle_kind":"Age","entity_id":0,"Age":0},{"bundle_kind":"Age","entity_id":1,"Age":1},{"bundle_kind":"Age","entity_id":2,"Age":2},{"bundle_kind":"Age","entity_id":3,"Age":3}]"#;
    assert_eq!(serial, expected);
}

#[test]
fn explicit_spawn_id_never_reused() {
    let mut storage = Storage::new();
    storage
        .spawn_with_entity_id(7, bundle(vec![("Age", num(1))]))
        .unwrap();
    storage.spawn(bundle(vec![("Age", num(2))])).unwrap();
    let arch = storage.get_archetype_at(0);
    assert_eq!(arch.get_entity_id_at_index_unchecked(0), 7);
    assert_eq!(arch.get_entity_id_at_index_unchecked(1), 8);
}

#[test]
fn serialize_exact_document() {
    let mut ecs = ECS::default();
    ecs.register_component(kind("Age"), Shape::Single(ScalarShape::Num)).unwrap();
    ecs.register_component(kind("Name"), Shape::Single(ScalarShape::Text)).unwrap();
    ecs.register_archetype(vec![kind("Age"), kind("Name")]).unwrap();
    ecs.spawn_bundle(bundle(vec![("Name", text("Jeff")), ("Age", num(23))])).unwrap();
    let serial = ecs.serialize().unwrap();
    assert_eq!(
        serial,
        r#"[{"bundle_kind":"AgeName","entity_id":0,"Age":23,"Name":"Jeff"}]"#
    );
}

#[test]
fn empty_storage_serializes_to_empty_array() {
    let ecs = ECS::default();
    assert_eq!(ecs.serialize().unwrap(), "[]");
    let mut ecs_2 = ECS::default();
    ecs_2.deserialize("[]").unwrap();
    assert_eq!(ecs_2.serialize().unwrap(), "[]");
}

#[test]
fn unregistered_archetype_is_configuration_error() {
    let mut ecs = ECS::default();
    let err = ecs.register_archetype(vec![kind("Ghostly")]).unwrap_err();
    assert_eq!(err, EcsError::ConfigurationError);
}

#[test]
fn duplicate_component_registration_is_configuration_error() {
    let mut ecs = ECS::default();
    ecs.register_component(kind("Age"), Shape::Single(ScalarShape::Num)).unwrap();
    let err = ecs
        .register_component(kind("Age"), Shape::Single(ScalarShape::Num))
        .unwrap_err();
    assert_eq!(err, EcsError::ConfigurationError);
}

#[test]
fn reserved_component_name_is_configuration_error() {
    let mut ecs = ECS::default();
    let err = ecs
        .register_component(kind("bundle_kind"), Shape::Single(ScalarShape::Text))
        .unwrap_err();
    assert_eq!(err, EcsError::ConfigurationError);
}

#[test]
fn conflicting_queries_are_lock_conflicts() {
    let mut ecs = ECS::default();
    ecs.register_component(kind("Age"), Shape::Single(ScalarShape::Num)).unwrap();
    ecs.register_archetype(vec![kind("Age")]).unwrap();
    ecs.spawn_bundle(bundle(vec![("Age", num(1))])).unwrap();

    let qw = query_of(vec![("Age", AccessMode::Write)]);
    let qr = query_of(vec![("Age", AccessMode::Read)]);

    let held = ecs.query(&qw).unwrap();
    let err = ecs.query(&qr).unwrap_err();
    assert_eq!(err, EcsError::LockConflict);
    ecs.release(held);

    // Two simultaneous read passes are fine; a write during them is not.
    let first = ecs.query(&qr).unwrap();
    let second = ecs.query(&qr).unwrap();
    let err = ecs.query(&qw).unwrap_err();
    assert_eq!(err, EcsError::LockConflict);
    ecs.release(first);
    ecs.release(second);
    assert!(ecs.query(&qw).is_ok());
}

#[test]
fn malformed_documents_are_rejected() {
    let mut ecs = ECS::default();
    ecs.register_component(kind("Age"), Shape::Single(ScalarShape::Num)).unwrap();
    ecs.register_archetype(vec![kind("Age")]).unwrap();

    assert_eq!(ecs.deserialize("not json").unwrap_err(), EcsError::MalformedDocument);
    assert_eq!(ecs.deserialize("{}").unwrap_err(), EcsError::MalformedDocument);
    // A record missing its entity id.
    assert_eq!(
        ecs.deserialize(r#"[{"bundle_kind":"Age","Age":3}]"#).unwrap_err(),
        EcsError::MalformedDocument
    );
    // A component value of the wrong shape.
    assert_eq!(
        ecs.deserialize(r#"[{"bundle_kind":"Age","entity_id":0,"Age":"old"}]"#).unwrap_err(),
        EcsError::MalformedDocument
    );
    // A schema that was never registered.
    assert_eq!(
        ecs.deserialize(r#"[{"bundle_kind":"Height","entity_id":0,"Height":3}]"#).unwrap_err(),
        EcsError::ConfigurationError
    );
    // The failed calls left the storage as it was.
    assert_eq!(ecs.serialize().unwrap(), "[]");
}

#[test]
fn colliding_schema_names_are_rejected() {
    let mut ecs = ECS::default();
    ecs.register_component(kind("AB"), Shape::Single(ScalarShape::Num)).unwrap();
    ecs.register_component(kind("C"), Shape::Single(ScalarShape::Num)).unwrap();
    ecs.register_component(kind("A"), Shape::Single(ScalarShape::Num)).unwrap();
    ecs.register_component(kind("BC"), Shape::Single(ScalarShape::Num)).unwrap();
    ecs.register_archetype(vec![kind("AB"), kind("C")]).unwrap();
    // {A, BC} concatenates to the same canonical name as {AB, C}.
    let err = ecs.register_archetype(vec![kind("A"), kind("BC")]).unwrap_err();
    assert_eq!(err, EcsError::ConfigurationError);

    // Spawning the colliding bundle against the existing archetype is an
    // engine-level inconsistency.
    ecs.spawn_bundle(bundle(vec![("AB", num(1)), ("C", num(2))])).unwrap();
    let err = ecs
        .spawn_bundle(bundle(vec![("A", num(1)), ("BC", num(2))]))
        .unwrap_err();
    assert_eq!(err, EcsError::InternalInvariantViolation);
}

#[test]
fn duplicate_kind_in_bundle_is_configuration_error() {
    let mut ecs = ECS::default();
    ecs.register_component(kind("Age"), Shape::Single(ScalarShape::Num)).unwrap();
    ecs.register_archetype(vec![kind("Age")]).unwrap();
    let err = ecs
        .spawn_bundle(bundle(vec![("Age", num(1)), ("Age", num(2))]))
        .unwrap_err();
    assert_eq!(err, EcsError::ConfigurationError);
}

#[test]
fn round_trip_after_mutation() {
    let mut ecs = ECS::default();
    ecs.register_component(kind("Age"), Shape::Single(ScalarShape::Num)).unwrap();
    ecs.register_component(kind("Name"), Shape::Single(ScalarShape::Text)).unwrap();
    ecs.register_component(kind("Height"), Shape::Single(ScalarShape::Num)).unwrap();
    ecs.register_archetype(vec![kind("Age"), kind("Name")]).unwrap();
    ecs.register_archetype(vec![kind("Height"), kind("Age")]).unwrap();

    ecs.spawn_bundle(bundle(vec![("Age", num(23)), ("Name", text("Jeff"))])).unwrap();
    ecs.spawn_bundle(bundle(vec![("Age", num(19)), ("Name", text("Julia"))])).unwrap();
    ecs.spawn_bundle(bundle(vec![("Height", num(180)), ("Age", num(20))])).unwrap();

    // Query (Age, Name): exactly the two person rows, nothing of the
    // height schema.
    let q = query_of(vec![("Age", AccessMode::Write), ("Name", AccessMode::Read)]);
    let mut result = ecs.query(&q).unwrap();
    let mut row: usize = 0;
    let mut count = 0;
    while let Some(values) = result.next() {
        if let ComponentValue::Single(Scalar::Text(name)) = &values[1] {
            if name == "Julia" {
                result.write_at(0, row, num(34));
            }
        }
        count += 1;
        row += 1;
    }
    assert_eq!(count, 2);
    ecs.release(result);

    // The write is visible after release; Jeff is untouched.
    let q2 = query_of(vec![("Age", AccessMode::Read), ("Name", AccessMode::Read)]);
    let mut result = ecs.query(&q2).unwrap();
    let mut seen = Vec::new();
    while let Some(values) = result.next() {
        let age = match &values[0] {
            ComponentValue::Single(Scalar::Num(a)) => *a,
            other => panic!("unexpected age value {:?}", other),
        };
        let name = match &values[1] {
            ComponentValue::Single(Scalar::Text(n)) => n.clone(),
            other => panic!("unexpected name value {:?}", other),
        };
        seen.push((name, age));
    }
    ecs.release(result);
    assert!(seen.contains(&("Jeff".to_string(), 23)));
    assert!(seen.contains(&("Julia".to_string(), 34)));
    assert_eq!(seen.len(), 2);

    // Three records in all; the round trip is content-equal.
    let serial = ecs.serialize().unwrap();
    assert_eq!(serial.matches("bundle_kind").count(), 3);
    let mut ecs_2 = ECS::default();
    ecs_2.register_component(kind("Age"), Shape::Single(ScalarShape::Num)).unwrap();
    ecs_2.register_component(kind("Name"), Shape::Single(ScalarShape::Text)).unwrap();
    ecs_2.register_component(kind("Height"), Shape::Single(ScalarShape::Num)).unwrap();
    ecs_2.register_archetype(vec![kind("Age"), kind("Name")]).unwrap();
    ecs_2.register_archetype(vec![kind("Height"), kind("Age")]).unwrap();
    ecs_2.deserialize(&serial).unwrap();
    assert_eq!(ecs_2.serialize().unwrap(), serial);
}

#[test]
fn largest_explicit_id_round_trips() {
    let mut registry = Registry::new();
    registry
        .register_component(kind("Age"), Shape::Single(ScalarShape::Num))
        .unwrap();
    registry.register_archetype(vec![kind("Age")]).unwrap();
    let mut storage = Storage::new();
    storage
        .spawn_with_entity_id(u64::MAX - 1, bundle(vec![("Age", num(9))]))
        .unwrap();
    let serial = serialize(&storage, &registry).unwrap();
    let back = deserialize(&serial, &registry).unwrap();
    assert_eq!(serialize(&back, &registry).unwrap(), serial);
}

#[test]
fn direct_indexed_access() {
    let mut storage = Storage::new();
    storage.spawn(bundle(vec![("Age", num(5))])).unwrap();
    {
        let arch = storage.get_archetype_at(0);
        let v = arch.get_component_at_index_unchecked(&kind("Age"), 0);
        assert!(matches!(v, ComponentValue::Single(Scalar::Num(5))));
    }
    let arch = storage.archetype_at_mut(0);
    arch.set_component_at_index_unchecked(&kind("Age"), 0, num(6));
    let arch = storage.get_archetype_at(0);
    let v = arch.get_component_at_index_unchecked(&kind("Age"), 0);
    assert!(matches!(v, ComponentValue::Single(Scalar::Num(6))));
}
