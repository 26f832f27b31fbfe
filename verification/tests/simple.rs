use titan::bundle::{Bundle, BundleKind};
use titan::query::{AccessMode, Parameter, Query};
use titan::registry::Registry;
use titan::serialization::{deserialize, serialize};
use titan::storage::Storage;
use titan::value::{ComponentValue, Scalar, ScalarShape, Shape};
use titan::{ComponentKind, ECS};

fn kind(name: &str) -> ComponentKind {
    ComponentKind(name.to_string())
}

fn num(n: u64) -> ComponentValue {
    ComponentValue::Single(Scalar::Num(n))
}

fn text(s: &str) -> ComponentValue {
    ComponentValue::Single(Scalar::Text(s.to_string()))
}

fn bundle(parts: Vec<(&str, ComponentValue)>) -> Bundle {
    Bundle {
        parts: parts
            .into_iter()
            .map(|(k, v)| (kind(k), v))
            .collect(),
    }
}

fn query_of(params: Vec<(&str, AccessMode)>) -> Query {
    Query {
        params: params
            .into_iter()
            .map(|(k, mode)| Parameter { kind: kind(k), mode })
            .collect(),
    }
}

fn person_shape() -> Shape {
    Shape::Fields(vec![
        ("age".to_string(), ScalarShape::Num),
        ("height".to_string(), ScalarShape::Num),
    ])
}

fn person(age: u64, height: u64) -> ComponentValue {
    ComponentValue::Fields(vec![
        ("age".to_string(), Scalar::Num(age)),
        ("height".to_string(), Scalar::Num(height)),
    ])
}

#[test]
fn basic() {
    let mut ecs = ECS::default();
    ecs.register_component(kind("Person"), person_shape()).unwrap();
    ecs.register_archetype(vec![kind("Person")]).unwrap();
    ecs.spawn_bundle(bundle(vec![("Person", person(34, 175))])).unwrap();

    let ecs_serial = ecs.serialize().unwrap();
    let mut ecs_2 = ECS::default();
    ecs_2.register_component(kind("Person"), person_shape()).unwrap();
    ecs_2.register_archetype(vec![kind("Person")]).unwrap();
    ecs_2.deserialize(&ecs_serial).unwrap();
    let ecs_2_serial = ecs_2.serialize().unwrap();

    assert_eq!(ecs_serial, ecs_2_serial);
}

#[test]
fn simple_basic() {
    let mut ecs = ECS::default();
    ecs.register_component(kind("Person"), person_shape()).unwrap();
    ecs.register_archetype(vec![kind("Person")]).unwrap();
    ecs.spawn_bundle(bundle(vec![("Person", person(34, 175))])).unwrap();

    let ecs_serial = ecs.serialize().unwrap();
    let mut ecs_2 = ECS::default();
    ecs_2.register_component(kind("Person"), person_shape()).unwrap();
    ecs_2.register_archetype(vec![kind("Person")]).unwrap();
    ecs_2.deserialize(&ecs_serial).unwrap();
    let ecs_2_serial = ecs_2.serialize().unwrap();

    assert_eq!(ecs_serial, ecs_2_serial);
}

#[test]
fn bundle_kinds() {
    let bundle_kind_a =
        bundle(vec![("Height", num(1)), ("Age", num(2)), ("Weight", num(3))]).get_bundle_kind();
    let bundle_kind_b =
        bundle(vec![("Age", num(2)), ("Weight", num(3)), ("Height", num(1))]).get_bundle_kind();

    assert_eq!(bundle_kind_a.0, bundle_kind_b.0);
}

fn spawn_people(registry: &mut Registry, storage: &mut Storage) {
    registry
        .register_component(kind("Age"), Shape::Single(ScalarShape::Num))
        .unwrap();
    registry
        .register_component(kind("Name"), Shape::Single(ScalarShape::Text))
        .unwrap();
    registry
        .register_component(
            kind("Person"),
            Shape::Fields(vec![
                ("height".to_string(), ScalarShape::Num),
                ("weight".to_string(), ScalarShape::Num),
            ]),
        )
        .unwrap();
    registry
        .register_archetype(vec![kind("Name"), kind("Age")])
        .unwrap();

    storage
        .spawn(bundle(vec![("Age", num(23)), ("Name", text("Jeff"))]))
        .unwrap();
    storage
        .spawn(bundle(vec![("Age", num(19)), ("Name", text("Julia"))]))
        .unwrap();
    storage
        .spawn(bundle(vec![("Name", text("Bob")), ("Age", num(29))]))
        .unwrap();
}

#[test]
fn master() {
    let mut registry = Registry::new();
    let mut storage = Storage::new();
    spawn_people(&mut registry, &mut storage);

    let storage_serial = serialize(&storage, &registry).unwrap();
    println!("{}", storage_serial);

    let new_storage = deserialize(&storage_serial, &registry).unwrap();
    let new_storage_serial = serialize(&new_storage, &registry).unwrap();
    println!("{}", new_storage_serial);

    assert_eq!(storage_serial, new_storage_serial);
}

#[test]
fn lib_master() {
    let mut registry = Registry::new();
    let mut storage = Storage::new();
    spawn_people(&mut registry, &mut storage);

    // Set Julia's age to 34 through a write-mode query.
    let q = query_of(vec![("Age", AccessMode::Write), ("Name", AccessMode::Read)]);
    let mut result = storage.query(&q).unwrap();
    let mut row: usize = 0;
    while let Some(values) = result.next() {
        if let ComponentValue::Single(Scalar::Text(name)) = &values[1] {
            if name == "Julia" {
                result.write_at(0, row, num(34));
            }
        }
        row += 1;
    }
    result.release(&mut storage);

    let storage_serial = serialize(&storage, &registry).unwrap();
    let new_storage = deserialize(&storage_serial, &registry).unwrap();
    let new_storage_serial = serialize(&new_storage, &registry).unwrap();
    assert_eq!(storage_serial, new_storage_serial);

    let q2 = query_of(vec![("Age", AccessMode::Read), ("Name", AccessMode::Read)]);
    let mut result = storage.query(&q2).unwrap();
    let mut seen = Vec::new();
    while let Some(values) = result.next() {
        let age = match &values[0] {
            ComponentValue::Single(Scalar::Num(a)) => *a,
            other => panic!("unexpected age value {:?}", other),
        };
        let name = match &values[1] {
            ComponentValue::Single(Scalar::Text(n)) => n.clone(),
            other => panic!("unexpected name value {:?}", other),
        };
        println!("{} is {} years old.", name, age);
        seen.push((name, age));
    }
    result.release(&mut storage);
    assert!(seen.contains(&("Jeff".to_string(), 23)));
    assert!(seen.contains(&("Julia".to_string(), 34)));
    assert!(seen.contains(&("Bob".to_string(), 29)));
    assert_eq!(seen.len(), 3);
}

#[test]
fn simple_master() {
    let mut registry = Registry::new();
    let mut storage = Storage::new();
    spawn_people(&mut registry, &mut storage);

    let q = query_of(vec![("Age", AccessMode::Write), ("Name", AccessMode::Read)]);
    let mut result = storage.query(&q).unwrap();
    let mut row: usize = 0;
    while let Some(values) = result.next() {
        if let ComponentValue::Single(Scalar::Text(name)) = &values[1] {
            if name == "Julia" {
                result.write_at(0, row, num(34));
            }
        }
        row += 1;
    }
    result.release(&mut storage);

    let storage_serial = serialize(&storage, &registry).unwrap();
    println!("{}", storage_serial);
    let new_storage = deserialize(&storage_serial, &registry).unwrap();
    let new_storage_serial = serialize(&new_storage, &registry).unwrap();
    println!("{}", new_storage_serial);
    assert_eq!(storage_serial, new_storage_serial);
}

fn fetch_single_body() {
    let mut registry = Registry::new();
    let mut storage = Storage::new();
    spawn_people(&mut registry, &mut storage);

    let q = query_of(vec![("Age", AccessMode::Write), ("Name", AccessMode::Read)]);
    let mut result = storage.query(&q).unwrap();
    let mut row: usize = 0;
    while let Some(values) = result.next() {
        println!("{:?}", (&values[0], &values[1]));
        if let ComponentValue::Single(Scalar::Num(age)) = &values[0] {
            let bumped = *age + 1;
            result.write_at(0, row, num(bumped));
        }
        row += 1;
    }
    result.release(&mut storage);

    let mut result = storage.query(&q).unwrap();
    let mut ages = Vec::new();
    while let Some(values) = result.next() {
        println!("{:?}", (&values[0], &values[1]));
        if let ComponentValue::Single(Scalar::Num(age)) = &values[0] {
            ages.push(*age);
        }
    }
    result.release(&mut storage);
    assert!(ages.contains(&24));
    assert!(ages.contains(&20));
    assert!(ages.contains(&30));
}

#[test]
fn fetch_single() {
    fetch_single_body();
}

#[test]
fn filter_fetch_single() {
    fetch_single_body();
}

#[test]
fn query_fetch_single() {
    fetch_single_body();
}

#[test]
fn simple_fetch_single() {
    fetch_single_body();
}

fn spawn_heights(ecs: &mut ECS) {
    ecs.register_component(kind("Height"), Shape::Single(ScalarShape::Num)).unwrap();
    ecs.register_component(kind("Age"), Shape::Single(ScalarShape::Num)).unwrap();
    ecs.register_component(kind("Weight"), Shape::Single(ScalarShape::Num)).unwrap();
    ecs.register_archetype(vec![kind("Age")]).unwrap();
    ecs.register_archetype(vec![kind("Height"), kind("Age")]).unwrap();
    ecs.register_archetype(vec![kind("Height"), kind("Age"), kind("Weight")]).unwrap();
    ecs.spawn_bundle(bundle(vec![("Age", num(10))])).unwrap();
    ecs.spawn_bundle(bundle(vec![("Age", num(20)), ("Height", num(180))])).unwrap();
    ecs.spawn_bundle(bundle(vec![("Age", num(30))])).unwrap();
    ecs.spawn_bundle(bundle(vec![("Age", num(40)), ("Height", num(150))])).unwrap();
    ecs.spawn_bundle(bundle(vec![("Age", num(50)), ("Height", num(160)), ("Weight", num(80))]))
        .unwrap();
}

#[test]
fn multi_archetype() {
    let mut ecs = ECS::default();
    spawn_heights(&mut ecs);

    let q = query_of(vec![("Age", AccessMode::Read), ("Height", AccessMode::Read)]);
    let mut result = ecs.query(&q).unwrap();
    assert_eq!(result.param_count(), 2);
    let mut rows = Vec::new();
    while let Some(values) = result.next() {
        rows.push(values);
    }
    println!("Result: {:?}", rows);
    ecs.release(result);
    assert_eq!(rows.len(), 3);
}

#[test]
fn filter_archetypes_simple() {
    let mut ecs = ECS::default();
    spawn_heights(&mut ecs);

    let q = query_of(vec![("Age", AccessMode::Read), ("Height", AccessMode::Read)]);
    let mut result = ecs.query(&q).unwrap();
    let mut rows = Vec::new();
    while let Some(values) = result.next() {
        let age = match &values[0] {
            ComponentValue::Single(Scalar::Num(a)) => *a,
            other => panic!("unexpected age value {:?}", other),
        };
        let height = match &values[1] {
            ComponentValue::Single(Scalar::Num(h)) => *h,
            other => panic!("unexpected height value {:?}", other),
        };
        rows.push((age, height));
    }
    ecs.release(result);

    assert!(rows.contains(&(20, 180)));
    assert!(rows.contains(&(40, 150)));
    assert!(rows.contains(&(50, 160)));
    assert_eq!(rows.len(), 3);
}

#[test]
fn can_register_simple() {
    let mut registry = Registry::new();
    registry
        .register_component(kind("Name"), Shape::Single(ScalarShape::Text))
        .unwrap();

    assert_eq!(registry.component_count(), 1);
    assert_eq!(registry.schema_count(), 0);
    assert!(registry.kind_to_capability(&kind("Name")).is_ok());
    assert!(registry.kind_to_capability(&kind("Age")).is_err());
    assert!(matches!(
        registry.kind_to_capability(&kind("Name")).unwrap(),
        Shape::Single(ScalarShape::Text)
    ));
}

#[test]
fn lib_can_register_simple() {
    let mut registry = Registry::new();
    registry
        .register_component(kind("Name"), Shape::Single(ScalarShape::Text))
        .unwrap();

    assert_eq!(registry.component_count(), 1);
    assert_eq!(registry.schema_count(), 0);
    assert!(registry.kind_to_capability(&kind("Name")).is_ok());
    assert!(registry.bundle_kind_to_capability(&BundleKind("Name".to_string())).is_err());
    assert!(registry.register_component(kind("Name"), Shape::Single(ScalarShape::Text)).is_err());
}
