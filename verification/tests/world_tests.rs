use mini_ecs::component::{Component, ComponentBundle, KindId};
use mini_ecs::world::World;

const AGE: KindId = 1;
const HEIGHT: KindId = 2;
const WEIGHT: KindId = 3;

#[derive(Clone, Copy, PartialEq, Debug)]
enum Value {
    Age(u32),
    Height(f32),
    Weight(f32),
}

impl Component for Value {}

#[test]
fn spawn_read_after_write() {
    let mut w: World<Value> = World::new();
    let e = w.spawn(
        ComponentBundle::new()
            .with(AGE, Value::Age(45))
            .with(HEIGHT, Value::Height(170.0)),
    );
    assert_eq!(w.get_component(e, AGE), Some(&Value::Age(45)));
    assert_eq!(w.get_component(e, HEIGHT), Some(&Value::Height(170.0)));
    assert_eq!(w.get_component(e, WEIGHT), None);
    assert_eq!(w.get_component(99, AGE), None);
}

#[test]
fn spawn_routes_permuted_bundles_to_one_archetype() {
    let mut w: World<Value> = World::new();
    let e0 = w.spawn(
        ComponentBundle::new()
            .with(AGE, Value::Age(45))
            .with(HEIGHT, Value::Height(170.0)),
    );
    let e1 = w.spawn(
        ComponentBundle::new()
            .with(HEIGHT, Value::Height(180.0))
            .with(AGE, Value::Age(70)),
    );
    assert_eq!(w.archetype_count(), 1);
    let e2 = w.spawn(
        ComponentBundle::new()
            .with(AGE, Value::Age(30))
            .with(HEIGHT, Value::Height(160.0))
            .with(WEIGHT, Value::Weight(60.0)),
    );
    assert_eq!(w.archetype_count(), 2);
    assert_eq!((e0, e1, e2), (0, 1, 2));
    let shared = w.archetype_at(0);
    assert_eq!(shared.entity_ids().len(), 2);
    assert_eq!(shared.entity_ids()[0], e0);
    assert_eq!(shared.entity_ids()[1], e1);
    assert_eq!(w.archetype_at(1).entity_ids().len(), 1);
    assert_eq!(w.get_component(e1, AGE), Some(&Value::Age(70)));
    assert_eq!(w.get_component(e2, WEIGHT), Some(&Value::Weight(60.0)));
}

#[test]
fn entities_are_dense_and_ascending() {
    let mut w: World<Value> = World::new();
    assert_eq!(w.entities(), Vec::<u32>::new());
    for i in 0..3u32 {
        let e = w.spawn(ComponentBundle::new().with(AGE, Value::Age(i)));
        assert_eq!(e, i);
    }
    assert_eq!(w.entities(), vec![0, 1, 2]);
}

#[test]
fn set_component_overwrites_only_its_target() {
    let mut w: World<Value> = World::new();
    let e0 = w.spawn(
        ComponentBundle::new()
            .with(AGE, Value::Age(45))
            .with(WEIGHT, Value::Weight(75.0)),
    );
    let e1 = w.spawn(
        ComponentBundle::new()
            .with(AGE, Value::Age(70))
            .with(WEIGHT, Value::Weight(90.0)),
    );
    assert!(w.set_component(e0, AGE, Value::Age(46)));
    assert_eq!(w.get_component(e0, AGE), Some(&Value::Age(46)));
    assert_eq!(w.get_component(e0, WEIGHT), Some(&Value::Weight(75.0)));
    assert_eq!(w.get_component(e1, AGE), Some(&Value::Age(70)));
    assert_eq!(w.get_component(e1, WEIGHT), Some(&Value::Weight(90.0)));
    // a kind outside the entity's bundle is not writable: no migration
    assert!(!w.set_component(e0, HEIGHT, Value::Height(170.0)));
    assert_eq!(w.get_component(e0, HEIGHT), None);
    // unknown entity
    assert!(!w.set_component(99, AGE, Value::Age(1)));
}

#[test]
fn spawn_with_empty_bundle() {
    let mut w: World<Value> = World::new();
    let e = w.spawn(ComponentBundle::new());
    assert_eq!(e, 0);
    assert_eq!(w.entities(), vec![0]);
    assert_eq!(w.archetype_count(), 1);
    assert_eq!(w.get_component(e, AGE), None);
}
