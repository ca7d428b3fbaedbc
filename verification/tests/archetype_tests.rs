use mini_ecs::archetype::{Archetype, ArchetypeId};
use mini_ecs::component::{Component, ComponentBundle, KindId};
use mini_ecs::entity::ComponentStorage;

const AGE: KindId = 1;
const HEIGHT: KindId = 2;
const WEIGHT: KindId = 3;

#[derive(Clone, Copy, PartialEq, Debug)]
enum Value {
    Age(u32),
    Height(f32),
    Weight(f32),
}

impl Component for Value {}

#[test]
fn identity_order_independent() {
    let a = ArchetypeId::from_slice(&[AGE, HEIGHT, WEIGHT]);
    let b = ArchetypeId::from_slice(&[WEIGHT, AGE, HEIGHT]);
    let c = ArchetypeId::from_slice(&[HEIGHT, WEIGHT, AGE]);
    assert!(a == b);
    assert!(b == c);
}

#[test]
fn identity_ignores_duplicates() {
    let a = ArchetypeId::from_slice(&[AGE, HEIGHT, AGE, HEIGHT, AGE]);
    let b = ArchetypeId::from_slice(&[HEIGHT, AGE]);
    assert!(a == b);
}

#[test]
fn identity_distinguishes_kind_sets() {
    let a = ArchetypeId::from_slice(&[AGE, HEIGHT]);
    let b = ArchetypeId::from_slice(&[AGE, HEIGHT, WEIGHT]);
    let c = ArchetypeId::from_slice(&[AGE, WEIGHT]);
    assert!(a != b);
    assert!(a != c);
    assert!(b != c);
}

#[test]
fn identity_of_empty_set() {
    let a = ArchetypeId::new();
    let b = ArchetypeId::from_slice(&[]);
    assert!(a == b);
    assert!(a != ArchetypeId::from_slice(&[AGE]));
}

#[test]
fn archetype_register_is_idempotent() {
    let mut arch: Archetype<Value> = Archetype::new();
    assert!(!arch.contains(AGE));
    arch.register(AGE);
    assert!(arch.contains(AGE));
    arch.register(AGE);
    assert!(arch.contains(AGE));
    assert!(!arch.contains(HEIGHT));
    arch.register(HEIGHT);
    assert!(arch.contains(HEIGHT));
    let col = arch.get(AGE).expect("registered column");
    assert_eq!(col.len(), 0);
    assert!(arch.get(WEIGHT).is_none());
}

#[test]
fn bundle_appends_aligned_rows() {
    let mut arch: Archetype<Value> = Archetype::new();
    let b0 = ComponentBundle::new()
        .with(AGE, Value::Age(45))
        .with(HEIGHT, Value::Height(170.0));
    b0.register(&mut arch);
    b0.insert_into(&mut arch, 0);
    let b1 = ComponentBundle::new()
        .with(HEIGHT, Value::Height(180.0))
        .with(AGE, Value::Age(70));
    b1.register(&mut arch);
    b1.insert_into(&mut arch, 1);

    assert_eq!(arch.entity_ids().len(), 2);
    assert_eq!(arch.entity_ids()[0], 0);
    assert_eq!(arch.entity_ids()[1], 1);
    let ages = arch.get(AGE).expect("age column");
    let heights = arch.get(HEIGHT).expect("height column");
    assert_eq!(ages.len(), 2);
    assert_eq!(heights.len(), 2);
    assert_eq!(ages[0], Value::Age(45));
    assert_eq!(ages[1], Value::Age(70));
    assert_eq!(heights[0], Value::Height(170.0));
    assert_eq!(heights[1], Value::Height(180.0));
}

#[test]
fn archetype_get_mut_overwrites_in_place() {
    let mut arch: Archetype<Value> = Archetype::new();
    let b = ComponentBundle::new().with(AGE, Value::Age(45));
    b.register(&mut arch);
    b.insert_into(&mut arch, 0);
    {
        let col = arch.get_mut(AGE).expect("age column");
        col[0] = Value::Age(46);
    }
    assert!(arch.get_mut(HEIGHT).is_none());
    let col = arch.get(AGE).expect("age column");
    assert_eq!(col[0], Value::Age(46));
}

#[test]
fn bundle_type_ids_keep_order() {
    let b: ComponentBundle<Value> = ComponentBundle::new()
        .with(WEIGHT, Value::Weight(75.0))
        .with(AGE, Value::Age(45));
    assert_eq!(b.type_ids(), vec![WEIGHT, AGE]);
}

#[test]
fn storage_insert_get_replace() {
    let mut s: ComponentStorage<Value> = ComponentStorage::new();
    assert!(s.get(AGE).is_none());
    s.insert(AGE, Value::Age(4));
    assert_eq!(s.get(AGE), Some(&Value::Age(4)));
    s.insert(AGE, Value::Age(7));
    assert_eq!(s.get(AGE), Some(&Value::Age(7)));
    s.insert(HEIGHT, Value::Height(170.0));
    assert_eq!(s.get(AGE), Some(&Value::Age(7)));
    assert_eq!(s.get(HEIGHT), Some(&Value::Height(170.0)));
    assert!(s.get(WEIGHT).is_none());
}

#[test]
fn storage_get_mut_writes_through() {
    let mut s: ComponentStorage<Value> = ComponentStorage::new();
    s.insert(AGE, Value::Age(4));
    {
        let v = s.get_mut(AGE).expect("stored component");
        *v = Value::Age(99);
    }
    assert!(s.get_mut(WEIGHT).is_none());
    assert_eq!(s.get(AGE), Some(&Value::Age(99)));
}
