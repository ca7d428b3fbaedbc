use mini_ecs::app::{App, Schedule, System};
use mini_ecs::component::{Component, ComponentBundle, KindId};
use mini_ecs::world::World;

const AGE: KindId = 1;
const HEIGHT: KindId = 2;
const WEIGHT: KindId = 3;
const BMI: KindId = 4;
const BLOOD_PRESSURE: KindId = 5;
const RISK: KindId = 6;
const COUNT_PRE: KindId = 7;
const COUNT_UPDATE: KindId = 8;
const COUNT_POST: KindId = 9;

const RISK_LOW: u32 = 0;
const RISK_MODERATE: u32 = 1;
const RISK_HIGH: u32 = 2;

#[derive(Clone, Copy, PartialEq, Debug)]
enum Value {
    Age(u32),
    Height(f32),
    Weight(f32),
    Bmi(f32),
    BloodPressure(u32, u32),
    Risk(u32),
    Count(u32),
}

impl Component for Value {}

fn weight_of(w: &World<Value>, e: u32) -> f32 {
    match w.get_component(e, WEIGHT) {
        Some(Value::Weight(x)) => *x,
        _ => panic!("weight missing"),
    }
}

fn bmi_of(w: &World<Value>, e: u32) -> f32 {
    match w.get_component(e, BMI) {
        Some(Value::Bmi(x)) => *x,
        _ => panic!("bmi missing"),
    }
}

fn risk_of(w: &World<Value>, e: u32) -> u32 {
    match w.get_component(e, RISK) {
        Some(Value::Risk(x)) => *x,
        _ => panic!("risk missing"),
    }
}

fn count_of(w: &World<Value>, e: u32, kind: KindId) -> u32 {
    match w.get_component(e, kind) {
        Some(Value::Count(x)) => *x,
        _ => panic!("counter missing"),
    }
}

/// The medical-checkup systems: BMI once at startup, risk classification and
/// weight gain every update cycle.
#[derive(Clone, Copy, PartialEq, Debug)]
enum CheckupSystem {
    Setup,
    ComputeBmi,
    ClassifyRisk,
    GainWeight,
    ReadBack,
}

impl System<Value> for CheckupSystem {
    fn run(&self, world: &mut World<Value>) {
        match self {
            CheckupSystem::Setup => {
                // The kind set is fixed at spawn: columns written later must
                // already be in the bundle (no archetype migration).
                world.spawn(
                    ComponentBundle::new()
                        .with(AGE, Value::Age(45))
                        .with(HEIGHT, Value::Height(170.0))
                        .with(WEIGHT, Value::Weight(75.0))
                        .with(BLOOD_PRESSURE, Value::BloodPressure(130, 85))
                        .with(BMI, Value::Bmi(0.0))
                        .with(RISK, Value::Risk(RISK_LOW)),
                );
                world.spawn(
                    ComponentBundle::new()
                        .with(AGE, Value::Age(70))
                        .with(HEIGHT, Value::Height(180.0))
                        .with(WEIGHT, Value::Weight(90.0))
                        .with(BLOOD_PRESSURE, Value::BloodPressure(150, 95))
                        .with(BMI, Value::Bmi(0.0))
                        .with(RISK, Value::Risk(RISK_LOW)),
                );
            }
            CheckupSystem::ComputeBmi => {
                for e in world.entities() {
                    let hw = match (world.get_component(e, HEIGHT), world.get_component(e, WEIGHT))
                    {
                        (Some(Value::Height(h)), Some(Value::Weight(w))) => Some((*h, *w)),
                        _ => None,
                    };
                    if let Some((h, w)) = hw {
                        let h_m = h / 100.0;
                        world.set_component(e, BMI, Value::Bmi(w / (h_m * h_m)));
                    }
                }
            }
            CheckupSystem::ClassifyRisk => {
                for e in world.entities() {
                    let ba = match (
                        world.get_component(e, BLOOD_PRESSURE),
                        world.get_component(e, AGE),
                    ) {
                        (Some(Value::BloodPressure(sys, dia)), Some(Value::Age(a))) => {
                            Some((*sys, *dia, *a))
                        }
                        _ => None,
                    };
                    if let Some((sys, dia, a)) = ba {
                        let risk = if sys >= 140 || dia >= 90 {
                            if a >= 60 {
                                RISK_HIGH
                            } else {
                                RISK_MODERATE
                            }
                        } else {
                            RISK_LOW
                        };
                        world.set_component(e, RISK, Value::Risk(risk));
                    }
                }
            }
            CheckupSystem::GainWeight => {
                for e in world.entities() {
                    let w = match world.get_component(e, WEIGHT) {
                        Some(Value::Weight(x)) => Some(*x),
                        _ => None,
                    };
                    if let Some(x) = w {
                        world.set_component(e, WEIGHT, Value::Weight(x + 1.0));
                    }
                }
            }
            CheckupSystem::ReadBack => {
                for e in world.entities() {
                    let _ = world.get_component(e, BMI);
                    let _ = world.get_component(e, RISK);
                }
            }
        }
    }
}

/// Counters that tell the phases apart.
#[derive(Clone, Copy, PartialEq, Debug)]
enum CountSystem {
    SpawnCounters,
    BumpPre,
    BumpUpdate,
    BumpPost,
}

fn bump(world: &mut World<Value>, kind: KindId) {
    let cur = match world.get_component(0, kind) {
        Some(Value::Count(x)) => Some(*x),
        _ => None,
    };
    if let Some(x) = cur {
        world.set_component(0, kind, Value::Count(x + 1));
    }
}

impl System<Value> for CountSystem {
    fn run(&self, world: &mut World<Value>) {
        match self {
            CountSystem::SpawnCounters => {
                world.spawn(
                    ComponentBundle::new()
                        .with(COUNT_PRE, Value::Count(0))
                        .with(COUNT_UPDATE, Value::Count(0))
                        .with(COUNT_POST, Value::Count(0)),
                );
            }
            CountSystem::BumpPre => bump(world, COUNT_PRE),
            CountSystem::BumpUpdate => bump(world, COUNT_UPDATE),
            CountSystem::BumpPost => bump(world, COUNT_POST),
        }
    }
}

fn counting_app() -> App<Value, CountSystem> {
    App::new()
        .add_system(Schedule::Startup, CountSystem::SpawnCounters)
        .add_system(Schedule::PreUpdate, CountSystem::BumpPre)
        .add_system(Schedule::Update, CountSystem::BumpUpdate)
        .add_system(Schedule::PostUpdate, CountSystem::BumpPost)
}

#[test]
fn run_zero_executes_startup_only() {
    let mut app = counting_app();
    let _ = app.run(0);
    let w = app.world();
    assert_eq!(w.entities(), vec![0]);
    assert_eq!(count_of(w, 0, COUNT_PRE), 0);
    assert_eq!(count_of(w, 0, COUNT_UPDATE), 0);
    assert_eq!(count_of(w, 0, COUNT_POST), 0);
}

#[test]
fn run_five_executes_each_phase_five_times() {
    let mut app = counting_app();
    let _ = app.run(5);
    let w = app.world();
    assert_eq!(w.entities(), vec![0]);
    assert_eq!(count_of(w, 0, COUNT_PRE), 5);
    assert_eq!(count_of(w, 0, COUNT_UPDATE), 5);
    assert_eq!(count_of(w, 0, COUNT_POST), 5);
}

#[test]
fn phase_ordering_end_to_end() {
    // BMI written once at Startup; risk and weight gain in Update.
    let build = || {
        App::new()
            .add_system(Schedule::Startup, CheckupSystem::Setup)
            .add_system(Schedule::Startup, CheckupSystem::ComputeBmi)
            .add_system(Schedule::Update, CheckupSystem::ClassifyRisk)
            .add_system(Schedule::Update, CheckupSystem::GainWeight)
            .add_system(Schedule::Update, CheckupSystem::ReadBack)
    };
    let bmi0 = 75.0 / (1.7f32 * 1.7f32);
    let bmi1 = 90.0 / (1.8f32 * 1.8f32);

    let mut one = build();
    let _ = one.run(1);
    {
        let w = one.world();
        assert_eq!(w.entities(), vec![0, 1]);
        assert_eq!(bmi_of(w, 0), bmi0);
        assert_eq!(bmi_of(w, 1), bmi1);
        assert_eq!(risk_of(w, 0), RISK_LOW);
        assert_eq!(risk_of(w, 1), RISK_HIGH);
        assert_eq!(weight_of(w, 0), 76.0);
        assert_eq!(weight_of(w, 1), 91.0);
    }

    let mut three = build();
    let _ = three.run(3);
    {
        let w = three.world();
        // weight grew by exactly one unit per cycle
        assert_eq!(weight_of(w, 0), 78.0);
        assert_eq!(weight_of(w, 1), 93.0);
        // BMI is never recomputed after Startup, even though weight changed
        assert_eq!(bmi_of(w, 0), bmi0);
        assert_eq!(bmi_of(w, 1), bmi1);
        assert_eq!(risk_of(w, 0), RISK_LOW);
        assert_eq!(risk_of(w, 1), RISK_HIGH);
    }
}

#[test]
fn world_mut_wires_state_before_a_run() {
    let mut app: App<Value, CountSystem> = App::new()
        .add_system(Schedule::Update, CountSystem::BumpUpdate);
    app.world_mut()
        .spawn(ComponentBundle::new().with(COUNT_UPDATE, Value::Count(10)));
    let _ = app.run(2);
    assert_eq!(count_of(app.world(), 0, COUNT_UPDATE), 12);
}

#[test]
fn startup_reruns_on_each_run_call() {
    // each call of run executes the Startup list once more
    let mut app = counting_app();
    let _ = app.run(1);
    let _ = app.run(1);
    let w = app.world();
    assert_eq!(w.entities(), vec![0, 1]);
    assert_eq!(count_of(w, 0, COUNT_UPDATE), 2);
}
