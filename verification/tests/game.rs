use shadow::game::phases::{
    End, Execute, Fixed, FixedUpdate, Init, Main, PostFixedUpdate, PreFixedUpdate, PreUpdate,
    Shutdown, Start, Update,
};
use shadow::game::{ErasedPhase, MainSchedule, Phase, PhaseType, Schedule};

#[test]
fn main_schedule_starts_executes_and_shuts_down() {
    let main = MainSchedule::new();
    let schedule = main.schedule();
    assert!(schedule.has(PhaseType::new::<Init>()));
    assert!(schedule.has(PhaseType::new::<Execute>()));
    assert!(schedule.has(PhaseType::new::<Shutdown>()));
    assert!(!schedule.has(PhaseType::new::<Start>()));

    let execute = schedule.get::<Execute>().unwrap();
    assert!(execute.ty() == PhaseType::new::<Execute>());
    let inner = execute.schedule();
    assert!(inner.has(PhaseType::new::<Start>()));
    assert!(inner.has(PhaseType::new::<Main>()));
    assert!(inner.has(PhaseType::new::<End>()));
    assert!(!inner.has(PhaseType::new::<Init>()));
}

#[test]
fn phase_types_tell_phases_apart() {
    assert!(PhaseType::new::<Init>() == PhaseType::new::<Init>());
    assert!(PhaseType::new::<Init>() != PhaseType::new::<Shutdown>());
    assert!(Init.ty() == PhaseType::new::<Init>());
}

#[test]
fn fixed_runs_its_three_updates() {
    let fixed = ErasedPhase::new::<Fixed>();
    let schedule = fixed.schedule();
    assert!(schedule.has(PhaseType::new::<PreFixedUpdate>()));
    assert!(schedule.has(PhaseType::new::<FixedUpdate>()));
    assert!(schedule.has(PhaseType::new::<PostFixedUpdate>()));
    assert!(!schedule.has(PhaseType::new::<Update>()));
}

#[test]
fn main_phase_holds_the_updates_and_fixed() {
    let phase = ErasedPhase::new::<Main>();
    let schedule = phase.schedule();
    assert!(schedule.has(PhaseType::new::<PreUpdate>()));
    assert!(schedule.has(PhaseType::new::<Update>()));
    assert!(schedule.has(PhaseType::new::<Fixed>()));
    let fixed = schedule.get::<Fixed>().unwrap();
    assert!(fixed.schedule().has(PhaseType::new::<FixedUpdate>()));
}

#[test]
fn add_phase_lists_a_new_phase() {
    let mut schedule = Schedule::new();
    assert!(!schedule.has(PhaseType::new::<Update>()));
    schedule.add_phase::<Update>();
    assert!(schedule.has(PhaseType::new::<Update>()));
    assert!(schedule.get::<Update>().is_some());
    assert!(schedule.get::<Init>().is_none());
}

#[test]
fn add_phase_on_main_schedule_keeps_the_others() {
    let mut main = MainSchedule::new();
    main.add_phase::<Update>();
    assert!(main.schedule().has(PhaseType::new::<Update>()));
    assert!(main.schedule().has(PhaseType::new::<Init>()));
    assert!(main.schedule().has(PhaseType::new::<Execute>()));
}

#[test]
fn insert_reaches_a_nested_phase() {
    let mut main = MainSchedule::new();
    assert!(main.insert_before::<End, Start>());
    assert!(main.insert_after::<Start, End>());
    let inner = main.schedule().get::<Execute>().unwrap().schedule();
    assert!(inner.has(PhaseType::new::<Start>()));
    assert!(inner.has(PhaseType::new::<End>()));
    assert!(!main.schedule().has(PhaseType::new::<Start>()));
}

struct Pause;

impl Phase for Pause {}

#[test]
fn insert_of_an_unlisted_phase_is_refused() {
    let mut main = MainSchedule::new();
    assert!(!main.insert_before::<Pause, Init>());
    assert!(!main.insert_after::<Pause, Init>());
    assert!(!main.schedule().has(PhaseType::new::<Pause>()));
}

#[test]
fn insert_reaches_two_levels_down() {
    let mut main = MainSchedule::new();
    assert!(main.insert_before::<Update, PreUpdate>());
    assert!(main.insert_after::<FixedUpdate, PostFixedUpdate>());
    assert!(!main.schedule().has(PhaseType::new::<Update>()));
}

#[test]
fn insert_at_top_level_keeps_the_phase() {
    let mut schedule = Schedule::new();
    schedule.add_phase::<Init>();
    schedule.add_phase::<Shutdown>();
    assert!(schedule.insert_before::<Shutdown, Init>());
    assert!(schedule.has(PhaseType::new::<Shutdown>()));
    assert!(schedule.has(PhaseType::new::<Init>()));
    let mut phase = ErasedPhase::new::<Execute>();
    phase.add_phase::<Start>();
    assert!(phase.insert_after::<Start, End>());
    assert!(!phase.insert_before::<Update, Start>());
}
