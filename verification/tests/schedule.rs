use shadow::phases::{Execute, Fixed, FixedUpdate, Init, Startup, Update};
use shadow::schedule::{Phase, Placement, Root, Schedule, ScheduleId};

fn id(n: u64) -> ScheduleId {
    ScheduleId(n)
}

fn tree() -> Schedule {
    // 1 -> [2 -> [4], 3]
    let mut two = Schedule::new(id(2));
    two.add_schedule(Schedule::new(id(4)));
    let mut root = Schedule::new(id(1));
    root.add_schedule(two);
    root.add_schedule(Schedule::new(id(3)));
    root
}

#[test]
fn add_schedule_lists_sub_phases_in_order() {
    let root = tree();
    assert_eq!(root.children(), &[id(2), id(3)]);
    assert!(root.has(&id(2)));
    assert!(!root.has(&id(4)));
    assert_eq!(root.schedules()[0].children(), &[id(4)]);
}

#[test]
fn add_schedule_with_a_listed_id_replaces_it() {
    let mut root = tree();
    root.add_schedule(Schedule::new(id(2)));
    assert_eq!(root.children(), &[id(2), id(3)]);
    assert!(root.schedules()[0].children().is_empty());
}

#[test]
fn get_finds_direct_and_nested_phases() {
    let root = tree();
    assert_eq!(root.get(&id(3)).map(|s| s.id()), Some(id(3)));
    assert_eq!(root.get(&id(4)).map(|s| s.id()), Some(id(4)));
    assert!(root.get(&id(9)).is_none());
    assert!(root.get(&id(1)).is_none());
}

#[test]
fn get_mut_reaches_direct_phases_only() {
    let mut root = tree();
    assert!(root.get_mut(&id(4)).is_none());
    root.get_mut(&id(3)).unwrap().add_schedule(Schedule::new(id(5)));
    assert_eq!(root.get(&id(3)).unwrap().children(), &[id(5)]);
}

#[test]
fn place_under_a_nested_phase() {
    let mut root = tree();
    assert!(root.place_at(Schedule::new(id(6)), Placement::Under(id(4))));
    assert_eq!(root.get(&id(4)).unwrap().children(), &[id(6)]);
    assert!(root.reaches(Placement::Under(id(6))));
    assert!(!root.place_at(Schedule::new(id(7)), Placement::Under(id(8))));
    assert_eq!(root.children(), &[id(2), id(3)]);
}

#[test]
fn place_before_and_after_a_sub_phase() {
    let mut root = tree();
    assert!(root.place_at(Schedule::new(id(5)), Placement::Before(id(3))));
    assert_eq!(root.children(), &[id(2), id(5), id(3)]);
    assert!(root.place_at(Schedule::new(id(6)), Placement::After(id(4))));
    assert_eq!(root.get(&id(2)).unwrap().children(), &[id(4), id(6)]);
    assert!(!root.place_at(Schedule::new(id(7)), Placement::After(id(9))));
}

#[test]
fn phase_schedules_hold_their_steps() {
    let startup = Startup::schedule();
    assert_eq!(startup.id(), ScheduleId::new::<Startup>());
    assert_eq!(startup.children().len(), 3);
    assert!(startup.has(&ScheduleId::new::<Init>()));
    let execute = Execute::schedule();
    assert_eq!(execute.children().len(), 9);
    assert!(execute.has(&ScheduleId::new::<Fixed>()));
    assert!(execute.has(&ScheduleId::new::<Update>()));
    assert_eq!(Init::schedule().children().len(), 0);
}

#[test]
fn type_ids_tell_phases_apart() {
    assert_eq!(ScheduleId::new::<Update>(), ScheduleId::new::<Update>());
    assert_ne!(ScheduleId::new::<Update>(), ScheduleId::new::<Init>());
    assert_eq!(Root.id(), ScheduleId::new::<Root>());
}

#[test]
fn add_child_nests_a_phase_below_its_parent() {
    let mut root = Root::schedule();
    root.add_schedule(Execute::schedule());
    assert!(root.add_child::<Fixed, Update>());
    let fixed = root.get(&ScheduleId::new::<Fixed>()).unwrap();
    assert!(fixed.has(&ScheduleId::new::<Update>()));
    // The execute phase lists the fixed phase without its steps.
    assert!(!root.add_child::<FixedUpdate, Init>());
    assert!(!root.add_child::<Startup, Init>());
}

#[test]
fn insert_before_and_after_by_phase() {
    let mut root = Execute::schedule();
    assert!(root.insert_before::<Init, Update>());
    let kids = root.children();
    let update = kids.iter().position(|k| *k == ScheduleId::new::<Update>()).unwrap();
    assert_eq!(kids[update - 1], ScheduleId::new::<Init>());
    assert!(root.insert_after::<Startup, Update>());
    let kids = root.children();
    let update = kids.iter().position(|k| *k == ScheduleId::new::<Update>()).unwrap();
    assert_eq!(kids[update + 1], ScheduleId::new::<Startup>());
    assert!(!root.insert_after::<Startup, Root>());
}
