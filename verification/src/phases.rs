use crate::key::Key;
use crate::schedule::{Phase, Schedule, ScheduleId};
use vstd::prelude::*;

verus! {

/// The phase that runs once at the start, with its initialisation steps.
pub struct Startup;

impl Phase for Startup {
    fn schedule() -> (r: Schedule)
        ensures
            exists|a: ScheduleId, b: ScheduleId, c: ScheduleId|
                #![trigger r.order().has(a), r.order().has(b), r.order().has(c)]
                {
                    &&& call_ensures(ScheduleId::new::<PreInit>, (), a)
                    &&& call_ensures(ScheduleId::new::<Init>, (), b)
                    &&& call_ensures(ScheduleId::new::<PostInit>, (), c)
                    &&& r.order().has(a)
                    &&& r.order().has(b)
                    &&& r.order().has(c)
                    &&& a != b && b != c && a != c ==> r.keys() == seq![a, b, c]
                },
    {
        let mut schedule = Schedule::from::<Startup>();
        let ghost s0 = schedule;
        let first = Schedule::from::<PreInit>();
        let ghost x = first.sid();
        schedule.add_schedule(first);
        let ghost s1 = schedule;
        let second = Schedule::from::<Init>();
        let ghost y = second.sid();
        schedule.add_schedule(second);
        let ghost s2 = schedule;
        let third = Schedule::from::<PostInit>();
        let ghost z = third.sid();
        schedule.add_schedule(third);
        proof {
            if x != y && y != z && x != z {
                assert(x.spec_key() != y.spec_key());
                assert(y.spec_key() != z.spec_key());
                assert(x.spec_key() != z.spec_key());
                assert(!s1.order().has(y));
                assert(!s2.order().has(z));
                assert(s1.keys() =~= seq![x]);
                assert(s2.keys() =~= seq![x, y]);
                assert(schedule.keys() =~= seq![x, y, z]);
            }
            assert(s1.order().has(x));
            assert(s2.order().has(x) && s2.order().has(y));
            assert(schedule.order().has(x) && schedule.order().has(y) && schedule.order().has(z));
            assert(call_ensures(ScheduleId::new::<PreInit>, (), x));
            assert(call_ensures(ScheduleId::new::<Init>, (), y));
            assert(call_ensures(ScheduleId::new::<PostInit>, (), z));
            assert(x != y && y != z && x != z ==> schedule.keys() == seq![x, y, z]);
            assert(exists|a: ScheduleId, b: ScheduleId, c: ScheduleId|
                #![trigger schedule.order().has(a), schedule.order().has(b), schedule.order().has(c)]
                {
                    &&& call_ensures(ScheduleId::new::<PreInit>, (), a)
                    &&& call_ensures(ScheduleId::new::<Init>, (), b)
                    &&& call_ensures(ScheduleId::new::<PostInit>, (), c)
                    &&& schedule.order().has(a)
                    &&& schedule.order().has(b)
                    &&& schedule.order().has(c)
                    &&& a != b && b != c && a != c ==> schedule.keys() == seq![a, b, c]
                });
        }
        schedule
    }
}

pub struct Init;

impl Phase for Init {
}

pub struct PreInit;

impl Phase for PreInit {
}

pub struct PostInit;

impl Phase for PostInit {
}

pub struct First;

impl Phase for First {
}

/// The phase of updates at a fixed rate, with the steps around them.
pub struct Fixed;

impl Phase for Fixed {
    fn schedule() -> (r: Schedule)
        ensures
            exists|a: ScheduleId, b: ScheduleId, c: ScheduleId|
                #![trigger r.order().has(a), r.order().has(b), r.order().has(c)]
                {
                    &&& call_ensures(ScheduleId::new::<PreFixedUpate>, (), a)
                    &&& call_ensures(ScheduleId::new::<FixedUpdate>, (), b)
                    &&& call_ensures(ScheduleId::new::<PostFixedUpdate>, (), c)
                    &&& r.order().has(a)
                    &&& r.order().has(b)
                    &&& r.order().has(c)
                    &&& a != b && b != c && a != c ==> r.keys() == seq![a, b, c]
                },
    {
        let mut schedule = Schedule::from::<Fixed>();
        let ghost s0 = schedule;
        let first = Schedule::from::<PreFixedUpate>();
        let ghost x = first.sid();
        schedule.add_schedule(first);
        let ghost s1 = schedule;
        let second = Schedule::from::<FixedUpdate>();
        let ghost y = second.sid();
        schedule.add_schedule(second);
        let ghost s2 = schedule;
        let third = Schedule::from::<PostFixedUpdate>();
        let ghost z = third.sid();
        schedule.add_schedule(third);
        proof {
            if x != y && y != z && x != z {
                assert(x.spec_key() != y.spec_key());
                assert(y.spec_key() != z.spec_key());
                assert(x.spec_key() != z.spec_key());
                assert(!s1.order().has(y));
                assert(!s2.order().has(z));
                assert(s1.keys() =~= seq![x]);
                assert(s2.keys() =~= seq![x, y]);
                assert(schedule.keys() =~= seq![x, y, z]);
            }
            assert(s1.order().has(x));
            assert(s2.order().has(x) && s2.order().has(y));
            assert(schedule.order().has(x) && schedule.order().has(y) && schedule.order().has(z));
            assert(call_ensures(ScheduleId::new::<PreFixedUpate>, (), x));
            assert(call_ensures(ScheduleId::new::<FixedUpdate>, (), y));
            assert(call_ensures(ScheduleId::new::<PostFixedUpdate>, (), z));
            assert(x != y && y != z && x != z ==> schedule.keys() == seq![x, y, z]);
            assert(exists|a: ScheduleId, b: ScheduleId, c: ScheduleId|
                #![trigger schedule.order().has(a), schedule.order().has(b), schedule.order().has(c)]
                {
                    &&& call_ensures(ScheduleId::new::<PreFixedUpate>, (), a)
                    &&& call_ensures(ScheduleId::new::<FixedUpdate>, (), b)
                    &&& call_ensures(ScheduleId::new::<PostFixedUpdate>, (), c)
                    &&& schedule.order().has(a)
                    &&& schedule.order().has(b)
                    &&& schedule.order().has(c)
                    &&& a != b && b != c && a != c ==> schedule.keys() == seq![a, b, c]
                });
        }
        schedule
    }
}

pub struct PreFixedUpate;

impl Phase for PreFixedUpate {
}

pub struct FixedUpdate;

impl Phase for FixedUpdate {
}

pub struct PostFixedUpdate;

impl Phase for PostFixedUpdate {
}

pub struct PreUpdate;

impl Phase for PreUpdate {
}

pub struct Update;

impl Phase for Update {
}

pub struct PostUpdate;

impl Phase for PostUpdate {
}

pub struct PreRender;

impl Phase for PreRender {
}

pub struct Render;

impl Phase for Render {
}

pub struct PostRender;

impl Phase for PostRender {
}

pub struct Last;

impl Phase for Last {
}

/// The phase that runs every frame, from first to last step.
pub struct Execute;

impl Phase for Execute {
    fn schedule() -> (r: Schedule) {
        let mut schedule = Schedule::from::<Execute>();
        schedule.add_schedule(Schedule::from::<First>());
        schedule.add_schedule(Schedule::from::<Fixed>());
        schedule.add_schedule(Schedule::from::<PreUpdate>());
        schedule.add_schedule(Schedule::from::<Update>());
        schedule.add_schedule(Schedule::from::<PostUpdate>());
        schedule.add_schedule(Schedule::from::<PreRender>());
        schedule.add_schedule(Schedule::from::<Render>());
        schedule.add_schedule(Schedule::from::<PostRender>());
        schedule.add_schedule(Schedule::from::<Last>());
        schedule
    }
}

/// The phase that runs once at the end, with its exit steps.
pub struct Shutdown;

impl Phase for Shutdown {
    fn schedule() -> (r: Schedule) {
        let mut schedule = Schedule::from::<Shutdown>();
        schedule.add_schedule(Schedule::from::<PreExit>());
        schedule.add_schedule(Schedule::from::<Exit>());
        schedule.add_schedule(Schedule::from::<PostExit>());
        schedule
    }
}

pub struct Exit;

impl Phase for Exit {
}

pub struct PreExit;

impl Phase for PreExit {
}

pub struct PostExit;

impl Phase for PostExit {
}

/// The schedule of `Startup`, as `insert_after::<Startup, _>` and the
/// other placements put it in, is the phase `Startup` with its three steps:
/// `PreInit`, `Init` and `PostInit`, in that order where their ids differ.
pub proof fn law_startup_holds_its_steps(s: Schedule)
    requires
        call_ensures(Startup::schedule, (), s),
    ensures
        s.wf(),
        call_ensures(ScheduleId::new::<Startup>, (), s.sid()),
        exists|a: ScheduleId, b: ScheduleId, c: ScheduleId|
            #![trigger s.order().has(a), s.order().has(b), s.order().has(c)]
            {
                &&& call_ensures(ScheduleId::new::<PreInit>, (), a)
                &&& call_ensures(ScheduleId::new::<Init>, (), b)
                &&& call_ensures(ScheduleId::new::<PostInit>, (), c)
                &&& s.order().has(a)
                &&& s.order().has(b)
                &&& s.order().has(c)
                &&& a != b && b != c && a != c ==> s.keys() == seq![a, b, c]
            },
{
}

} // verus!
