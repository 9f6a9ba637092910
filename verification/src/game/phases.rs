use crate::game::{ErasedPhase, Phase, PhaseType, Schedule};
use crate::key::Key;
use vstd::prelude::*;

verus! {

/// The phase that runs once as the game starts.
pub struct Init;

impl Phase for Init {
}

/// The phase that runs every frame.
pub struct Execute;

impl Phase for Execute {
}

/// The phase that runs once as the game ends.
pub struct Shutdown;

impl Phase for Shutdown {
}

pub struct PreFixedUpdate;

impl Phase for PreFixedUpdate {
}

pub struct FixedUpdate;

impl Phase for FixedUpdate {
}

pub struct PostFixedUpdate;

impl Phase for PostFixedUpdate {
}

/// The phase of updates at a fixed rate, with the steps around them.
pub struct Fixed;

impl Phase for Fixed {
    fn schedule() -> (r: Schedule)
        ensures
            exists|a: PhaseType, b: PhaseType, c: PhaseType|
                #![trigger r.order().has(a), r.order().has(b), r.order().has(c)]
                {
                    &&& call_ensures(PhaseType::new::<PreFixedUpdate>, (), a)
                    &&& call_ensures(PhaseType::new::<FixedUpdate>, (), b)
                    &&& call_ensures(PhaseType::new::<PostFixedUpdate>, (), c)
                    &&& r.order().has(a)
                    &&& r.order().has(b)
                    &&& r.order().has(c)
                    &&& a != b && b != c && a != c ==> r.keys() == seq![a, b, c]
                },
    {
        let mut schedule = Schedule::new();
        let ghost s0 = schedule;
        schedule.add_phase::<PreFixedUpdate>();
        let ghost s1 = schedule;
        schedule.add_phase::<FixedUpdate>();
        let ghost s2 = schedule;
        schedule.add_phase::<PostFixedUpdate>();
        proof {
            let pa = choose|p: ErasedPhase|
                p.sched().wf() && p.is_of::<PreFixedUpdate>() && #[trigger] s0.added(&s1, p);
            let pb = choose|p: ErasedPhase|
                p.sched().wf() && p.is_of::<FixedUpdate>() && #[trigger] s1.added(&s2, p);
            let pc = choose|p: ErasedPhase|
                p.sched().wf() && p.is_of::<PostFixedUpdate>() && #[trigger] s2.added(&schedule, p);
            let x = pa.spec_ty();
            let y = pb.spec_ty();
            let z = pc.spec_ty();
            if x != y && y != z && x != z {
                assert(x.spec_key() != y.spec_key());
                assert(y.spec_key() != z.spec_key());
                assert(x.spec_key() != z.spec_key());
                assert(!s1.order().has(y));
                assert(!s2.order().has(z));
                assert(s1.keys() =~= seq![x]);
                assert(s2.keys() =~= seq![x, y]);
                assert(schedule.keys() =~= seq![x, y, z]);
            }
            assert(s1.order().has(x));
            assert(s2.order().has(x) && s2.order().has(y));
            assert(schedule.order().has(x) && schedule.order().has(y) && schedule.order().has(z));
        }
        schedule
    }
}

pub struct PreUpdate;

impl Phase for PreUpdate {
}

pub struct Update;

impl Phase for Update {
}

pub struct PostUpdate;

impl Phase for PostUpdate {
}

/// The main phase of a frame: the fixed updates, then the updates.
pub struct Main;

impl Phase for Main {
    fn schedule() -> (r: Schedule) {
        let mut schedule = Schedule::new();
        schedule.add_phase::<Fixed>();
        schedule.add_phase::<PreUpdate>();
        schedule.add_phase::<Update>();
        schedule.add_phase::<PostUpdate>();
        schedule
    }
}

/// The first step of a frame.
pub struct Start;

impl Phase for Start {
}

/// The last step of a frame.
pub struct End;

impl Phase for End {
}

/// The phase `Fixed`, as a schedule holds it once added, runs the fixed
/// update and the steps around it.
pub proof fn law_fixed_holds_its_steps(p: ErasedPhase)
    requires
        p.is_of::<Fixed>(),
    ensures
        exists|a: PhaseType, b: PhaseType, c: PhaseType|
            #![trigger p.sched().order().has(a), p.sched().order().has(b), p.sched().order().has(c)]
            {
                &&& call_ensures(PhaseType::new::<PreFixedUpdate>, (), a)
                &&& call_ensures(PhaseType::new::<FixedUpdate>, (), b)
                &&& call_ensures(PhaseType::new::<PostFixedUpdate>, (), c)
                &&& p.sched().order().has(a)
                &&& p.sched().order().has(b)
                &&& p.sched().order().has(c)
            },
{
}

} // verus!
