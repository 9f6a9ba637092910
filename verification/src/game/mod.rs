use crate::ids::type_key;
use crate::key::Key;
use crate::storage::dense::{reindexed, DenseMap};
use vstd::prelude::*;

pub mod phases;

verus! {

/// Identifies a phase of a game: a digest of the phase's type.
#[derive(Clone, Copy, PartialEq, Eq, Structural, PartialOrd, Ord, Hash, Debug)]
pub struct PhaseType(pub u64);

impl Key for PhaseType {
    open spec fn spec_key(&self) -> u64 {
        self.0
    }

    fn key(&self) -> (r: u64) {
        self.0
    }

    proof fn lemma_key_injective(a: Self, b: Self) {
    }
}

impl PhaseType {
    /// The type of the phase `P`.
    pub fn new<P: 'static>() -> (r: Self) {
        PhaseType(type_key::<P>())
    }
}

/// A phase of a game, with the phases that run within it.
pub trait Phase: Sized + 'static {
    /// The type of this phase.
    fn ty(&self) -> (r: PhaseType)
        ensures
            call_ensures(PhaseType::new::<Self>, (), r),
    {
        let ty_of = PhaseType::new::<Self>;
        ty_of()
    }

    /// The phases that run within this one.
    fn schedule() -> (r: Schedule)
        ensures
            r.wf(),
    {
        Schedule::new()
    }
}

/// Where a phase is put among the phases of a schedule.
#[derive(Clone, Copy, PartialEq, Eq, Structural, Debug)]
pub enum Insert {
    /// Just before the phase of this type.
    Before(PhaseType),
    /// Just after the phase of this type.
    After(PhaseType),
}

/// A phase with the schedule of the phases within it.
pub struct ErasedPhase {
    ty: PhaseType,
    schedule: Schedule,
}

/// Phases in order, each with its type and the phases within it; the types
/// are kept with an index.
pub struct Schedule {
    order: DenseMap<PhaseType, ()>,
    phases: Vec<ErasedPhase>,
}

impl ErasedPhase {
    pub closed spec fn spec_ty(&self) -> PhaseType {
        self.ty
    }

    pub closed spec fn sched(&self) -> Schedule {
        self.schedule
    }

    /// This is the phase `P`: it has the type of `P` and the schedule that
    /// `P::schedule()` gives.
    pub open spec fn is_of<P: Phase>(&self) -> bool {
        &&& call_ensures(PhaseType::new::<P>, (), self.spec_ty())
        &&& call_ensures(P::schedule, (), self.sched())
    }

    /// The phase `P` with its schedule.
    pub fn new<P: Phase>() -> (r: Self)
        ensures
            r.sched().wf(),
            r.is_of::<P>(),
    {
        let ty_of = PhaseType::new::<P>;
        let schedule_of = P::schedule;
        ErasedPhase { ty: ty_of(), schedule: schedule_of() }
    }

    pub fn ty(&self) -> (r: PhaseType)
        ensures
            r == self.spec_ty(),
    {
        self.ty
    }

    pub fn schedule(&self) -> (r: &Schedule)
        ensures
            *r == self.sched(),
    {
        &self.schedule
    }
}

impl Schedule {
    /// The types of the phases, with their index.
    pub closed spec fn order(&self) -> DenseMap<PhaseType, ()> {
        self.order
    }

    /// The phases, in order.
    pub closed spec fn phase_seq(&self) -> Seq<ErasedPhase> {
        self.phases@
    }

    /// The types of the phases, in order.
    pub open spec fn keys(&self) -> Seq<PhaseType> {
        self.order().key_seq()
    }

    /// The index is accurate, the types and phases pair up, and each phase
    /// has the type it is listed under and a well formed schedule.
    pub open spec fn wf(&self) -> bool
        decreases self,
    {
        &&& self.order().wf()
        &&& self.order().is_accurate()
        &&& self.phase_seq().len() == self.keys().len()
        &&& forall|i: int|
            0 <= i < self.phase_seq().len() ==> {
                &&& (#[trigger] self.phase_seq()[i]).sched().wf()
                &&& self.phase_seq()[i].spec_ty() == self.keys()[i]
            }
    }

    /// The phase listed under the type `ty`.
    pub open spec fn phase(&self, ty: PhaseType) -> ErasedPhase {
        self.phase_seq()[self.order().slot(ty)]
    }

    pub fn new() -> (r: Self)
        ensures
            r.wf(),
            r.keys() == Seq::<PhaseType>::empty(),
            r.phase_seq() == Seq::<ErasedPhase>::empty(),
            r.order().index_map() == Map::<u64, usize>::empty(),
    {
        Schedule { order: DenseMap::new(), phases: Vec::new() }
    }

    /// A phase of this schedule has the type `ty`.
    pub fn has(&self, ty: PhaseType) -> (r: bool)
        ensures
            r == self.order().has(ty),
    {
        self.order.contains(&ty)
    }

    /// The phase of the type `ty`.
    pub fn get_dyn(&self, ty: &PhaseType) -> (r: Option<&ErasedPhase>)
        requires
            self.wf(),
        ensures
            self.order().has(*ty) ==> r == Some(&self.phase(*ty)),
            !self.order().has(*ty) ==> r is None,
    {
        match self.order.index_of_key(ty) {
            Some(i) => Some(&self.phases[i]),
            None => None,
        }
    }

    /// The phase `P`.
    pub fn get<P: Phase>(&self) -> (r: Option<&ErasedPhase>)
        requires
            self.wf(),
        ensures
            exists|ty: PhaseType|
                {
                    &&& call_ensures(PhaseType::new::<P>, (), ty)
                    &&& self.order().has(ty) ==> r == Some(&self.phase(ty))
                    &&& !self.order().has(ty) ==> r is None
                },
    {
        let ty_of = PhaseType::new::<P>;
        let ty = ty_of();
        self.get_dyn(&ty)
    }

    /// The phase of the type `ty`, to change in place.
    pub fn get_dyn_mut(&mut self, ty: &PhaseType) -> (r: Option<&mut ErasedPhase>)
        requires
            old(self).wf(),
        ensures
            old(self).order().has(*ty) <==> r is Some,
            match r {
                Some(p) => {
                    &&& *p == old(self).phase(*ty)
                    &&& final(self).phase_seq() == old(self).phase_seq().update(
                        old(self).order().slot(*ty),
                        *final(p),
                    )
                    &&& final(self).order() == old(self).order()
                },
                None => *final(self) == *old(self),
            },
    {
        match self.order.index_of_key(ty) {
            Some(i) => Some(&mut self.phases[i]),
            None => None,
        }
    }

    /// The phase `P`, to change in place.
    pub fn get_mut<P: Phase>(&mut self) -> (r: Option<&mut ErasedPhase>)
        requires
            old(self).wf(),
        ensures
            exists|ty: PhaseType|
                {
                    &&& call_ensures(PhaseType::new::<P>, (), ty)
                    &&& old(self).order().has(ty) <==> r is Some
                    &&& r matches Some(p) ==> {
                        &&& *p == old(self).phase(ty)
                        &&& final(self).phase_seq() == old(self).phase_seq().update(
                            old(self).order().slot(ty),
                            *final(p),
                        )
                        &&& final(self).order() == old(self).order()
                    }
                    &&& r is None ==> *final(self) == *old(self)
                },
    {
        let ty_of = PhaseType::new::<P>;
        let ty = ty_of();
        self.get_dyn_mut(&ty)
    }

    /// `new` is `self` with `p` set as the phase of its type: in place where
    /// the index has that type, else at the end.
    pub open spec fn added(&self, new: &Schedule, p: ErasedPhase) -> bool {
        if self.order().has(p.spec_ty()) {
            let i = self.order().slot(p.spec_ty());
            &&& new.keys() == self.keys().update(i, p.spec_ty())
            &&& new.phase_seq() == self.phase_seq().update(i, p)
            &&& new.order().index_map() == self.order().index_map()
        } else {
            &&& new.keys() == self.keys().push(p.spec_ty())
            &&& new.phase_seq() == self.phase_seq().push(p)
            &&& new.order().index_map() == self.order().index_map().insert(
                p.spec_ty().spec_key(),
                self.keys().len() as usize,
            )
        }
    }

    /// Sets `phase` as the phase of its type: in place where one of that
    /// type is listed, else at the end.
    pub fn add(&mut self, phase: ErasedPhase)
        requires
            old(self).wf(),
            phase.sched().wf(),
        ensures
            final(self).wf(),
            old(self).added(&*final(self), phase),
    {
        let ty = phase.ty;
        proof {
            old(self).order().lemma_wf();
        }
        match self.order.index_of_key(&ty) {
            Some(i) => {
                let replaced = self.order.insert(ty, ());
                self.phases.set(i, phase);
                proof {
                    assert forall|j: int| 0 <= j < self.phase_seq().len() implies {
                        &&& (#[trigger] self.phase_seq()[j]).sched().wf()
                        &&& self.phase_seq()[j].spec_ty() == self.keys()[j]
                    } by {
                        if j != i {
                            assert(old(self).phase_seq()[j].sched().wf());
                        }
                    }
                }
            },
            None => {
                let replaced = self.order.insert(ty, ());
                self.phases.push(phase);
                proof {
                    assert forall|j: int| 0 <= j < self.phase_seq().len() implies {
                        &&& (#[trigger] self.phase_seq()[j]).sched().wf()
                        &&& self.phase_seq()[j].spec_ty() == self.keys()[j]
                    } by {
                        if j < old(self).phase_seq().len() {
                            assert(old(self).phase_seq()[j].sched().wf());
                        }
                    }
                }
            },
        }
    }

    /// Sets the phase `P`, with its schedule, as the phase of its type.
    pub fn add_phase<P: Phase>(&mut self)
        requires
            old(self).wf(),
        ensures
            final(self).wf(),
            exists|p: ErasedPhase|
                p.sched().wf() && p.is_of::<P>() && #[trigger] old(self).added(&*final(self), p),
    {
        let phase = ErasedPhase::new::<P>();
        let ghost p = phase;
        self.add(phase);
        assert(p.sched().wf() && p.is_of::<P>() && old(self).added(&*self, p));
    }
}


impl Schedule {
    /// The phase of the type `main` is listed in this schedule, or in the
    /// schedule of a phase within it, at any depth.
    pub open spec fn reaching(&self, main: PhaseType) -> bool
        decreases self,
    {
        ||| self.order().has(main)
        ||| exists|i: int|
            0 <= i < self.phase_seq().len() && (#[trigger] self.phase_seq()[i]).sched().reaching(main)
    }

    /// The position of the first phase whose schedule `main` reaches.
    pub open spec fn first_reaching(&self, main: PhaseType) -> int {
        choose|i: int|
            0 <= i < self.phase_seq().len() && self.phase_seq()[i].sched().reaching(main) && forall|
                j: int,
            |
                0 <= j < i ==> !(#[trigger] self.phase_seq()[j]).sched().reaching(main)
    }

    /// `new` is `self` with `p` put in at position `i`, and the positions of
    /// the types from `from` on recorded again.
    pub open spec fn spliced(&self, new: &Schedule, p: ErasedPhase, i: int, from: int) -> bool {
        let ks = self.keys().insert(i, p.spec_ty());
        &&& new.keys() == ks
        &&& new.phase_seq() == self.phase_seq().insert(i, p)
        &&& new.order().index_map() == reindexed(self.order().index_map(), ks, from, ks.len() as int)
    }

    /// `new` is `self` with `p` put in as `at` says, at this level: next to
    /// the phase named by `at` where there is one, else in place of the
    /// phase of its own type.
    pub open spec fn placed_here(&self, new: &Schedule, p: ErasedPhase, at: Insert) -> bool {
        match at {
            Insert::Before(id) => if self.order().has(id) {
                let i = self.order().slot(id);
                self.spliced(new, p, i, i + 1)
            } else {
                self.added(new, p)
            },
            Insert::After(id) => if self.order().has(id) {
                let i = self.order().slot(id) + 1;
                self.spliced(new, p, i, i)
            } else {
                self.added(new, p)
            },
        }
    }

    /// `new` is `self` with `p` put in as `at` says in the first schedule,
    /// this one first and then those within its phases in order, that lists
    /// a phase of the type of `p`; where none does, `new` is `self`.
    pub open spec fn placed(&self, new: &Schedule, p: ErasedPhase, at: Insert) -> bool
        decreases self,
    {
        if self.order().has(p.spec_ty()) {
            self.placed_here(new, p, at)
        } else if !self.reaching(p.spec_ty()) {
            *new == *self
        } else {
            let i = self.first_reaching(p.spec_ty());
            &&& 0 <= i < self.phase_seq().len()
            &&& new.order() == self.order()
            &&& new.phase_seq().len() == self.phase_seq().len()
            &&& forall|j: int|
                0 <= j < self.phase_seq().len() && j != i ==> #[trigger] new.phase_seq()[j]
                    == self.phase_seq()[j]
            &&& new.phase_seq()[i].spec_ty() == self.phase_seq()[i].spec_ty()
            &&& self.phase_seq()[i].sched().placed(&new.phase_seq()[i].sched(), p, at)
        }
    }

    /// The phase of the type `main` is listed here or within, at any depth.
    pub fn reaches(&self, main: PhaseType) -> (r: bool)
        ensures
            r == self.reaching(main),
        decreases self,
    {
        if self.order.contains(&main) {
            return true;
        }
        let n = self.phases.len();
        let mut i: usize = 0;
        while i < n
            invariant
                i <= n,
                n == self.phase_seq().len(),
                !self.order().has(main),
                forall|j: int| 0 <= j < i ==> !(#[trigger] self.phase_seq()[j]).sched().reaching(main),
            decreases n - i,
        {
            if self.phases[i].schedule.reaches(main) {
                assert(self.phase_seq()[i as int].sched().reaching(main));
                return true;
            }
            i = i + 1;
        }
        false
    }

    /// A phase put in among well formed phases keeps the schedule well
    /// formed.
    proof fn lemma_spliced_wf(&self, before: &Schedule, i: int)
        requires
            before.wf(),
            0 <= i <= before.phase_seq().len(),
            self.order().wf(),
            self.order().is_accurate(),
            self.keys() == before.keys().insert(i, self.phase_seq()[i].spec_ty()),
            self.phase_seq() == before.phase_seq().insert(i, self.phase_seq()[i]),
            self.phase_seq()[i].sched().wf(),
        ensures
            self.wf(),
    {
        assert forall|j: int| 0 <= j < self.phase_seq().len() implies {
            &&& (#[trigger] self.phase_seq()[j]).sched().wf()
            &&& self.phase_seq()[j].spec_ty() == self.keys()[j]
        } by {
            if j < i {
                assert(before.phase_seq()[j].sched().wf());
            } else if j > i {
                assert(before.phase_seq()[j - 1].sched().wf());
            }
        }
    }

    /// Puts `phase` in as `at` says, in this schedule, which lists a phase
    /// of its type.
    fn place_here(&mut self, phase: ErasedPhase, at: Insert)
        requires
            old(self).wf(),
            phase.sched().wf(),
            old(self).order().has(phase.spec_ty()),
        ensures
            final(self).wf(),
            old(self).placed_here(&*final(self), phase, at),
    {
        proof {
            old(self).order().lemma_wf();
        }
        let (anchor, after) = match at {
            Insert::Before(id) => (id, false),
            Insert::After(id) => (id, true),
        };
        match self.order.index_of_key(&anchor) {
            Some(i) => {
                if after {
                    let replaced = self.order.insert_after(phase.ty, (), &anchor);
                    self.phases.insert(i + 1, phase);
                    proof {
                        self.lemma_spliced_wf(old(self), i + 1);
                    }
                } else {
                    let replaced = self.order.insert_before(phase.ty, (), &anchor);
                    self.phases.insert(i, phase);
                    proof {
                        self.lemma_spliced_wf(old(self), i as int);
                    }
                }
            },
            None => {
                self.add(phase);
            },
        }
    }

    /// Puts `phase` in as `at` says in the first schedule that lists a
    /// phase of its type, which this one reaches.
    fn place(&mut self, phase: ErasedPhase, at: Insert)
        requires
            old(self).wf(),
            phase.sched().wf(),
            old(self).reaching(phase.spec_ty()),
        ensures
            final(self).wf(),
            old(self).placed(&*final(self), phase, at),
        decreases *old(self),
    {
        if self.order.contains(&phase.ty) {
            self.place_here(phase, at);
            return;
        }
        let n = self.phases.len();
        let mut i: usize = 0;
        while i < n
            invariant
                i <= n,
                n == self.phase_seq().len(),
                *self == *old(self),
                old(self).wf(),
                phase.sched().wf(),
                !old(self).order().has(phase.spec_ty()),
                old(self).reaching(phase.spec_ty()),
                forall|j: int|
                    0 <= j < i ==> !(#[trigger] old(self).phase_seq()[j]).sched().reaching(
                        phase.spec_ty(),
                    ),
            decreases n - i,
        {
            if self.phases[i].schedule.reaches(phase.ty) {
                proof {
                    let k = old(self).first_reaching(phase.spec_ty());
                    assert(old(self).phase_seq()[i as int].sched().reaching(phase.spec_ty()));
                    if k != i {
                        if k < i {
                            assert(!old(self).phase_seq()[k].sched().reaching(phase.spec_ty()));
                        } else {
                            assert(!old(self).phase_seq()[i as int].sched().reaching(phase.spec_ty()));
                        }
                    }
                    assert(old(self).phase_seq()[i as int].sched().wf());
                }
                self.phases[i].schedule.place(phase, at);
                proof {
                    assert forall|j: int| 0 <= j < self.phase_seq().len() implies {
                        &&& (#[trigger] self.phase_seq()[j]).sched().wf()
                        &&& self.phase_seq()[j].spec_ty() == self.keys()[j]
                    } by {
                        if j != i {
                            assert(old(self).phase_seq()[j].sched().wf());
                        }
                    }
                }
                return;
            }
            i = i + 1;
        }
        proof {
            let j = choose|j: int|
                0 <= j < old(self).phase_seq().len() && (#[trigger] old(self).phase_seq()[j]).sched().reaching(
                    phase.spec_ty(),
                );
            assert(!old(self).phase_seq()[j].sched().reaching(phase.spec_ty()));
        }
    }

    /// Puts `phase` in as `at` says in the first schedule, this one first
    /// and then those within its phases in order, that lists a phase of its
    /// type. Says whether one did; where none did, nothing changes.
    pub fn insert_at(&mut self, phase: ErasedPhase, at: Insert) -> (r: bool)
        requires
            old(self).wf(),
            phase.sched().wf(),
        ensures
            final(self).wf(),
            r == old(self).reaching(phase.spec_ty()),
            old(self).placed(&*final(self), phase, at),
    {
        if self.reaches(phase.ty) {
            self.place(phase, at);
            true
        } else {
            false
        }
    }

    /// Puts the phase `P` just before the phase `Q`, in the first schedule
    /// that lists a phase of the type of `P`. Says whether one did.
    pub fn insert_before<P: Phase, Q: Phase>(&mut self) -> (r: bool)
        requires
            old(self).wf(),
        ensures
            final(self).wf(),
            exists|phase: ErasedPhase, before: PhaseType|
                {
                    &&& phase.sched().wf()
                    &&& phase.is_of::<P>()
                    &&& call_ensures(PhaseType::new::<Q>, (), before)
                    &&& r == old(self).reaching(phase.spec_ty())
                    &&& old(self).placed(&*final(self), phase, Insert::Before(before))
                },
    {
        let phase = ErasedPhase::new::<P>();
        let ghost p = phase;
        let ty_of = PhaseType::new::<Q>;
        let before = ty_of();
        let r = self.insert_at(phase, Insert::Before(before));
        assert(p.sched().wf() && p.is_of::<P>() && call_ensures(PhaseType::new::<Q>, (), before) && r == old(self).reaching(p.spec_ty()) && old(self).placed(
            &*self,
            p,
            Insert::Before(before),
        ));
        r
    }

    /// Puts the phase `P` just after the phase `Q`, in the first schedule
    /// that lists a phase of the type of `P`. Says whether one did.
    pub fn insert_after<P: Phase, Q: Phase>(&mut self) -> (r: bool)
        requires
            old(self).wf(),
        ensures
            final(self).wf(),
            exists|phase: ErasedPhase, after: PhaseType|
                {
                    &&& phase.sched().wf()
                    &&& phase.is_of::<P>()
                    &&& call_ensures(PhaseType::new::<Q>, (), after)
                    &&& r == old(self).reaching(phase.spec_ty())
                    &&& old(self).placed(&*final(self), phase, Insert::After(after))
                },
    {
        let phase = ErasedPhase::new::<P>();
        let ghost p = phase;
        let ty_of = PhaseType::new::<Q>;
        let after = ty_of();
        let r = self.insert_at(phase, Insert::After(after));
        assert(p.sched().wf() && p.is_of::<P>() && call_ensures(PhaseType::new::<Q>, (), after) && r == old(self).reaching(p.spec_ty()) && old(self).placed(
            &*self,
            p,
            Insert::After(after),
        ));
        r
    }
}


impl ErasedPhase {
    /// Sets the phase `Q`, with its schedule, among the phases within this
    /// one.
    pub fn add_phase<Q: Phase>(&mut self)
        requires
            old(self).sched().wf(),
        ensures
            final(self).spec_ty() == old(self).spec_ty(),
            final(self).sched().wf(),
            exists|p: ErasedPhase|
                p.sched().wf() && p.is_of::<Q>() && #[trigger] old(self).sched().added(
                    &final(self).sched(),
                    p,
                ),
    {
        self.schedule.add_phase::<Q>();
    }

    /// Puts the phase `Q` just before the phase `R` within this one: see
    /// `Schedule::insert_before`.
    pub fn insert_before<Q: Phase, R: Phase>(&mut self) -> (r: bool)
        requires
            old(self).sched().wf(),
        ensures
            final(self).spec_ty() == old(self).spec_ty(),
            final(self).sched().wf(),
            exists|phase: ErasedPhase, before: PhaseType|
                {
                    &&& phase.sched().wf()
                    &&& phase.is_of::<Q>()
                    &&& call_ensures(PhaseType::new::<R>, (), before)
                    &&& r == old(self).sched().reaching(phase.spec_ty())
                    &&& old(self).sched().placed(&final(self).sched(), phase, Insert::Before(before))
                },
    {
        self.schedule.insert_before::<Q, R>()
    }

    /// Puts the phase `Q` just after the phase `R` within this one: see
    /// `Schedule::insert_after`.
    pub fn insert_after<Q: Phase, R: Phase>(&mut self) -> (r: bool)
        requires
            old(self).sched().wf(),
        ensures
            final(self).spec_ty() == old(self).spec_ty(),
            final(self).sched().wf(),
            exists|phase: ErasedPhase, after: PhaseType|
                {
                    &&& phase.sched().wf()
                    &&& phase.is_of::<Q>()
                    &&& call_ensures(PhaseType::new::<R>, (), after)
                    &&& r == old(self).sched().reaching(phase.spec_ty())
                    &&& old(self).sched().placed(&final(self).sched(), phase, Insert::After(after))
                },
    {
        self.schedule.insert_after::<Q, R>()
    }
}

/// After a phase is added to a schedule, the schedule lists its type, and
/// looking that type up gives the phase back.
pub proof fn law_phase_after_add(before: &Schedule, after: &Schedule, p: ErasedPhase)
    requires
        before.wf(),
        before.added(after, p),
    ensures
        after.order().has(p.spec_ty()),
        after.phase(p.spec_ty()) == p,
{
    before.order().lemma_wf();
    let ty = p.spec_ty();
    if before.order().has(ty) {
        assert(after.order().has(ty));
    } else {
        assert(after.order().index_map()[ty.spec_key()] == before.keys().len());
    }
}

/// After `add_phase::<P>()`, the schedule lists the type of `P`, and looking
/// that type up gives the phase `P` with the schedule `P::schedule()` gives.
pub proof fn law_added_phase_is_p<P: Phase>(before: &Schedule, after: &Schedule, p: ErasedPhase)
    requires
        before.wf(),
        p.is_of::<P>(),
        before.added(after, p),
    ensures
        after.order().has(p.spec_ty()),
        after.phase(p.spec_ty()).is_of::<P>(),
        call_ensures(PhaseType::new::<P>, (), p.spec_ty()),
        call_ensures(P::schedule, (), after.phase(p.spec_ty()).sched()),
{
    law_phase_after_add(before, after, p);
}

/// The schedule a game runs: starting up, executing, shutting down.
pub struct MainSchedule {
    schedule: Schedule,
}

impl MainSchedule {
    pub closed spec fn sched(&self) -> Schedule {
        self.schedule
    }

    /// The phases `Init`, `Execute` and `Shutdown`, with `Start`, `Main`
    /// and `End` within `Execute`.
    pub fn new() -> (r: Self)
        ensures
            r.sched().wf(),
            exists|i: PhaseType, e: PhaseType, d: PhaseType|
                #![trigger r.sched().order().has(i), r.sched().order().has(e), r.sched().order().has(d)]
                {
                    &&& call_ensures(PhaseType::new::<phases::Init>, (), i)
                    &&& call_ensures(PhaseType::new::<phases::Execute>, (), e)
                    &&& call_ensures(PhaseType::new::<phases::Shutdown>, (), d)
                    &&& r.sched().order().has(i)
                    &&& r.sched().order().has(e)
                    &&& r.sched().order().has(d)
                    &&& exists|a: PhaseType, m: PhaseType, z: PhaseType|
                        #![trigger r.sched().phase(e).sched().order().has(a), r.sched().phase(e).sched().order().has(m), r.sched().phase(e).sched().order().has(z)]
                        {
                            &&& call_ensures(PhaseType::new::<phases::Start>, (), a)
                            &&& call_ensures(PhaseType::new::<phases::Main>, (), m)
                            &&& call_ensures(PhaseType::new::<phases::End>, (), z)
                            &&& r.sched().phase(e).sched().order().has(a)
                            &&& r.sched().phase(e).sched().order().has(m)
                            &&& r.sched().phase(e).sched().order().has(z)
                        }
                },
    {
        let mut schedule = Schedule::new();
        let ghost s0 = schedule;
        schedule.add_phase::<phases::Init>();
        let ghost s1 = schedule;
        let execute = ErasedPhase::new::<phases::Execute>();
        let execute_ty = execute.ty();
        schedule.add(execute);
        let ghost s2 = schedule;
        schedule.add_phase::<phases::Shutdown>();
        let ghost before = schedule;
        proof {
            before.order().lemma_wf();
        }
        let phase = schedule.get_dyn_mut(&execute_ty).unwrap();
        let ghost ph0 = *phase;
        phase.add_phase::<phases::Start>();
        let ghost ph1 = *phase;
        phase.add_phase::<phases::Main>();
        let ghost ph2 = *phase;
        phase.add_phase::<phases::End>();
        let ghost ph3 = *phase;
        proof {
            let k = before.order().slot(execute_ty);
            assert forall|j: int| 0 <= j < schedule.phase_seq().len() implies {
                &&& (#[trigger] schedule.phase_seq()[j]).sched().wf()
                &&& schedule.phase_seq()[j].spec_ty() == schedule.keys()[j]
            } by {
                if j != k {
                    assert(before.phase_seq()[j].sched().wf());
                }
            }
            let pi = choose|p: ErasedPhase|
                p.sched().wf() && p.is_of::<phases::Init>() && #[trigger] s0.added(&s1, p);
            let pd = choose|p: ErasedPhase|
                p.sched().wf() && p.is_of::<phases::Shutdown>() && #[trigger] s2.added(&before, p);
            let pa = choose|p: ErasedPhase|
                p.sched().wf() && p.is_of::<phases::Start>() && #[trigger] ph0.sched().added(&ph1.sched(), p);
            let pm = choose|p: ErasedPhase|
                p.sched().wf() && p.is_of::<phases::Main>() && #[trigger] ph1.sched().added(&ph2.sched(), p);
            let pz = choose|p: ErasedPhase|
                p.sched().wf() && p.is_of::<phases::End>() && #[trigger] ph2.sched().added(&ph3.sched(), p);
            let i = pi.spec_ty();
            let e = execute_ty;
            let d = pd.spec_ty();
            assert(s1.order().has(i));
            assert(s2.order().has(i) && s2.order().has(e));
            assert(before.order().has(i) && before.order().has(e) && before.order().has(d));
            assert(schedule.order() == before.order());
            assert(schedule.phase(e) == ph3);
            let a = pa.spec_ty();
            let m = pm.spec_ty();
            let z = pz.spec_ty();
            assert(ph1.sched().order().has(a));
            assert(ph2.sched().order().has(a) && ph2.sched().order().has(m));
            assert(ph3.sched().order().has(a) && ph3.sched().order().has(m) && ph3.sched().order().has(z));
            assert(exists|a: PhaseType, m: PhaseType, z: PhaseType|
                #![trigger schedule.phase(e).sched().order().has(a), schedule.phase(e).sched().order().has(m), schedule.phase(e).sched().order().has(z)]
                {
                    &&& call_ensures(PhaseType::new::<phases::Start>, (), a)
                    &&& call_ensures(PhaseType::new::<phases::Main>, (), m)
                    &&& call_ensures(PhaseType::new::<phases::End>, (), z)
                    &&& schedule.phase(e).sched().order().has(a)
                    &&& schedule.phase(e).sched().order().has(m)
                    &&& schedule.phase(e).sched().order().has(z)
                });
            assert(call_ensures(PhaseType::new::<phases::Init>, (), i));
            assert(call_ensures(PhaseType::new::<phases::Execute>, (), e));
            assert(call_ensures(PhaseType::new::<phases::Shutdown>, (), d));
        }
        let ghost final_schedule = schedule;
        let r = MainSchedule { schedule };
        proof {
            let i = choose|i: PhaseType| call_ensures(PhaseType::new::<phases::Init>, (), i) && final_schedule.order().has(i);
            let d = choose|d: PhaseType| call_ensures(PhaseType::new::<phases::Shutdown>, (), d) && final_schedule.order().has(d);
            let e = execute_ty;
            assert(r.sched() == final_schedule);
            assert(r.sched().order().has(i) && r.sched().order().has(e) && r.sched().order().has(d));
        }
        r
    }

    pub fn schedule(&self) -> (r: &Schedule)
        ensures
            *r == self.sched(),
    {
        &self.schedule
    }

    /// Sets the phase `P`, with its schedule, as a phase of the game.
    pub fn add_phase<P: Phase>(&mut self)
        requires
            old(self).sched().wf(),
        ensures
            final(self).sched().wf(),
            exists|p: ErasedPhase|
                p.sched().wf() && p.is_of::<P>() && #[trigger] old(self).sched().added(
                    &final(self).sched(),
                    p,
                ),
    {
        let ghost before = self.schedule;
        self.schedule.add_phase::<P>();
        proof {
            let w = choose|p: ErasedPhase|
                p.sched().wf() && p.is_of::<P>() && #[trigger] before.added(&self.schedule, p);
            assert(w.sched().wf() && w.is_of::<P>() && old(self).sched().added(&self.sched(), w));
        }
    }

    /// See `Schedule::insert_before`.
    pub fn insert_before<P: Phase, Q: Phase>(&mut self) -> (r: bool)
        requires
            old(self).sched().wf(),
        ensures
            final(self).sched().wf(),
            exists|phase: ErasedPhase, before: PhaseType|
                {
                    &&& phase.sched().wf()
                    &&& phase.is_of::<P>()
                    &&& call_ensures(PhaseType::new::<Q>, (), before)
                    &&& r == old(self).sched().reaching(phase.spec_ty())
                    &&& old(self).sched().placed(&final(self).sched(), phase, Insert::Before(before))
                },
    {
        let ghost prior = self.schedule;
        let r = self.schedule.insert_before::<P, Q>();
        proof {
            let (w, t) = choose|phase: ErasedPhase, before: PhaseType|
                {
                    &&& phase.sched().wf()
                    &&& phase.is_of::<P>()
                    &&& call_ensures(PhaseType::new::<Q>, (), before)
                    &&& r == prior.reaching(phase.spec_ty())
                    &&& prior.placed(&self.schedule, phase, Insert::Before(before))
                };
            assert(w.sched().wf() && w.is_of::<P>() && call_ensures(PhaseType::new::<Q>, (), t) && r == old(self).sched().reaching(w.spec_ty())
                && old(self).sched().placed(&self.sched(), w, Insert::Before(t)));
        }
        r
    }

    /// See `Schedule::insert_after`.
    pub fn insert_after<P: Phase, Q: Phase>(&mut self) -> (r: bool)
        requires
            old(self).sched().wf(),
        ensures
            final(self).sched().wf(),
            exists|phase: ErasedPhase, after: PhaseType|
                {
                    &&& phase.sched().wf()
                    &&& phase.is_of::<P>()
                    &&& call_ensures(PhaseType::new::<Q>, (), after)
                    &&& r == old(self).sched().reaching(phase.spec_ty())
                    &&& old(self).sched().placed(&final(self).sched(), phase, Insert::After(after))
                },
    {
        let ghost prior = self.schedule;
        let r = self.schedule.insert_after::<P, Q>();
        proof {
            let (w, t) = choose|phase: ErasedPhase, after: PhaseType|
                {
                    &&& phase.sched().wf()
                    &&& phase.is_of::<P>()
                    &&& call_ensures(PhaseType::new::<Q>, (), after)
                    &&& r == prior.reaching(phase.spec_ty())
                    &&& prior.placed(&self.schedule, phase, Insert::After(after))
                };
            assert(w.sched().wf() && w.is_of::<P>() && call_ensures(PhaseType::new::<Q>, (), t) && r == old(self).sched().reaching(w.spec_ty())
                && old(self).sched().placed(&self.sched(), w, Insert::After(t)));
        }
        r
    }
}

} // verus!
