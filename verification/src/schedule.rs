use crate::ids::type_key;
use crate::key::Key;
use crate::storage::dense::{reindexed, DenseMap};
use vstd::prelude::*;

verus! {

/// Identifies a phase of a schedule: a digest of the phase's type.
#[derive(Clone, Copy, PartialEq, Eq, Structural, PartialOrd, Ord, Hash, Debug)]
pub struct ScheduleId(pub u64);

impl Key for ScheduleId {
    open spec fn spec_key(&self) -> u64 {
        self.0
    }

    fn key(&self) -> (r: u64) {
        self.0
    }

    proof fn lemma_key_injective(a: Self, b: Self) {
    }
}

impl ScheduleId {
    /// The id of the phase `P`.
    pub fn new<P: 'static>() -> (r: Self) {
        ScheduleId(type_key::<P>())
    }
}

/// A phase: a step of a schedule, which may hold sub-phases.
pub trait Phase: Sized + 'static {
    /// The id of this phase.
    fn id(&self) -> (r: ScheduleId)
        ensures
            call_ensures(ScheduleId::new::<Self>, (), r),
    {
        let id_of = ScheduleId::new::<Self>;
        id_of()
    }

    /// The schedule of this phase, with its sub-phases.
    fn schedule() -> (r: Schedule)
        ensures
            r.wf(),
            call_ensures(ScheduleId::new::<Self>, (), r.sid()),
    {
        Schedule::from::<Self>()
    }
}

/// The phase at the root of every schedule.
pub struct Root;

impl Phase for Root {
}

/// Where a schedule is put into a tree of schedules.
#[derive(Clone, Copy, PartialEq, Eq, Structural, Debug)]
pub enum Placement {
    /// As a sub-phase of the phase with this id.
    Under(ScheduleId),
    /// Just before the sub-phase with this id.
    Before(ScheduleId),
    /// Just after the sub-phase with this id.
    After(ScheduleId),
}

/// A tree of phases: each has an id and its sub-phases, in order. The ids
/// of the sub-phases are kept with an index, their schedules beside them.
pub struct Schedule {
    id: ScheduleId,
    order: DenseMap<ScheduleId, ()>,
    children: Vec<Schedule>,
}

impl Schedule {
    pub closed spec fn sid(&self) -> ScheduleId {
        self.id
    }

    /// The ids of the sub-phases, with their index.
    pub closed spec fn order(&self) -> DenseMap<ScheduleId, ()> {
        self.order
    }

    /// The schedules of the sub-phases, in order.
    pub closed spec fn kid_seq(&self) -> Seq<Schedule> {
        self.children@
    }

    /// The ids of the sub-phases, in order.
    pub open spec fn keys(&self) -> Seq<ScheduleId> {
        self.order().key_seq()
    }

    /// The schedule of the sub-phase `id`.
    pub open spec fn kid(&self, id: ScheduleId) -> Schedule {
        self.kid_seq()[self.order().slot(id)]
    }

    /// The index of each node is accurate, its ids and schedules pair up,
    /// and each sub-phase has the id it is listed under.
    pub open spec fn wf(&self) -> bool
        decreases self,
    {
        &&& self.order().wf()
        &&& self.order().is_accurate()
        &&& self.kid_seq().len() == self.keys().len()
        &&& forall|i: int|
            0 <= i < self.kid_seq().len() ==> {
                &&& (#[trigger] self.kid_seq()[i]).wf()
                &&& self.kid_seq()[i].sid() == self.keys()[i]
            }
    }

    /// `at` applies to this node itself.
    pub open spec fn applies(&self, at: Placement) -> bool {
        match at {
            Placement::Under(main) => self.sid() == main,
            Placement::Before(id) => self.order().has(id),
            Placement::After(id) => self.order().has(id),
        }
    }

    /// `at` applies to this node or to a node below it.
    pub open spec fn reaching(&self, at: Placement) -> bool
        decreases self,
    {
        ||| self.applies(at)
        ||| exists|i: int|
            0 <= i < self.kid_seq().len() && (#[trigger] self.kid_seq()[i]).reaching(at)
    }

    /// The position of the first sub-phase that `at` reaches.
    pub open spec fn first_reaching(&self, at: Placement) -> int {
        choose|i: int|
            0 <= i < self.kid_seq().len() && self.kid_seq()[i].reaching(at) && forall|j: int|
                0 <= j < i ==> !(#[trigger] self.kid_seq()[j]).reaching(at)
    }

    /// `new` is `self` with `s` set as the sub-phase of its id: in place
    /// where the index has that id, else at the end.
    pub open spec fn added(&self, new: &Schedule, s: Schedule) -> bool {
        &&& new.sid() == self.sid()
        &&& if self.order().has(s.sid()) {
            let i = self.order().slot(s.sid());
            &&& new.keys() == self.keys().update(i, s.sid())
            &&& new.kid_seq() == self.kid_seq().update(i, s)
            &&& new.order().index_map() == self.order().index_map()
        } else {
            &&& new.keys() == self.keys().push(s.sid())
            &&& new.kid_seq() == self.kid_seq().push(s)
            &&& new.order().index_map() == self.order().index_map().insert(
                s.sid().spec_key(),
                self.keys().len() as usize,
            )
        }
    }

    /// `new` is `self` with `s` put in at position `i` of the sub-phases,
    /// and the positions of the ids from `from` on recorded again.
    pub open spec fn spliced(&self, new: &Schedule, s: Schedule, i: int, from: int) -> bool {
        let ks = self.keys().insert(i, s.sid());
        &&& new.sid() == self.sid()
        &&& new.keys() == ks
        &&& new.kid_seq() == self.kid_seq().insert(i, s)
        &&& new.order().index_map() == reindexed(self.order().index_map(), ks, from, ks.len() as int)
    }

    /// `new` is `self` with `s` put in as `at` says, at this node.
    pub open spec fn placed_here(&self, new: &Schedule, s: Schedule, at: Placement) -> bool {
        match at {
            Placement::Under(_) => self.added(new, s),
            Placement::Before(id) => {
                let i = self.order().slot(id);
                self.spliced(new, s, i, i + 1)
            },
            Placement::After(id) => {
                let i = self.order().slot(id) + 1;
                self.spliced(new, s, i, i)
            },
        }
    }

    /// `new` is `self` with `s` put in where `at` first applies: at this
    /// node, else within the first sub-phase that `at` reaches; where it
    /// reaches none, `new` is `self`.
    pub open spec fn placed(&self, new: &Schedule, s: Schedule, at: Placement) -> bool
        decreases self,
    {
        if self.applies(at) {
            self.placed_here(new, s, at)
        } else if !self.reaching(at) {
            *new == *self
        } else {
            let i = self.first_reaching(at);
            &&& 0 <= i < self.kid_seq().len()
            &&& new.sid() == self.sid()
            &&& new.order() == self.order()
            &&& new.kid_seq().len() == self.kid_seq().len()
            &&& forall|j: int|
                0 <= j < self.kid_seq().len() && j != i ==> #[trigger] new.kid_seq()[j]
                    == self.kid_seq()[j]
            &&& self.kid_seq()[i].placed(&new.kid_seq()[i], s, at)
        }
    }

    /// Where the search for `id` among the sub-phases from position `i` on
    /// ends: the first that has `id` as a direct sub-phase, or holds it
    /// further down.
    pub open spec fn search(&self, id: ScheduleId, i: int) -> Option<Schedule>
        decreases self, self.kid_seq().len() - i,
    {
        if i < 0 || i >= self.kid_seq().len() {
            None
        } else {
            let k = self.kid_seq()[i];
            let found = if k.order().has(id) {
                Some(k.kid(id))
            } else {
                k.search(id, 0)
            };
            if found is Some {
                found
            } else {
                self.search(id, i + 1)
            }
        }
    }

    /// The schedule that `get(id)` finds: the direct sub-phase `id`, else
    /// the first found below.
    pub open spec fn find(&self, id: ScheduleId) -> Option<Schedule> {
        if self.order().has(id) {
            Some(self.kid(id))
        } else {
            self.search(id, 0)
        }
    }
}


impl Schedule {
    pub fn new(id: ScheduleId) -> (r: Self)
        ensures
            r.wf(),
            r.sid() == id,
            r.keys() == Seq::<ScheduleId>::empty(),
            r.kid_seq() == Seq::<Schedule>::empty(),
            r.order().index_map() == Map::<u64, usize>::empty(),
    {
        Schedule { id, order: DenseMap::new(), children: Vec::new() }
    }

    /// The schedule of the phase `P`, with no sub-phases.
    pub fn from<P: 'static>() -> (r: Self)
        ensures
            r.wf(),
            call_ensures(ScheduleId::new::<P>, (), r.sid()),
            r.keys() == Seq::<ScheduleId>::empty(),
            r.kid_seq() == Seq::<Schedule>::empty(),
            r.order().index_map() == Map::<u64, usize>::empty(),
    {
        let id_of = ScheduleId::new::<P>;
        Schedule::new(id_of())
    }

    pub fn id(&self) -> (r: ScheduleId)
        ensures
            r == self.sid(),
    {
        self.id
    }

    /// A direct sub-phase has the id `id`.
    pub fn has(&self, id: &ScheduleId) -> (r: bool)
        ensures
            r == self.order().has(*id),
    {
        self.order.contains(id)
    }

    /// The ids of the direct sub-phases, in order.
    pub fn children(&self) -> (r: &[ScheduleId])
        ensures
            r@ == self.keys(),
    {
        self.order.keys()
    }

    /// The schedules of the direct sub-phases, in order.
    pub fn schedules(&self) -> (r: &[Schedule])
        ensures
            r@ == self.kid_seq(),
    {
        self.children.as_slice()
    }

    fn applies_here(&self, at: Placement) -> (r: bool)
        ensures
            r == self.applies(at),
    {
        match at {
            Placement::Under(main) => self.id == main,
            Placement::Before(id) => self.order.contains(&id),
            Placement::After(id) => self.order.contains(&id),
        }
    }

    /// `at` applies to this node or to a node below it.
    pub fn reaches(&self, at: Placement) -> (r: bool)
        ensures
            r == self.reaching(at),
        decreases self,
    {
        if self.applies_here(at) {
            return true;
        }
        let n = self.children.len();
        let mut i: usize = 0;
        while i < n
            invariant
                i <= n,
                n == self.kid_seq().len(),
                !self.applies(at),
                forall|j: int| 0 <= j < i ==> !(#[trigger] self.kid_seq()[j]).reaching(at),
            decreases n - i,
        {
            if self.children[i].reaches(at) {
                assert(self.kid_seq()[i as int].reaching(at));
                return true;
            }
            i = i + 1;
        }
        false
    }

    /// Sets `schedule` as the sub-phase of its id: in place where one with
    /// that id is listed, else at the end.
    pub fn add_schedule(&mut self, schedule: Schedule)
        requires
            old(self).wf(),
            schedule.wf(),
        ensures
            final(self).wf(),
            old(self).added(&*final(self), schedule),
    {
        let id = schedule.id;
        proof {
            old(self).order().lemma_wf();
        }
        match self.order.index_of_key(&id) {
            Some(i) => {
                let replaced = self.order.insert(id, ());
                self.children.set(i, schedule);
                proof {
                    assert forall|j: int| 0 <= j < self.kid_seq().len() implies {
                        &&& (#[trigger] self.kid_seq()[j]).wf()
                        &&& self.kid_seq()[j].sid() == self.keys()[j]
                    } by {
                        if j != i {
                            assert(old(self).kid_seq()[j].wf());
                        }
                    }
                }
            },
            None => {
                let replaced = self.order.insert(id, ());
                self.children.push(schedule);
                proof {
                    assert forall|j: int| 0 <= j < self.kid_seq().len() implies {
                        &&& (#[trigger] self.kid_seq()[j]).wf()
                        &&& self.kid_seq()[j].sid() == self.keys()[j]
                    } by {
                        if j < old(self).kid_seq().len() {
                            assert(old(self).kid_seq()[j].wf());
                        }
                    }
                }
            },
        }
    }

    /// Puts `schedule` in as `at` says, at this node.
    fn place_here(&mut self, schedule: Schedule, at: Placement)
        requires
            old(self).wf(),
            schedule.wf(),
            old(self).applies(at),
        ensures
            final(self).wf(),
            old(self).placed_here(&*final(self), schedule, at),
    {
        proof {
            old(self).order().lemma_wf();
        }
        match at {
            Placement::Under(_) => self.add_schedule(schedule),
            Placement::Before(id) => {
                let i = self.order.index_of_key(&id).unwrap();
                let replaced = self.order.insert_before(schedule.id, (), &id);
                self.children.insert(i, schedule);
                proof {
                    self.lemma_spliced_wf(old(self), i as int);
                }
            },
            Placement::After(id) => {
                let i = self.order.index_of_key(&id).unwrap();
                let replaced = self.order.insert_after(schedule.id, (), &id);
                self.children.insert(i + 1, schedule);
                proof {
                    self.lemma_spliced_wf(old(self), i + 1);
                }
            },
        }
    }

    /// A schedule put in among well formed sub-phases, next to the id it
    /// is listed under, keeps the node well formed.
    proof fn lemma_spliced_wf(&self, before: &Schedule, i: int)
        requires
            before.wf(),
            0 <= i <= before.kid_seq().len(),
            self.order().wf(),
            self.order().is_accurate(),
            self.keys() == before.keys().insert(i, self.kid_seq()[i].sid()),
            self.kid_seq() == before.kid_seq().insert(i, self.kid_seq()[i]),
            self.kid_seq()[i].wf(),
        ensures
            self.wf(),
    {
        assert forall|j: int| 0 <= j < self.kid_seq().len() implies {
            &&& (#[trigger] self.kid_seq()[j]).wf()
            &&& self.kid_seq()[j].sid() == self.keys()[j]
        } by {
            if j < i {
                assert(before.kid_seq()[j].wf());
            } else if j > i {
                assert(before.kid_seq()[j - 1].wf());
            }
        }
    }

    /// Puts `schedule` in where `at` first applies, which it reaches.
    fn place(&mut self, schedule: Schedule, at: Placement)
        requires
            old(self).wf(),
            schedule.wf(),
            old(self).reaching(at),
        ensures
            final(self).wf(),
            final(self).sid() == old(self).sid(),
            old(self).placed(&*final(self), schedule, at),
        decreases *old(self),
    {
        if self.applies_here(at) {
            self.place_here(schedule, at);
            return;
        }
        let n = self.children.len();
        let mut i: usize = 0;
        while i < n
            invariant
                i <= n,
                n == self.kid_seq().len(),
                *self == *old(self),
                old(self).wf(),
                schedule.wf(),
                !old(self).applies(at),
                old(self).reaching(at),
                forall|j: int| 0 <= j < i ==> !(#[trigger] old(self).kid_seq()[j]).reaching(at),
            decreases n - i,
        {
            if self.children[i].reaches(at) {
                proof {
                    let k = old(self).first_reaching(at);
                    assert(old(self).kid_seq()[i as int].reaching(at));
                    if k != i {
                        if k < i {
                            assert(!old(self).kid_seq()[k].reaching(at));
                        } else {
                            assert(!old(self).kid_seq()[i as int].reaching(at));
                        }
                    }
                    assert(old(self).kid_seq()[i as int].wf());
                }
                self.children[i].place(schedule, at);
                proof {
                    assert forall|j: int| 0 <= j < self.kid_seq().len() implies {
                        &&& (#[trigger] self.kid_seq()[j]).wf()
                        &&& self.kid_seq()[j].sid() == self.keys()[j]
                    } by {
                        if j != i {
                            assert(old(self).kid_seq()[j].wf());
                        }
                    }
                }
                return;
            }
            i = i + 1;
        }
        proof {
            let j = choose|j: int|
                0 <= j < old(self).kid_seq().len() && (#[trigger] old(self).kid_seq()[j]).reaching(at);
            assert(!old(self).kid_seq()[j].reaching(at));
        }
    }

    /// Puts `schedule` in where `at` first applies: at this node, else in
    /// the first sub-phase, in order, that `at` reaches. Says whether `at`
    /// reached any node; where it reached none, nothing changes.
    pub fn place_at(&mut self, schedule: Schedule, at: Placement) -> (r: bool)
        requires
            old(self).wf(),
            schedule.wf(),
        ensures
            final(self).wf(),
            final(self).sid() == old(self).sid(),
            r == old(self).reaching(at),
            old(self).placed(&*final(self), schedule, at),
    {
        if self.reaches(at) {
            self.place(schedule, at);
            true
        } else {
            false
        }
    }

    /// The schedule that the search from position `i` of the sub-phases
    /// finds.
    fn get_from(&self, id: &ScheduleId, i: usize) -> (r: Option<&Schedule>)
        requires
            self.wf(),
            i <= self.kid_seq().len(),
        ensures
            match r {
                Some(s) => self.search(*id, i as int) == Some(*s),
                None => self.search(*id, i as int) is None,
            },
        decreases self, self.kid_seq().len() - i,
    {
        if i >= self.children.len() {
            return None;
        }
        let k = &self.children[i];
        proof {
            assert(k.wf());
            k.order().lemma_wf();
        }
        let found = match k.order.index_of_key(id) {
            Some(j) => Some(&k.children[j]),
            None => k.get_from(id, 0),
        };
        match found {
            Some(s) => Some(s),
            None => self.get_from(id, i + 1),
        }
    }

    /// The direct sub-phase `id`, else the first schedule with that id
    /// found within the sub-phases, in order.
    pub fn get(&self, id: &ScheduleId) -> (r: Option<&Schedule>)
        requires
            self.wf(),
        ensures
            match r {
                Some(s) => self.find(*id) == Some(*s),
                None => self.find(*id) is None,
            },
            self.holds_phase(*id) ==> r is Some,
            r matches Some(s) ==> s.sid() == *id,
    {
        proof {
            law_get_finds_any_depth(self, *id);
        }
        match self.order.index_of_key(id) {
            Some(j) => Some(&self.children[j]),
            None => self.get_from(id, 0),
        }
    }

    /// The direct sub-phase `id`, to change in place.
    pub fn get_mut(&mut self, id: &ScheduleId) -> (r: Option<&mut Schedule>)
        requires
            old(self).wf(),
        ensures
            old(self).order().has(*id) ==> r is Some,
            !old(self).order().has(*id) ==> r is None,
            match r {
                Some(s) => {
                    let i = old(self).order().slot(*id);
                    &&& *s == old(self).kid(*id)
                    &&& final(self).kid_seq() == old(self).kid_seq().update(i, *final(s))
                    &&& final(self).sid() == old(self).sid()
                    &&& final(self).order() == old(self).order()
                },
                None => *final(self) == *old(self),
            },
    {
        match self.order.index_of_key(id) {
            Some(j) => Some(&mut self.children[j]),
            None => None,
        }
    }

    /// Puts the schedule of `Sub` in as a sub-phase of the phase `Main`,
    /// wherever that stands: this node, else the first sub-phase, in order,
    /// that holds it. Says whether `Main` was found.
    pub fn add_child<Main: Phase, Sub: Phase>(&mut self) -> (r: bool)
        requires
            old(self).wf(),
        ensures
            final(self).wf(),
            exists|main: ScheduleId, sub: Schedule|
                {
                    &&& sub.wf()
                    &&& call_ensures(ScheduleId::new::<Main>, (), main)
                    &&& call_ensures(Sub::schedule, (), sub)
                    &&& r == old(self).reaching(Placement::Under(main))
                    &&& old(self).placed(&*final(self), sub, Placement::Under(main))
                },
    {
        let id_of = ScheduleId::new::<Main>;
        let main = id_of();
        let schedule_of = Sub::schedule;
        let sub = schedule_of();
        let ghost s = sub;
        let r = self.place_at(sub, Placement::Under(main));
        assert(s.wf() && call_ensures(ScheduleId::new::<Main>, (), main) && call_ensures(Sub::schedule, (), s) && r == old(self).reaching(Placement::Under(main)) && old(self).placed(
            &*self,
            s,
            Placement::Under(main),
        ));
        r
    }

    /// Puts the schedule of `Main` in just before the phase `Before`,
    /// wherever that is a sub-phase: of this node, else of the first
    /// sub-phase, in order, that holds it. Says whether `Before` was found.
    pub fn insert_before<Main: Phase, Before: Phase>(&mut self) -> (r: bool)
        requires
            old(self).wf(),
        ensures
            final(self).wf(),
            exists|before: ScheduleId, main: Schedule|
                {
                    &&& main.wf()
                    &&& call_ensures(ScheduleId::new::<Before>, (), before)
                    &&& call_ensures(Main::schedule, (), main)
                    &&& r == old(self).reaching(Placement::Before(before))
                    &&& old(self).placed(&*final(self), main, Placement::Before(before))
                },
    {
        let id_of = ScheduleId::new::<Before>;
        let before = id_of();
        let schedule_of = Main::schedule;
        let main = schedule_of();
        let ghost s = main;
        let r = self.place_at(main, Placement::Before(before));
        assert(s.wf() && call_ensures(ScheduleId::new::<Before>, (), before) && call_ensures(Main::schedule, (), s) && r == old(self).reaching(Placement::Before(before)) && old(self).placed(
            &*self,
            s,
            Placement::Before(before),
        ));
        r
    }

    /// Puts the schedule of `Main` in just after the phase `After`,
    /// wherever that is a sub-phase: of this node, else of the first
    /// sub-phase, in order, that holds it. Says whether `After` was found.
    pub fn insert_after<Main: Phase, After: Phase>(&mut self) -> (r: bool)
        requires
            old(self).wf(),
        ensures
            final(self).wf(),
            exists|after: ScheduleId, main: Schedule|
                {
                    &&& main.wf()
                    &&& call_ensures(ScheduleId::new::<After>, (), after)
                    &&& call_ensures(Main::schedule, (), main)
                    &&& r == old(self).reaching(Placement::After(after))
                    &&& old(self).placed(&*final(self), main, Placement::After(after))
                },
    {
        let id_of = ScheduleId::new::<After>;
        let after = id_of();
        let schedule_of = Main::schedule;
        let main = schedule_of();
        let ghost s = main;
        let r = self.place_at(main, Placement::After(after));
        assert(s.wf() && call_ensures(ScheduleId::new::<After>, (), after) && call_ensures(Main::schedule, (), s) && r == old(self).reaching(Placement::After(after)) && old(self).placed(
            &*self,
            s,
            Placement::After(after),
        ));
        r
    }
}

impl Schedule {
    /// A phase with the id `id` is listed below this node, at any depth:
    /// as a sub-phase of it, or of one of the schedules below it.
    pub open spec fn holds_phase(&self, id: ScheduleId) -> bool
        decreases self,
    {
        ||| self.order().has(id)
        ||| exists|i: int|
            0 <= i < self.kid_seq().len() && (#[trigger] self.kid_seq()[i]).holds_phase(id)
    }

    /// The sub-phase listed under `id` has that id.
    proof fn lemma_kid_sid(&self, id: ScheduleId)
        requires
            self.wf(),
            self.order().has(id),
        ensures
            self.kid(id).sid() == id,
    {
        let i = self.order().slot(id);
        assert(self.keys()[i].spec_key() == id.spec_key());
        ScheduleId::lemma_key_injective(self.keys()[i], id);
    }

    /// What the search finds has the id searched for.
    proof fn lemma_search_sound(&self, id: ScheduleId, i: int)
        requires
            self.wf(),
        ensures
            self.search(id, i) is Some ==> self.search(id, i)->0.sid() == id,
        decreases self, self.kid_seq().len() - i,
    {
        if 0 <= i < self.kid_seq().len() {
            let k = self.kid_seq()[i];
            assert(k.wf());
            if k.order().has(id) {
                k.lemma_kid_sid(id);
            } else {
                k.lemma_search_sound(id, 0);
            }
            self.lemma_search_sound(id, i + 1);
        }
    }

    /// The search from position `i` finds something where a schedule from
    /// that position on holds the phase `id` at any depth.
    proof fn lemma_search_complete(&self, id: ScheduleId, i: int)
        requires
            self.wf(),
            0 <= i,
            exists|j: int| i <= j < self.kid_seq().len() && (#[trigger] self.kid_seq()[j]).holds_phase(id),
        ensures
            self.search(id, i) is Some,
        decreases self, self.kid_seq().len() - i,
    {
        let j = choose|j: int| i <= j < self.kid_seq().len() && (#[trigger] self.kid_seq()[j]).holds_phase(id);
        let k = self.kid_seq()[i];
        assert(k.wf());
        if k.order().has(id) {
        } else if k.holds_phase(id) {
            k.lemma_search_complete(id, 0);
        } else {
            assert(j != i);
            self.lemma_search_complete(id, i + 1);
        }
    }
}

/// Looking up `id` finds a phase with that id wherever one is listed below
/// the schedule, at any depth, and finds nothing where none is.
pub proof fn law_get_finds_any_depth(schedule: &Schedule, id: ScheduleId)
    requires
        schedule.wf(),
    ensures
        schedule.holds_phase(id) ==> schedule.find(id) is Some,
        schedule.find(id) is Some ==> schedule.find(id)->0.sid() == id,
{
    if schedule.order().has(id) {
        schedule.lemma_kid_sid(id);
    } else {
        schedule.lemma_search_sound(id, 0);
        if schedule.holds_phase(id) {
            schedule.lemma_search_complete(id, 0);
        }
    }
}

/// Placing a schedule after a sub-phase `after` of a node puts it, with its
/// own sub-phases, right after `after`, and keeps every other sub-phase in
/// order.
pub proof fn law_placed_right_after(before: &Schedule, after: &Schedule, s: Schedule, anchor: ScheduleId)
    requires
        before.wf(),
        before.order().has(anchor),
        before.placed(after, s, Placement::After(anchor)),
    ensures
        ({
            let i = before.order().slot(anchor) + 1;
            &&& after.keys().len() == before.keys().len() + 1
            &&& after.keys()[i - 1] == anchor
            &&& after.keys()[i] == s.sid()
            &&& after.kid_seq()[i] == s
            &&& after.keys().take(i) == before.keys().take(i)
            &&& after.keys().skip(i + 1) == before.keys().skip(i)
        }),
{
    let i = before.order().slot(anchor) + 1;
    assert(before.keys()[i - 1].spec_key() == anchor.spec_key());
    ScheduleId::lemma_key_injective(before.keys()[i - 1], anchor);
    assert(after.keys().take(i) =~= before.keys().take(i));
    assert(after.keys().skip(i + 1) =~= before.keys().skip(i));
}

/// A schedule set as a sub-phase is what a search for its id finds next.
pub proof fn law_get_after_add(before: &Schedule, after: &Schedule, schedule: Schedule)
    requires
        before.wf(),
        before.added(after, schedule),
    ensures
        after.find(schedule.sid()) == Some(schedule),
{
    before.order().lemma_wf();
    let id = schedule.sid();
    if before.order().has(id) {
        assert(after.order().has(id));
    } else {
        assert(after.order().index_map()[id.spec_key()] == before.keys().len());
    }
}

} // verus!
