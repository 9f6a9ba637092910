use crate::key::Key;
use vstd::prelude::*;

verus! {

/// A thing in a world: a slot number and the generation of that slot.
#[derive(Clone, Copy, Debug, PartialEq, Eq, Structural, Hash, PartialOrd, Ord)]
pub struct Entity {
    pub id: u32,
    pub gen: u32,
}

impl Entity {
    pub fn new(id: u32, gen: u32) -> (r: Self)
        ensures
            r.id == id,
            r.gen == gen,
    {
        Entity { id, gen }
    }

    pub fn id(&self) -> (r: u32)
        ensures
            r == self.id,
    {
        self.id
    }

    pub fn gen(&self) -> (r: u32)
        ensures
            r == self.gen,
    {
        self.gen
    }
}

impl Key for Entity {
    open spec fn spec_key(&self) -> u64 {
        (self.id as int * 0x1_0000_0000 + self.gen as int) as u64
    }

    fn key(&self) -> (r: u64) {
        assert(self.id as int * 0x1_0000_0000 + self.gen as int <= u64::MAX) by (nonlinear_arith)
            requires
                self.id <= u32::MAX,
                self.gen <= u32::MAX,
        ;
        (self.id as u64) * 0x1_0000_0000 + (self.gen as u64)
    }

    proof fn lemma_key_injective(a: Self, b: Self) {
        assert(a.id as int * 0x1_0000_0000 + a.gen as int <= u64::MAX) by (nonlinear_arith)
            requires
                a.id <= u32::MAX,
                a.gen <= u32::MAX,
        ;
        assert(b.id as int * 0x1_0000_0000 + b.gen as int <= u64::MAX) by (nonlinear_arith)
            requires
                b.id <= u32::MAX,
                b.gen <= u32::MAX,
        ;
        if a.spec_key() == b.spec_key() {
            assert(a.id == b.id && a.gen == b.gen) by (nonlinear_arith)
                requires
                    a.id as int * 0x1_0000_0000 + a.gen as int == b.id as int * 0x1_0000_0000
                        + b.gen as int,
                    a.gen < 0x1_0000_0000,
                    b.gen < 0x1_0000_0000,
                    0 <= a.gen,
                    0 <= b.gen,
            ;
        }
    }
}

/// The number of set flags among the first `n`.
pub open spec fn count_set(s: Seq<bool>, n: int) -> nat
    decreases n,
{
    if n <= 0 {
        0
    } else {
        count_set(s, n - 1) + if s[n - 1] {
            1nat
        } else {
            0nat
        }
    }
}

proof fn lemma_count_set_update(s: Seq<bool>, n: int, i: int)
    requires
        0 <= i < n <= s.len(),
        s[i],
    ensures
        count_set(s.update(i, false), n) + 1 == count_set(s, n),
    decreases n,
{
    if n - 1 > i {
        lemma_count_set_update(s, n - 1, i);
    } else {
        lemma_count_set_same(s, s.update(i, false), i);
    }
}

proof fn lemma_count_set_same(s: Seq<bool>, t: Seq<bool>, n: int)
    requires
        0 <= n <= s.len(),
        n <= t.len(),
        forall|j: int| 0 <= j < n ==> s[j] == t[j],
    ensures
        count_set(s, n) == count_set(t, n),
    decreases n,
{
    if n > 0 {
        lemma_count_set_same(s, t, n - 1);
    }
}

/// The live entities of a world, with their parents and children.
pub struct Entities {
    gens: Vec<u32>,
    alive: Vec<bool>,
    free: Vec<u32>,
    parents: Vec<Option<Entity>>,
    children: Vec<Vec<Entity>>,
}

impl Entities {
    pub closed spec fn gen_seq(&self) -> Seq<u32> {
        self.gens@
    }

    pub closed spec fn alive_seq(&self) -> Seq<bool> {
        self.alive@
    }

    pub closed spec fn free_seq(&self) -> Seq<u32> {
        self.free@
    }

    pub closed spec fn parent_seq(&self) -> Seq<Option<Entity>> {
        self.parents@
    }

    pub closed spec fn children_seq(&self) -> Seq<Seq<Entity>> {
        self.children@.map_values(|c: Vec<Entity>| c@)
    }

    /// The number of slots ever handed out.
    pub open spec fn slots(&self) -> int {
        self.gen_seq().len() as int
    }

    pub closed spec fn wf(&self) -> bool {
        &&& self.gens@.len() == self.alive@.len()
        &&& self.gens@.len() == self.parents@.len()
        &&& self.gens@.len() == self.children@.len()
        &&& self.gens@.len() <= u32::MAX
        &&& self.free@.no_duplicates()
        &&& forall|i: int| 0 <= i < self.free@.len() ==> (#[trigger] self.free@[i] as int) < self.gens@.len()
            && !self.alive@[self.free@[i] as int]
    }

    /// `e` names a slot in use, with that slot's current generation.
    pub open spec fn is_alive(&self, e: Entity) -> bool {
        &&& (e.id as int) < self.slots()
        &&& self.alive_seq()[e.id as int]
        &&& self.gen_seq()[e.id as int] == e.gen
    }

    pub open spec fn parent_of(&self, e: Entity) -> Option<Entity> {
        self.parent_seq()[e.id as int]
    }

    pub open spec fn children_of(&self, e: Entity) -> Seq<Entity> {
        self.children_seq()[e.id as int]
    }

    /// Every child listed for a live entity is alive and has that entity as
    /// its parent.
    pub open spec fn linked(&self) -> bool {
        forall|p: Entity, c: Entity|
            #![trigger self.children_of(p).contains(c)]
            self.is_alive(p) && self.children_of(p).contains(c) ==> self.is_alive(c)
                && self.parent_of(c) == Some(p)
    }

    pub proof fn lemma_wf(&self)
        requires
            self.wf(),
        ensures
            self.alive_seq().len() == self.slots(),
            self.parent_seq().len() == self.slots(),
            self.children_seq().len() == self.slots(),
            self.slots() <= u32::MAX,
    {
    }

    pub fn new() -> (r: Self)
        ensures
            r.wf(),
            r.slots() == 0,
            r.free_seq() == Seq::<u32>::empty(),
            r.linked(),
    {
        Entities {
            gens: Vec::new(),
            alive: Vec::new(),
            free: Vec::new(),
            parents: Vec::new(),
            children: Vec::new(),
        }
    }

    /// The number of slots ever handed out.
    pub fn capacity(&self) -> (r: usize)
        ensures
            r == self.slots(),
    {
        self.gens.len()
    }

    /// A slot is free, or a new one can still be numbered.
    pub(crate) fn can_spawn(&self) -> (r: bool)
        requires
            self.wf(),
        ensures
            r == (self.free_seq().len() == 0 ==> self.slots() < u32::MAX),
    {
        self.free.len() > 0 || self.gens.len() < 0xFFFF_FFFF
    }

    pub fn contains(&self, entity: &Entity) -> (r: bool)
        requires
            self.wf(),
        ensures
            r == self.is_alive(*entity),
    {
        let i = entity.id as usize;
        i < self.gens.len() && self.alive[i] && self.gens[i] == entity.gen
    }

    /// Makes a new live entity: in the last freed slot, one generation on,
    /// else in a new slot. Its parent is `parent`, whose children then end
    /// with it when `parent` is alive.
    pub fn spawn(&mut self, parent: Option<&Entity>) -> (r: Entity)
        requires
            old(self).wf(),
            old(self).free_seq().len() == 0 ==> old(self).slots() < u32::MAX,
        ensures
            final(self).wf(),
            final(self).is_alive(r),
            !old(self).is_alive(r),
            old(self).free_seq().len() == 0 ==> {
                &&& r == Entity { id: old(self).slots() as u32, gen: 0 }
                &&& final(self).slots() == old(self).slots() + 1
            },
            old(self).free_seq().len() > 0 ==> {
                let id = old(self).free_seq().last();
                let g = old(self).gen_seq()[id as int];
                &&& r == Entity { id, gen: if g == u32::MAX { 0 } else { (g + 1) as u32 } }
                &&& final(self).slots() == old(self).slots()
                &&& final(self).free_seq() == old(self).free_seq().drop_last()
            },
            final(self).parent_of(r) == match parent {
                Some(p) => Some(*p),
                None => None::<Entity>,
            },
            final(self).children_of(r) == Seq::<Entity>::empty(),
            forall|e: Entity| #[trigger]
                old(self).is_alive(e) ==> final(self).is_alive(e) && final(self).parent_of(e)
                    == old(self).parent_of(e),
            match parent {
                Some(p) => old(self).is_alive(*p) ==> final(self).children_of(*p) == old(self).children_of(*p).push(r),
                None => true,
            },
            forall|j: int|
                0 <= j < old(self).slots() && j != r.id as int && !(parent is Some && old(self).is_alive(
                    *parent->0,
                ) && j == parent->0.id as int) ==> #[trigger] final(self).children_seq()[j] == old(
                    self,
                ).children_seq()[j],
            old(self).linked() ==> final(self).linked(),
    {
        let parent_value: Option<Entity> = match parent {
            Some(p) => Some(*p),
            None => None,
        };
        let ghost free0 = self.free@;
        let entity = match self.free.pop() {
            Some(id) => {
                let i = id as usize;
                assert(free0[free0.len() - 1] == id);
                assert forall|j: int| 0 <= j < self.free@.len() implies #[trigger] self.free@[j] != id by {
                    assert(free0[j] == self.free@[j]);
                }
                let g = self.gens[i];
                let gen = if g == u32::MAX {
                    0
                } else {
                    g + 1
                };
                self.gens.set(i, gen);
                self.alive.set(i, true);
                self.parents.set(i, parent_value);
                self.children.set(i, Vec::new());
                Entity { id, gen }
            },
            None => {
                let id = self.gens.len() as u32;
                self.gens.push(0);
                self.alive.push(true);
                self.parents.push(parent_value);
                self.children.push(Vec::new());
                Entity { id, gen: 0 }
            },
        };
        match parent {
            Some(p) => {
                if self.contains(p) && p.id != entity.id {
                    let pi = p.id as usize;
                    let mut kids = Vec::new();
                    std::mem::swap(&mut kids, &mut self.children[pi]);
                    kids.push(entity);
                    self.children.set(pi, kids);
                }
            },
            None => {},
        }
        proof {
            assert(self.children_seq()[entity.id as int] == Seq::<Entity>::empty());
            if old(self).linked() {
                assert forall|p: Entity, c: Entity|
                    #![trigger self.children_of(p).contains(c)]
                    self.is_alive(p) && self.children_of(p).contains(c) implies self.is_alive(c)
                        && self.parent_of(c) == Some(p) by {
                    assert(p.id != entity.id);
                    assert(old(self).is_alive(p));
                    let pushed = match parent {
                        Some(q) => old(self).is_alive(*q) && q.id == p.id,
                        None => false,
                    };
                    if pushed {
                        let q = *parent.unwrap();
                        assert(q == p);
                        if c != entity {
                            let k = choose|k: int| 0 <= k < self.children_of(p).len() && self.children_of(p)[k] == c;
                            assert(old(self).children_of(p)[k] == c);
                            assert(old(self).children_of(p).contains(c));
                        } else {
                            assert(self.parent_of(c) == parent_value);
                        }
                    } else {
                        assert(self.children_of(p) == old(self).children_of(p));
                        assert(old(self).children_of(p).contains(c));
                    }
                    if c != entity {
                        assert(old(self).is_alive(c));
                        assert(c.id != entity.id);
                        assert(self.is_alive(c));
                        assert(self.parent_of(c) == old(self).parent_of(c));
                    }
                }
            }
        }
        entity
    }

    /// The parent recorded for `entity`, when it is alive and has one.
    pub fn parent(&self, entity: &Entity) -> (r: Option<&Entity>)
        requires
            self.wf(),
        ensures
            self.is_alive(*entity) ==> r == match self.parent_of(*entity) {
                Some(p) => Some(&p),
                None => None::<&Entity>,
            },
            !self.is_alive(*entity) ==> r is None,
    {
        if self.contains(entity) {
            match &self.parents[entity.id as usize] {
                Some(p) => Some(p),
                None => None,
            }
        } else {
            None
        }
    }

    /// The children of `entity`, when it is alive.
    pub fn children(&self, entity: &Entity) -> (r: Option<&[Entity]>)
        requires
            self.wf(),
        ensures
            self.is_alive(*entity) ==> (r matches Some(c) && c@ == self.children_of(*entity)),
            !self.is_alive(*entity) ==> r is None,
    {
        if self.contains(entity) {
            Some(self.children[entity.id as usize].as_slice())
        } else {
            None
        }
    }

    /// Drops `child` from the children of the slot `id`.
    fn detach(&mut self, id: u32, child: Entity)
        requires
            old(self).wf(),
        ensures
            final(self).wf(),
            final(self).gen_seq() == old(self).gen_seq(),
            final(self).alive_seq() == old(self).alive_seq(),
            final(self).free_seq() == old(self).free_seq(),
            final(self).parent_seq() == old(self).parent_seq(),
            (id as int) < old(self).slots() ==> final(self).children_seq() == old(self).children_seq().update(id as int, without(old(self).children_seq()[id as int], child)),
            (id as int) >= old(self).slots() ==> final(self).children_seq() == old(self).children_seq(),
    {
        let i = id as usize;
        if i < self.children.len() {
            let mut kids = Vec::new();
            std::mem::swap(&mut kids, &mut self.children[i]);
            let kept = remove_all(&kids, child);
            self.children.set(i, kept);
            proof {
                assert(self.children_seq() =~= old(self).children_seq().update(
                    id as int,
                    without(old(self).children_seq()[id as int], child),
                ));
            }
        }
    }

    /// The children lists after `entity` leaves the list of its parent
    /// and, where `parent` is another live entity, joins the end of its
    /// list.
    pub open spec fn moved_children(&self, entity: Entity, parent: Option<Entity>) -> Seq<Seq<Entity>> {
        let kids = self.children_seq();
        let detached = if self.parent_of(entity) is Some && (self.parent_of(entity)->0.id as int)
            < self.slots() {
            let q = self.parent_of(entity)->0.id as int;
            kids.update(q, without(kids[q], entity))
        } else {
            kids
        };
        if parent is Some && self.is_alive(parent->0) && parent->0.id != entity.id {
            let p = parent->0.id as int;
            detached.update(p, detached[p].push(entity))
        } else {
            detached
        }
    }

    /// Gives `entity` the parent `parent` and hands back its former one.
    /// It leaves the children of the former parent and, when `parent` is
    /// alive and another entity, joins the end of its children. A dead
    /// `entity` is left alone.
    pub fn set_parent(&mut self, entity: &Entity, parent: Option<&Entity>) -> (r: Option<Entity>)
        requires
            old(self).wf(),
        ensures
            final(self).wf(),
            !old(self).is_alive(*entity) ==> r is None && *final(self) == *old(self),
            final(self).slots() == old(self).slots(),
            old(self).is_alive(*entity) ==> {
                &&& final(self).children_seq() == old(self).moved_children(*entity, match parent {
                    Some(p) => Some(*p),
                    None => None::<Entity>,
                })
                &&& r == old(self).parent_of(*entity)
                &&& final(self).parent_of(*entity) == match parent {
                    Some(p) => Some(*p),
                    None => None::<Entity>,
                }
                &&& forall|e: Entity| #[trigger]
                    final(self).is_alive(e) == old(self).is_alive(e)
                &&& forall|e: Entity|
                    e.id != entity.id && (e.id as int) < old(self).slots() ==> #[trigger] final(
                        self).parent_of(e) == old(self).parent_of(e)
                &&& match old(self).parent_of(*entity) {
                    Some(q) => (q.id as int) < old(self).slots() && !(parent matches Some(p) && p.id
                        == q.id) ==> !final(self).children_of(q).contains(*entity),
                    None => true,
                }
                &&& match parent {
                    Some(p) => old(self).is_alive(*p) && p.id != entity.id ==> {
                        &&& final(self).children_of(*p).contains(*entity)
                        &&& final(self).children_of(*p).last() == *entity
                    },
                    None => true,
                }
            },
            old(self).linked() ==> final(self).linked(),
    {
        if !self.contains(entity) {
            return None;
        }
        let i = entity.id as usize;
        let old_parent = self.parents[i];
        match old_parent {
            Some(q) => {
                self.detach(q.id, *entity);
                proof {
                    if (q.id as int) < old(self).slots() {
                        lemma_without_excludes(old(self).children_seq()[q.id as int], *entity);
                        assert(!self.children_of(q).contains(*entity));
                    }
                }
            },
            None => {},
        }
        let ghost s1 = *self;
        let parent_value: Option<Entity> = match parent {
            Some(p) => Some(*p),
            None => None,
        };
        self.parents.set(i, parent_value);
        match parent {
            Some(p) => {
                if self.contains(p) && p.id != entity.id {
                    let pi = p.id as usize;
                    let ghost mid = self.children_seq();
                    let mut kids = Vec::new();
                    std::mem::swap(&mut kids, &mut self.children[pi]);
                    kids.push(*entity);
                    self.children.set(pi, kids);
                    proof {
                        assert forall|j: int| 0 <= j < mid.len() && j != pi implies self.children_seq()[j]
                            == mid[j] by {}
                        assert(self.children_seq()[pi as int].last() == *entity);
                        assert(self.children_seq()[pi as int].contains(*entity));
                    }
                }
            },
            None => {},
        }
        assert(old_parent == old(self).parent_of(*entity));
        assert(forall|e: Entity| #[trigger] self.is_alive(e) == old(self).is_alive(e));
        assert(forall|e: Entity|
                    e.id != entity.id && (e.id as int) < old(self).slots() ==> #[trigger] self.parent_of(e) == old(self).parent_of(e));
        assert(match old(self).parent_of(*entity) {
                    Some(q) => (q.id as int) < old(self).slots() && !(parent matches Some(p) && p.id
                        == q.id) ==> !self.children_of(q).contains(*entity),
                    None => true,
                });
        assert(match parent {
                    Some(p) => old(self).is_alive(*p) && p.id != entity.id ==> {
                        &&& self.children_of(*p).contains(*entity)
                        &&& self.children_of(*p).last() == *entity
                    },
                    None => true,
                });
        proof {
            if old(self).linked() {
                assert forall|pp: Entity, c: Entity|
                    #![trigger self.children_of(pp).contains(c)]
                    self.is_alive(pp) && self.children_of(pp).contains(c) implies self.is_alive(c)
                        && self.parent_of(c) == Some(pp) by {
                    assert(old(self).is_alive(pp));
                    let pushed_here = parent matches Some(p) && old(self).is_alive(*p) && p.id
                        != entity.id && p.id == pp.id;
                    if pushed_here && c == *entity {
                        let p = *parent.unwrap();
                        assert(p == pp);
                    } else {
                        if pushed_here {
                            let k = choose|k: int|
                                0 <= k < self.children_of(pp).len() && self.children_of(pp)[k] == c;
                            assert(s1.children_of(pp)[k] == c);
                        } else {
                            assert(self.children_of(pp) == s1.children_of(pp));
                        }
                        assert(s1.children_of(pp).contains(c));
                        match old_parent {
                            Some(q) => {
                                if q.id == pp.id {
                                    lemma_without_subset(old(self).children_seq()[q.id as int], *entity, c);
                                }
                            },
                            None => {},
                        }
                        assert(old(self).children_of(pp).contains(c));
                        assert(old(self).is_alive(c) && old(self).parent_of(c) == Some(pp));
                        if c == *entity {
                            lemma_without_excludes(old(self).children_seq()[pp.id as int], *entity);
                            assert(false);
                        }
                        assert(c.id != entity.id);
                    }
                }
            }
        }
        old_parent
    }

    /// Ends `entity` and, one after another, its descendants, and hands
    /// them back, `entity` first. Each leaves its parent's children and its
    /// slot is freed; nothing happens for a dead `entity`.
    pub fn despawn(&mut self, entity: &Entity) -> (r: Vec<Entity>)
        requires
            old(self).wf(),
        ensures
            final(self).wf(),
            r@.len() > 0 <==> old(self).is_alive(*entity),
            r@.len() > 0 ==> r@[0] == *entity,
            r@.no_duplicates(),
            forall|i: int|
                0 <= i < r@.len() ==> old(self).is_alive(#[trigger] r@[i]) && !final(self).is_alive(r@[i]),
            forall|e: Entity| #[trigger]
                old(self).is_alive(e) && !r@.contains(e) ==> final(self).is_alive(e),
            forall|e: Entity| #[trigger] final(self).is_alive(e) ==> old(self).is_alive(e),
            forall|x: Entity, c: Entity|
                #![trigger r@.contains(x), old(self).children_of(x).contains(c)]
                r@.contains(x) && old(self).children_of(x).contains(c) && old(self).is_alive(c)
                    ==> r@.contains(c),
            forall|y: Entity, c: Entity|
                #![trigger final(self).is_alive(y), old(self).children_of(y).contains(c)]
                final(self).is_alive(y) && old(self).children_of(y).contains(c) && old(self).is_alive(c)
                    && !r@.contains(c) ==> final(self).children_of(y).contains(c),
            old(self).linked() ==> final(self).linked(),
    {
        let mut out: Vec<Entity> = Vec::new();
        if !self.contains(entity) {
            return out;
        }
        let mut work: Vec<Entity> = Vec::new();
        work.push(*entity);
        while work.len() > 0
            invariant
                old(self).linked() ==> self.linked(),
                self.wf(),
                old(self).is_alive(*entity),
                out@.len() == 0 ==> work@ == seq![*entity],
                out@.len() > 0 ==> out@[0] == *entity,
                out@.no_duplicates(),
                self.slots() == old(self).slots(),
                forall|i: int|
                    0 <= i < out@.len() ==> old(self).is_alive(#[trigger] out@[i]) && !self.is_alive(
                        out@[i],
                    ),
                forall|e: Entity| #[trigger]
                    old(self).is_alive(e) && !out@.contains(e) ==> self.is_alive(e),
                forall|e: Entity| #[trigger] self.is_alive(e) ==> old(self).is_alive(e),
                forall|x: Entity, c: Entity|
                    #![trigger out@.contains(x), old(self).children_of(x).contains(c)]
                    out@.contains(x) && old(self).children_of(x).contains(c) && old(self).is_alive(c)
                        ==> out@.contains(c) || work@.contains(c),
                forall|y: Entity, c: Entity|
                    #![trigger self.is_alive(y), old(self).children_of(y).contains(c)]
                    self.is_alive(y) && old(self).children_of(y).contains(c) && old(self).is_alive(c)
                        && !out@.contains(c) ==> self.children_of(y).contains(c),
            decreases count_set(self.alive_seq(), self.slots()), work@.len(),
        {
            let ghost work0 = work@;
            let ghost out0 = out@;
            let x = work.pop().unwrap();
            proof {
                assert(work@ == work0.drop_last() && x == work0.last());
                assert forall|c: Entity| work0.contains(c) && c != x implies #[trigger] work@.contains(c) by {
                    let k = choose|k: int| 0 <= k < work0.len() && work0[k] == c;
                    assert(work@[k] == c);
                }
            }
            if self.contains(&x) {
                let i = x.id as usize;
                let ghost before = *self;
                proof {
                    assert(!self.free@.contains(x.id)) by {
                        if self.free@.contains(x.id) {
                            let k = choose|k: int| 0 <= k < self.free@.len() && self.free@[k] == x.id;
                            assert(!self.alive@[self.free@[k] as int]);
                        }
                    }
                    lemma_count_set_update(self.alive@, self.alive@.len() as int, i as int);
                }
                self.alive.set(i, false);
                self.free.push(x.id);
                let ghost dead = *self;
                match self.parents[i] {
                    Some(q) => {
                        self.detach(q.id, x);
                    },
                    None => {},
                }
                let ghost mid = *self;
                proof {
                    assert forall|y: Entity, c: Entity|
                        #![trigger dead.children_of(y).contains(c)]
                        (y.id as int) < dead.slots() && dead.children_of(y).contains(c) && c != x
                            implies mid.children_of(y).contains(c) by {
                        match dead.parent_seq()[i as int] {
                            Some(q) => {
                                if q.id == y.id {
                                    lemma_without_keeps(dead.children_seq()[y.id as int], x, c);
                                }
                            },
                            None => {},
                        }
                    }
                }
                let mut kids = Vec::new();
                std::mem::swap(&mut kids, &mut self.children[i]);
                let ghost kids0 = kids@;
                proof {
                    assert(kids0 == mid.children_seq()[i as int]);
                    assert(self.children_seq() =~= mid.children_seq().update(i as int, Seq::<Entity>::empty()));
                }
                let ghost work1 = work@;
                work.append(&mut kids);
                proof {
                    assert forall|c: Entity| work1.contains(c) implies #[trigger] work@.contains(c) by {
                        let k = choose|k: int| 0 <= k < work1.len() && work1[k] == c;
                        assert(work@[k] == c);
                    }
                    assert forall|c: Entity| kids0.contains(c) implies #[trigger] work@.contains(c) by {
                        let k = choose|k: int| 0 <= k < kids0.len() && kids0[k] == c;
                        assert(work@[work1.len() + k] == c);
                    }
                }
                proof {
                    assert forall|e: Entity| #[trigger] self.is_alive(e) implies before.is_alive(e)
                        && e != x by {}
                    assert(!out@.contains(x));
                }
                let ghost out_before = out@;
                out.push(x);
                proof {
                    assert forall|e: Entity| #[trigger]
                        old(self).is_alive(e) && !out@.contains(e) implies self.is_alive(e) by {
                        assert(out@[out@.len() - 1] == x);
                        assert(e != x);
                        assert forall|k: int| 0 <= k < out_before.len() implies out_before[k] != e by {
                            assert(out@[k] == out_before[k]);
                        }
                        assert(!out_before.contains(e));
                        assert(before.is_alive(e));
                    }
                    assert forall|k: int| 0 <= k < out@.len() implies old(self).is_alive(
                        #[trigger] out@[k],
                    ) && !self.is_alive(out@[k]) by {
                        if k < out@.len() - 1 {
                            assert(out@[k] == out@.drop_last()[k]);
                        }
                    }
                    assert(out@.contains(x)) by {
                        assert(out@[out@.len() - 1] == x);
                    }
                    assert forall|c: Entity| out0.contains(c) implies #[trigger] out@.contains(c) by {
                        let k = choose|k: int| 0 <= k < out0.len() && out0[k] == c;
                        assert(out@[k] == c);
                    }
                    assert forall|c: Entity| #[trigger] out@.contains(c) && c != x implies out0.contains(c) by {
                        let k = choose|k: int| 0 <= k < out@.len() && out@[k] == c;
                        assert(out0[k] == c);
                    }
                    assert forall|x2: Entity, c: Entity|
                        #![trigger out@.contains(x2), old(self).children_of(x2).contains(c)]
                        out@.contains(x2) && old(self).children_of(x2).contains(c) && old(
                            self,
                        ).is_alive(c) implies out@.contains(c) || work@.contains(c) by {
                        if out0.contains(c) {
                        } else if c == x {
                        } else if x2 == x {
                            assert(before.children_of(x).contains(c));
                            assert(dead.children_of(x).contains(c));
                            assert(mid.children_of(x).contains(c));
                            assert(kids0.contains(c));
                        } else {
                            assert(out0.contains(x2));
                            assert(work0.contains(c));
                            assert(work1.contains(c));
                        }
                    }
                    if old(self).linked() {
                        assert forall|pp: Entity, c: Entity|
                            #![trigger self.children_of(pp).contains(c)]
                            self.is_alive(pp) && self.children_of(pp).contains(c) implies self.is_alive(c)
                                && self.parent_of(c) == Some(pp) by {
                            assert(before.is_alive(pp));
                            assert(pp.id != x.id);
                            assert(self.children_of(pp) == mid.children_of(pp));
                            let q = dead.parent_seq()[i as int];
                            if q is Some && q->0.id == pp.id {
                                lemma_without_subset(dead.children_seq()[pp.id as int], x, c);
                            }
                            assert(before.children_of(pp).contains(c));
                            assert(before.is_alive(c) && before.parent_of(c) == Some(pp));
                            if c == x {
                                lemma_without_excludes(dead.children_seq()[pp.id as int], x);
                                assert(false);
                            }
                        }
                    }
                    assert forall|y: Entity, c: Entity|
                        #![trigger self.is_alive(y), old(self).children_of(y).contains(c)]
                        self.is_alive(y) && old(self).children_of(y).contains(c) && old(self).is_alive(c)
                            && !out@.contains(c) implies self.children_of(y).contains(c) by {
                        assert(before.is_alive(y));
                        assert(!out0.contains(c));
                        assert(before.children_of(y).contains(c));
                        assert(c != x);
                        assert(dead.children_of(y).contains(c));
                        assert(mid.children_of(y).contains(c));
                        assert(y.id != x.id);
                    }
                }
            } else {
                proof {
                    assert forall|x2: Entity, c: Entity|
                        #![trigger out@.contains(x2), old(self).children_of(x2).contains(c)]
                        out@.contains(x2) && old(self).children_of(x2).contains(c) && old(
                            self,
                        ).is_alive(c) implies out@.contains(c) || work@.contains(c) by {
                        if !out0.contains(c) && c == x {
                            assert(self.is_alive(c));
                        }
                    }
                }
            }
        }
        out
    }
}

/// `s` without any occurrence of `e`, in order.
pub open spec fn without<T>(s: Seq<T>, e: T) -> Seq<T>
    decreases s.len(),
{
    if s.len() == 0 {
        s
    } else if s.last() == e {
        without(s.drop_last(), e)
    } else {
        without(s.drop_last(), e).push(s.last())
    }
}

pub proof fn lemma_without_excludes<T>(s: Seq<T>, e: T)
    ensures
        !without(s, e).contains(e),
    decreases s.len(),
{
    if s.len() > 0 {
        lemma_without_excludes(s.drop_last(), e);
        let w = without(s.drop_last(), e);
        if s.last() != e {
            assert forall|i: int| 0 <= i < w.push(s.last()).len() implies w.push(s.last())[i]
                != e by {
                if i < w.len() {
                    assert(w[i] != e);
                }
            }
        }
    }
}

/// Dropping `e` keeps every other entry.
pub proof fn lemma_without_keeps<T>(s: Seq<T>, e: T, c: T)
    requires
        s.contains(c),
        c != e,
    ensures
        without(s, e).contains(c),
    decreases s.len(),
{
    let w = without(s.drop_last(), e);
    if s.last() == c {
        assert(w.push(s.last())[w.len() as int] == c);
    } else {
        let i = choose|i: int| 0 <= i < s.len() && s[i] == c;
        assert(s.drop_last()[i] == c);
        lemma_without_keeps(s.drop_last(), e, c);
        if s.last() != e {
            let j = choose|j: int| 0 <= j < w.len() && w[j] == c;
            assert(w.push(s.last())[j] == c);
        }
    }
}

/// Dropping `e` adds nothing.
pub proof fn lemma_without_subset<T>(s: Seq<T>, e: T, c: T)
    requires
        without(s, e).contains(c),
    ensures
        s.contains(c),
    decreases s.len(),
{
    if s.len() > 0 {
        let w = without(s.drop_last(), e);
        if s.last() != e && w.push(s.last()).last() == c {
            assert(s[s.len() - 1] == c);
        } else {
            let j = choose|j: int| 0 <= j < without(s, e).len() && without(s, e)[j] == c;
            if s.last() != e {
                assert(w[j] == c);
            }
            assert(w.contains(c));
            lemma_without_subset(s.drop_last(), e, c);
            let k = choose|k: int| 0 <= k < s.drop_last().len() && s.drop_last()[k] == c;
            assert(s[k] == c);
        }
    }
}

/// The entities of `s` other than `e`, in order.
fn remove_all(s: &Vec<Entity>, e: Entity) -> (r: Vec<Entity>)
    ensures
        r@ == without(s@, e),
{
    let mut out: Vec<Entity> = Vec::new();
    let mut i: usize = 0;
    while i < s.len()
        invariant
            i <= s@.len(),
            out@ == without(s@.subrange(0, i as int), e),
        decreases s@.len() - i,
    {
        let ghost pre = s@.subrange(0, i as int);
        assert(s@.subrange(0, i + 1).drop_last() =~= pre);
        assert(s@.subrange(0, i + 1).last() == s@[i as int]);
        if s[i] != e {
            out.push(s[i]);
        }
        i = i + 1;
    }
    assert(s@.subrange(0, s@.len() as int) =~= s@);
    out
}

/// Setting the parent of a live `entity` moves only `entity`: every other
/// entity is listed among the children of each slot exactly where it was
/// before; `entity` leaves the list of its former parent and ends the list
/// of its new one.
pub proof fn law_set_parent_moves_only_entity(
    before: &Entities,
    after: &Entities,
    entity: Entity,
    parent: Option<Entity>,
)
    requires
        before.wf(),
        before.is_alive(entity),
        after.children_seq() == before.moved_children(entity, parent),
    ensures
        forall|j: int, x: Entity|
            0 <= j < before.slots() && x != entity ==> (#[trigger] after.children_seq()[j].contains(x)
                <==> before.children_seq()[j].contains(x)),
        parent is Some && before.is_alive(parent->0) && parent->0.id != entity.id ==> after.children_seq()[
            parent->0.id as int].last() == entity,
        before.parent_of(entity) is Some && (before.parent_of(entity)->0.id as int) < before.slots() && !(
        parent is Some && before.is_alive(parent->0) && parent->0.id == before.parent_of(entity)->0.id)
            ==> !after.children_seq()[before.parent_of(entity)->0.id as int].contains(entity),
{
    before.lemma_wf();
    assert forall|j: int, x: Entity|
        0 <= j < before.slots() && x != entity implies (#[trigger] after.children_seq()[j].contains(x)
        <==> before.children_seq()[j].contains(x)) by {
        let kids = before.children_seq();
        let moved_from = before.parent_of(entity) is Some && (before.parent_of(entity)->0.id as int)
            < before.slots() && before.parent_of(entity)->0.id as int == j;
        let mid = if moved_from {
            without(kids[j], entity)
        } else {
            kids[j]
        };
        if moved_from {
            if kids[j].contains(x) {
                lemma_without_keeps(kids[j], entity, x);
            }
            if mid.contains(x) {
                lemma_without_subset(kids[j], entity, x);
            }
        }
        if parent is Some && before.is_alive(parent->0) && parent->0.id != entity.id && parent->0.id
            as int == j {
            if mid.push(entity).contains(x) {
                let k = choose|k: int| 0 <= k < mid.push(entity).len() && mid.push(entity)[k] == x;
                assert(mid[k] == x);
            }
            if mid.contains(x) {
                let k = choose|k: int| 0 <= k < mid.len() && mid[k] == x;
                assert(mid.push(entity)[k] == x);
            }
        }
    }
    match before.parent_of(entity) {
        Some(q) => {
            if (q.id as int) < before.slots() {
                lemma_without_excludes(before.children_seq()[q.id as int], entity);
            }
        },
        None => {},
    }
}

} // verus!
